use hashbrown::HashMap;
use std::sync::atomic::{AtomicU64, AtomicUsize, Ordering};
use vrp_core::algorithms::mdp::extremes::{first_least, last_greatest};
use vrp_core::algorithms::mdp::race::{race_winner, runs_ahead, selection_weight, Contender, ZERO_SHIFT};
use vrp_core::algorithms::mdp::{pick_at, ActionsEstimate, UNITS_PER_ONE};
use vrp_core::utils::random::Random;

const A: u64 = 1;
const B: u64 = 2;
const C: u64 = 3;

fn fixed(value: f64) -> i64 {
    (value * UNITS_PER_ONE as f64).round() as i64
}

/// A small deterministic generator (xorshift) behind the library's trait.
struct TestRandom {
    state: AtomicU64,
}

impl TestRandom {
    fn new(seed: u64) -> Self {
        Self { state: AtomicU64::new(seed.wrapping_mul(0x9E37_79B9_7F4A_7C15) | 1) }
    }

    fn next(&self) -> u64 {
        let mut x = self.state.load(Ordering::Relaxed);
        x ^= x << 13;
        x ^= x >> 7;
        x ^= x << 17;
        self.state.store(x, Ordering::Relaxed);
        x
    }

    fn uniform_real(&self) -> f64 {
        ((self.next() >> 11) as f64 + 0.5) / (1u64 << 53) as f64
    }
}

impl Random for TestRandom {
    fn uniform_int(&self, low: i32, high: i32) -> i32 {
        let span = (high as i64 - low as i64 + 1) as u64;
        (low as i64 + (self.next() % span) as i64) as i32
    }

    fn exponential(&self) -> u64 {
        ((-self.uniform_real().ln() * UNITS_PER_ONE as f64).ceil() as u64).max(1)
    }
}

/// A source that hands out prepared answers.
struct Scripted {
    integer: i32,
    times: Vec<u64>,
    used: AtomicUsize,
}

impl Scripted {
    fn new(integer: i32, times: Vec<u64>) -> Self {
        Self { integer, times, used: AtomicUsize::new(0) }
    }
}

impl Random for Scripted {
    fn uniform_int(&self, low: i32, high: i32) -> i32 {
        self.integer.max(low).min(high)
    }

    fn exponential(&self) -> u64 {
        let at = self.used.fetch_add(1, Ordering::Relaxed);
        self.times[at % self.times.len()]
    }
}

fn estimates(pairs: &[(u64, f64)]) -> ActionsEstimate {
    let mut estimates = ActionsEstimate::default();
    for (action, value) in pairs {
        estimates.insert(*action, fixed(*value));
    }
    estimates
}

fn true_max(estimates: &ActionsEstimate) -> Option<i64> {
    estimates.data().values().cloned().max()
}

fn true_min(estimates: &ActionsEstimate) -> Option<i64> {
    estimates.data().values().cloned().min()
}

#[test]
fn default_is_empty() {
    let estimates = ActionsEstimate::default();

    assert!(estimates.data().is_empty());
    assert_eq!(estimates.max_estimate(), None);
    assert_eq!(estimates.min_estimate(), None);
}

#[test]
fn insert_sets_and_overwrites() {
    let mut estimates = ActionsEstimate::default();

    estimates.insert(A, 5);
    estimates.insert(B, 7);
    estimates.insert(A, 6);

    assert_eq!(estimates.data().len(), 2);
    assert_eq!(estimates.data().get(&A), Some(&6));
    assert_eq!(estimates.data().get(&B), Some(&7));
}

#[test]
fn insert_tracks_extremes() {
    let mut estimates = ActionsEstimate::default();

    estimates.insert(A, 5);
    assert_eq!(estimates.max_estimate(), Some((A, 5)));
    assert_eq!(estimates.min_estimate(), Some((A, 5)));

    estimates.insert(B, 9);
    assert_eq!(estimates.max_estimate(), Some((B, 9)));
    assert_eq!(estimates.min_estimate(), Some((A, 5)));

    estimates.insert(C, -2);
    assert_eq!(estimates.max_estimate(), Some((B, 9)));
    assert_eq!(estimates.min_estimate(), Some((C, -2)));
}

#[test]
fn equal_estimate_takes_the_extreme_over() {
    let mut estimates = ActionsEstimate::default();

    estimates.insert(A, 5);
    estimates.insert(B, 5);

    assert_eq!(estimates.max_estimate(), Some((B, 5)));
    assert_eq!(estimates.min_estimate(), Some((B, 5)));
}

#[test]
fn overwritten_extremes_are_found_again() {
    let mut estimates = ActionsEstimate::default();
    estimates.insert(A, 10);
    estimates.insert(B, 5);
    estimates.insert(C, 1);

    estimates.insert(A, 3);
    assert_eq!(estimates.max_estimate(), Some((B, 5)));
    assert_eq!(estimates.min_estimate(), Some((C, 1)));

    estimates.insert(C, 4);
    assert_eq!(estimates.max_estimate(), Some((B, 5)));
    assert_eq!(estimates.min_estimate(), Some((A, 3)));
}

#[test]
fn extremes_match_the_data_after_every_insert() {
    let mut estimates = ActionsEstimate::default();
    let random = TestRandom::new(11);

    for _ in 0..2000 {
        let action = random.uniform_int(0, 12) as u64;
        let value = random.uniform_int(-50, 50) as i64;
        estimates.insert(action, value);

        assert_eq!(estimates.max_estimate().map(|(_, value)| value), true_max(&estimates));
        assert_eq!(estimates.min_estimate().map(|(_, value)| value), true_min(&estimates));
        let (top, top_value) = estimates.max_estimate().unwrap();
        let (bottom, bottom_value) = estimates.min_estimate().unwrap();
        assert_eq!(estimates.data().get(&top), Some(&top_value));
        assert_eq!(estimates.data().get(&bottom), Some(&bottom_value));
    }
}

#[test]
fn from_map_finds_extremes() {
    let mut map = HashMap::new();
    map.insert(A, 4);
    map.insert(B, -6);
    map.insert(C, 15);

    let estimates = ActionsEstimate::from(map.clone());

    assert_eq!(estimates.data(), &map);
    assert_eq!(estimates.max_estimate(), Some((C, 15)));
    assert_eq!(estimates.min_estimate(), Some((B, -6)));
}

#[test]
fn from_empty_map_has_no_extremes() {
    let estimates = ActionsEstimate::from(HashMap::new());

    assert_eq!(estimates.max_estimate(), None);
    assert_eq!(estimates.min_estimate(), None);
    assert_eq!(estimates.weighted(&TestRandom::new(1)), None);
}

#[test]
fn into_map_hands_the_data_out() {
    let estimates = estimates(&[(A, 1.5), (B, 2.5)]);

    let map: HashMap<u64, i64> = estimates.into();

    assert_eq!(map.len(), 2);
    assert_eq!(map.get(&A), Some(&fixed(1.5)));
    assert_eq!(map.get(&B), Some(&fixed(2.5)));
}

#[test]
fn clone_is_independent() {
    let mut source = estimates(&[(A, 1.), (B, 2.)]);

    let copy = source.clone();
    source.insert(C, fixed(3.));

    assert_eq!(copy.data().len(), 2);
    assert_eq!(copy.data().get(&A), Some(&fixed(1.)));
    assert_eq!(copy.max_estimate(), Some((B, fixed(2.))));
    assert_eq!(copy.min_estimate(), Some((A, fixed(1.))));
    assert_eq!(source.data().len(), 3);
}

#[test]
fn weighted_prefers_larger_estimates() {
    let estimates = estimates(&[(A, 10.), (B, 1.)]);

    let trials = 10_000;
    let chosen_a = (0..trials).filter(|trial| estimates.weighted(&TestRandom::new(*trial + 1)) == Some(A)).count();

    assert!(chosen_a > 7_000, "A was chosen {} times", chosen_a);
    assert!(chosen_a < 9_800, "A was chosen {} times", chosen_a);
}

#[test]
fn weighted_handles_negative_estimates() {
    let estimates = estimates(&[(A, -1.), (B, 2.)]);

    for seed in 0..500 {
        assert_eq!(estimates.weighted(&TestRandom::new(seed)), Some(B));
    }
}

#[test]
fn weighted_handles_zero_estimates() {
    let estimates = estimates(&[(A, 0.), (B, 0.)]);

    let mut seen = [0, 0];
    for seed in 0..500 {
        match estimates.weighted(&TestRandom::new(seed)) {
            Some(A) => seen[0] += 1,
            Some(B) => seen[1] += 1,
            other => panic!("unexpected choice {:?}", other),
        }
    }
    assert!(seen[0] > 100 && seen[1] > 100);
}

#[test]
fn weighted_handles_a_single_negative_estimate() {
    let estimates = estimates(&[(A, -3.)]);

    assert_eq!(estimates.weighted(&TestRandom::new(3)), Some(A));
}

#[test]
fn weighted_on_empty_estimates_is_none() {
    assert_eq!(ActionsEstimate::default().weighted(&TestRandom::new(1)), None);
}

#[test]
fn weighted_returns_the_winner_of_the_race() {
    // with equal draws the larger weight is faster
    let estimates = estimates(&[(A, 1.), (B, 4.), (C, 2.)]);

    assert_eq!(estimates.weighted(&Scripted::new(0, vec![1_000])), Some(B));
}

#[test]
fn random_picks_an_existing_action() {
    let estimates = estimates(&[(A, 10.), (B, 1.), (C, 0.)]);
    let random = TestRandom::new(9);

    let mut seen = [false; 4];
    for _ in 0..200 {
        let action = estimates.random(&random).unwrap();
        assert!(estimates.data().contains_key(&action));
        seen[action as usize] = true;
    }
    assert_eq!(seen, [false, true, true, true]);
}

#[test]
fn random_follows_the_draw() {
    let estimates = estimates(&[(A, 10.), (B, 1.), (C, 0.)]);
    let keys: Vec<u64> = estimates.data().keys().cloned().collect();

    for (index, key) in keys.iter().enumerate() {
        assert_eq!(estimates.random(&Scripted::new(index as i32, vec![1])), Some(*key));
    }
}

#[test]
fn random_on_empty_estimates_is_none() {
    assert_eq!(ActionsEstimate::default().random(&TestRandom::new(1)), None);
}

#[test]
fn selection_weight_shifts_by_the_least_estimate() {
    assert_eq!(selection_weight(fixed(2.), fixed(-1.)), 3_000_000);
    assert_eq!(selection_weight(fixed(-1.), fixed(-1.)), 0);
    assert_eq!(selection_weight(0, 0), ZERO_SHIFT);
    assert_eq!(ZERO_SHIFT, fixed(0.01) as u64);
    assert_eq!(selection_weight(fixed(5.), 0), 5_010_000);
    assert_eq!(selection_weight(fixed(5.), fixed(1.)), 5_000_000);
    assert_eq!(selection_weight(i64::MAX, i64::MIN), u64::MAX);
    assert_eq!(selection_weight(i64::MAX, 0), i64::MAX as u64 + ZERO_SHIFT);
}

fn contender(weight: u64, draw: u64) -> Contender {
    Contender { weight, draw }
}

#[test]
fn runs_ahead_compares_time_per_weight() {
    assert!(runs_ahead(&contender(5, 10), &contender(4, 10)));
    assert!(!runs_ahead(&contender(4, 10), &contender(5, 10)));
    assert!(runs_ahead(&contender(2, 3), &contender(2, 4)));
    assert!(!runs_ahead(&contender(4, 6), &contender(2, 3)));
    assert!(runs_ahead(&contender(u64::MAX, u64::MAX - 1), &contender(u64::MAX, u64::MAX)));
    assert!(runs_ahead(&contender(3, 0), &contender(3, 1)));
    assert!(!runs_ahead(&contender(3, 0), &contender(8, 0)));
}

#[test]
fn contender_without_weight_never_finishes() {
    assert!(!runs_ahead(&contender(0, 1), &contender(1, 1_000_000)));
    assert!(runs_ahead(&contender(1, 1_000_000), &contender(0, 1)));
    assert!(!runs_ahead(&contender(0, 5), &contender(0, 7)));
    assert!(!runs_ahead(&contender(0, 0), &contender(1, 0)));
    assert!(runs_ahead(&contender(1, 9), &contender(0, 0)));
}

#[test]
fn race_winner_is_the_first_to_finish() {
    let race = |pairs: &[(u64, u64)]| {
        race_winner(&pairs.iter().map(|(weight, draw)| contender(*weight, *draw)).collect())
    };

    assert_eq!(race(&[]), None);
    assert_eq!(race(&[(0, 9)]), Some(0));
    assert_eq!(race(&[(10, 50), (1, 4)]), Some(1));
    assert_eq!(race(&[(10, 50), (1, 6)]), Some(0));
    assert_eq!(race(&[(0, 1), (0, 1), (3, 900)]), Some(2));
    // ties go to the first
    assert_eq!(race(&[(2, 6), (4, 12), (1, 3)]), Some(0));
    assert_eq!(race(&[(0, 1), (0, 1)]), Some(0));
    assert_eq!(race(&[(0, 0), (7, 0), (9, 0)]), Some(1));
}

#[test]
fn pick_at_takes_the_key_at_the_draw() {
    let keys = vec![A, C, B];

    assert_eq!(pick_at(&keys, 0), Some(A));
    assert_eq!(pick_at(&keys, 1), Some(C));
    assert_eq!(pick_at(&keys, 2), Some(B));
    assert_eq!(pick_at(&keys, 3), None);
    assert_eq!(pick_at(&keys, -1), None);
    assert_eq!(pick_at(&vec![], 0), None);
}

#[test]
fn last_greatest_and_first_least_scan_in_order() {
    let entries = vec![(A, 3), (B, 9), (C, 9), (4, -1), (5, -1), (6, 0)];

    assert_eq!(last_greatest(&entries), Some((C, 9)));
    assert_eq!(first_least(&entries), Some((4, -1)));
    assert_eq!(last_greatest(&vec![]), None);
    assert_eq!(first_least(&vec![]), None);
    assert_eq!(last_greatest(&vec![(A, i64::MIN)]), Some((A, i64::MIN)));
}
