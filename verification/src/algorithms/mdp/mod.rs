//! A Markov Decision Process model: states, agents, strategies and the
//! per-state table of action estimates.
//!
//! Actions are named by 64-bit identifiers. Estimates, rewards and values
//! are fixed-point numbers, [`UNITS_PER_ONE`] units to one.

pub mod extremes;
pub mod race;
pub mod table;

use crate::algorithms::mdp::extremes::{
    first_least, first_least_at, is_greatest, is_least, last_greatest, last_greatest_at,
    lemma_empty_listing, lemma_greatest_after_insert, lemma_greatest_of_listing,
    lemma_least_after_insert, lemma_least_of_listing, lemma_no_extreme_is_empty,
};
use crate::algorithms::mdp::race::{race_winner, selection_weight, weight_of, wins_at, Contender};
use crate::algorithms::mdp::table::{
    lemma_listed_keys_count, lemma_listing_keys, lists_contents, lists_keys, table_contents,
    table_clone, table_default, table_entries, table_insert, table_keys, table_len,
};
use crate::utils::random::Random;
use hashbrown::HashMap;
use std::hash::Hash;
use vstd::prelude::*;
use vstd::std_specs::convert::{FromSpecImpl, IntoSpecImpl};

verus! {

/// How many fixed-point units make one.
pub const UNITS_PER_ONE: i64 = 1_000_000;

/// Represents a state in MDP.
pub trait State: Clone + Hash + Eq + Send + Sync {
    /// Returns reward to be in this state.
    fn reward(&self) -> i64;
}

/// Represents an agent in MDP.
pub trait Agent<S: State> {
    /// Returns the current state of the agent.
    fn get_state(&self) -> &S;

    /// Returns agent's actions for given state with their estimates. If no
    /// actions are associated, then the state is considered as terminal.
    fn get_actions(&self, state: &S) -> (actions: ActionsEstimate)
        ensures
            actions.wf(),
    ;

    /// Takes the action in the current agent's state. Potentially, changes
    /// agent state.
    fn take_action(&mut self, action: u64);
}

/// A learning strategy for the MDP.
pub trait LearningStrategy {
    /// Estimates an action value given received reward, current value, and
    /// actions values from the new state.
    fn value(&self, reward_value: i64, old_value: i64, estimates: &ActionsEstimate) -> i64
        requires
            estimates.wf(),
    ;
}

/// A policy strategy for MDP.
pub trait PolicyStrategy {
    /// Selects an action from the estimated actions: one of them, and
    /// nothing only where there is none.
    fn select(&self, estimates: &ActionsEstimate) -> (action: Option<u64>)
        requires
            estimates.wf(),
        ensures
            action is None ==> estimates@.len() == 0,
            action matches Some(chosen) ==> estimates@.contains_key(chosen),
    ;
}

/// Keeps track of action estimation.
pub struct ActionsEstimate {
    estimates: HashMap<u64, i64>,
    max_estimate: Option<(u64, i64)>,
    min_estimate: Option<(u64, i64)>,
}

impl View for ActionsEstimate {
    type V = Map<u64, i64>;

    /// The estimate of each action that has one.
    closed spec fn view(&self) -> Map<u64, i64> {
        table_contents(self.estimates)
    }
}

/// Whether `contenders` are the entries as they enter the race: each with
/// the weight of its estimate and with a draw of the random source.
pub open spec fn entered<R: Random>(
    random: R,
    entries: Seq<(u64, i64)>,
    least: i64,
    contenders: Seq<Contender>,
) -> bool {
    contenders.len() == entries.len() && forall|k: int|
        0 <= k < contenders.len() ==> (#[trigger] contenders[k]).weight == weight_of(
            entries[k].1,
            least,
        ) && call_ensures(R::exponential, (&random,), contenders[k].draw)
}

/// Whether `action` is the outcome of a race over `estimates`, listed as
/// `entries`, with one draw of the random source for each entry.
pub open spec fn raced<R: Random>(
    random: R,
    estimates: Map<u64, i64>,
    least: Option<(u64, i64)>,
    entries: Seq<(u64, i64)>,
    contenders: Seq<Contender>,
    action: Option<u64>,
) -> bool {
    &&& lists_contents(entries, estimates)
    &&& match action {
        Some(chosen) => least matches Some(bottom) && entered(random, entries, bottom.1, contenders)
            && exists|at: int| #[trigger] wins_at(contenders, at) && entries[at].0 == chosen,
        None => entries.len() == 0,
    }
}

/// The largest index that a draw over `count` actions may give.
pub open spec fn last_index(count: nat) -> i32 {
    if count > i32::MAX {
        i32::MAX
    } else {
        (count - 1) as i32
    }
}

/// The key at the position that was drawn, if there is one.
pub open spec fn key_at(keys: Seq<u64>, draw: i32) -> Option<u64> {
    if 0 <= draw < keys.len() {
        Some(keys[draw as int])
    } else {
        None
    }
}

/// Whether `action` is the key that a uniform draw of the random source
/// picks among `keys`.
pub open spec fn picked<R: Random>(random: R, keys: Seq<u64>, action: Option<u64>) -> bool {
    if keys.len() == 0 {
        action is None
    } else {
        exists|draw: i32| #[trigger]
            call_ensures(R::uniform_int, (&random, 0i32, last_index(keys.len())), draw) && action
                == key_at(keys, draw)
    }
}

/// The key at the position that was drawn; nothing where the draw is no
/// position of a key.
pub fn pick_at(keys: &Vec<u64>, draw: i32) -> (action: Option<u64>)
    ensures
        action == key_at(keys@, draw),
{
    if draw >= 0 && (draw as usize) < keys.len() {
        Some(keys[draw as usize])
    } else {
        None
    }
}

impl ActionsEstimate {
    /// The greatest entry that is kept at hand.
    pub closed spec fn greatest(&self) -> Option<(u64, i64)> {
        self.max_estimate
    }

    /// The least entry that is kept at hand.
    pub closed spec fn least(&self) -> Option<(u64, i64)> {
        self.min_estimate
    }

    /// Whether the entries kept at hand are a greatest and a least entry of
    /// the estimates.
    pub open spec fn wf(&self) -> bool {
        &&& self@.dom().finite()
        &&& is_greatest(self@, self.greatest())
        &&& is_least(self@, self.least())
    }

    /// Sets estimate for given action.
    ///
    /// An estimate that is not below the greatest becomes the greatest, one
    /// that is not above the least becomes the least. Where the action that
    /// held the greatest or the least gets an estimate that no longer is,
    /// the estimates are searched for the one that is now.
    pub fn insert(&mut self, action: u64, estimate: i64)
        requires
            old(self).wf(),
        ensures
            final(self).wf(),
            final(self)@ == old(self)@.insert(action, estimate),
            match old(self).greatest() {
                Some(top) => if estimate >= top.1 {
                    final(self).greatest() == Some((action, estimate))
                } else {
                    top.0 != action ==> final(self).greatest() == Some(top)
                },
                None => final(self).greatest() == Some((action, estimate)),
            },
            match old(self).least() {
                Some(bottom) => if estimate <= bottom.1 {
                    final(self).least() == Some((action, estimate))
                } else {
                    bottom.0 != action ==> final(self).least() == Some(bottom)
                },
                None => final(self).least() == Some((action, estimate)),
            },
    {
        table_insert(&mut self.estimates, action, estimate);
        proof {
            lemma_greatest_after_insert(old(self)@, old(self).greatest(), action, estimate);
            lemma_least_after_insert(old(self)@, old(self).least(), action, estimate);
        }

        match self.max_estimate {
            Some((top, value)) if estimate < value => {
                if top == action {
                    let entries = table_entries(&self.estimates);
                    self.max_estimate = last_greatest(&entries);
                    proof {
                        let at = choose|at: int| #[trigger]
                            last_greatest_at(entries@, at) && entries@[at]
                                == self.max_estimate->0;
                        lemma_greatest_of_listing(entries@, self@, at);
                    }
                }
            },
            _ => {
                self.max_estimate = Some((action, estimate));
            },
        }

        match self.min_estimate {
            Some((bottom, value)) if estimate > value => {
                if bottom == action {
                    let entries = table_entries(&self.estimates);
                    self.min_estimate = first_least(&entries);
                    proof {
                        let at = choose|at: int| #[trigger]
                            first_least_at(entries@, at) && entries@[at] == self.min_estimate->0;
                        lemma_least_of_listing(entries@, self@, at);
                    }
                }
            },
            _ => {
                self.min_estimate = Some((action, estimate));
            },
        }
    }

    /// Returns an action based on its estimate interpreted as weight.
    ///
    /// Every action draws an exponential time from the random source and
    /// is given a weight: its estimate, shifted so that the least estimate
    /// is not below zero. The action with the least time per weight is
    /// returned. Estimates that were negative are only shifted; the choice
    /// is proportional to the weights, not to the estimates.
    pub fn weighted<R: Random + Send + Sync>(&self, random: &R) -> (action: Option<u64>)
        requires
            self.wf(),
        ensures
            action is None <==> self@.len() == 0,
            action matches Some(chosen) ==> self@.contains_key(chosen),
            exists|entries: Seq<(u64, i64)>, contenders: Seq<Contender>| #[trigger]
                raced(*random, self@, self.least(), entries, contenders, action),
    {
        let entries = table_entries(&self.estimates);
        proof {
            lemma_listing_keys(entries@, self@);
            lemma_listed_keys_count(entries@.map_values(|entry: (u64, i64)| entry.0), self@);
        }
        let least = match self.min_estimate {
            Some((_, value)) => value,
            None => {
                assert(entries@.len() == 0) by {
                    if entries@.len() > 0 {
                        assert(self@.contains_pair(entries@[0].0, entries@[0].1));
                    }
                }
                assert(raced(*random, self@, self.least(), entries@, Seq::empty(), None));
                return None;
            },
        };
        let mut contenders: Vec<Contender> = Vec::new();
        let mut next: usize = 0;
        while next < entries.len()
            invariant
                next <= entries.len(),
                lists_contents(entries@, self@),
                self.least() matches Some(bottom) && bottom.1 == least,
                is_least(self@, self.least()),
                entered(*random, entries@.take(next as int), least, contenders@),
            decreases entries.len() - next,
        {
            let entry = entries[next];
            contenders.push(
                Contender { weight: selection_weight(entry.1, least), draw: random.exponential() },
            );
            next += 1;
        }
        match race_winner(&contenders) {
            Some(at) => {
                let chosen = entries[at].0;
                proof {
                    assert(raced(
                        *random,
                        self@,
                        self.least(),
                        entries@,
                        contenders@,
                        Some(chosen),
                    ));
                }
                Some(chosen)
            },
            None => None,
        }
    }

    /// Gets random action: each action that has an estimate is equally
    /// likely, whatever the estimate.
    pub fn random<R: Random + Send + Sync>(&self, random: &R) -> (action: Option<u64>)
        requires
            self.wf(),
        ensures
            action is None <==> self@.len() == 0,
            action matches Some(chosen) ==> self@.contains_key(chosen),
            exists|keys: Seq<u64>| #[trigger] lists_keys(keys, self@) && picked(*random, keys, action),
    {
        let count = table_len(&self.estimates);
        let keys = table_keys(&self.estimates);
        proof {
            lemma_listed_keys_count(keys@, self@);
        }
        if count == 0 {
            return None;
        }
        let high: i32 = if count > i32::MAX as usize {
            i32::MAX
        } else {
            (count - 1) as i32
        };
        pick_at(&keys, random.uniform_int(0, high))
    }

    /// Returns a max estimate: an action with its estimate, such that no
    /// action has a greater one; nothing where no action has an estimate.
    pub fn max_estimate(&self) -> (found: Option<(u64, i64)>)
        requires
            self.wf(),
        ensures
            found == self.greatest(),
            is_greatest(self@, found),
            found is None <==> self@.len() == 0,
    {
        proof {
            lemma_no_extreme_is_empty(self@, self.max_estimate);
        }
        self.max_estimate
    }

    /// Returns a min estimate: an action with its estimate, such that no
    /// action has a lesser one; nothing where no action has an estimate.
    pub fn min_estimate(&self) -> (found: Option<(u64, i64)>)
        requires
            self.wf(),
        ensures
            found == self.least(),
            is_least(self@, found),
            found is None <==> self@.len() == 0,
    {
        proof {
            lemma_no_extreme_is_empty(self@, self.min_estimate);
        }
        self.min_estimate
    }

    /// Returns actual estimation data.
    pub fn data(&self) -> (table: &HashMap<u64, i64>)
        ensures
            table_contents(*table) == self@,
    {
        &self.estimates
    }
}

impl Clone for ActionsEstimate {
    fn clone(&self) -> (copy: Self)
        ensures
            copy@ == self@,
            copy.greatest() == self.greatest(),
            copy.least() == self.least(),
            self.wf() ==> copy.wf(),
    {
        Self {
            estimates: table_clone(&self.estimates),
            max_estimate: self.max_estimate,
            min_estimate: self.min_estimate,
        }
    }
}

impl Default for ActionsEstimate {
    fn default() -> (fresh: Self)
        ensures
            fresh.wf(),
            fresh@ == (Map::<u64, i64>::empty()),
            fresh.greatest() is None,
            fresh.least() is None,
    {
        Self { estimates: table_default(), max_estimate: None, min_estimate: None }
    }
}

impl From<HashMap<u64, i64>> for ActionsEstimate {
    /// Takes the estimates over, and finds their greatest and their least
    /// entry in one listing of the table.
    fn from(map: HashMap<u64, i64>) -> (estimates: Self)
        ensures
            estimates.wf(),
            estimates@ == table_contents(map),
    {
        let entries = table_entries(&map);
        let max_estimate = last_greatest(&entries);
        let min_estimate = first_least(&entries);
        proof {
            let contents = table_contents(map);
            lemma_listing_keys(entries@, contents);
            lemma_listed_keys_count(entries@.map_values(|entry: (u64, i64)| entry.0), contents);
            if entries@.len() == 0 {
                lemma_empty_listing(entries@, contents);
            } else {
                let top = choose|at: int| #[trigger]
                    last_greatest_at(entries@, at) && entries@[at] == max_estimate->0;
                lemma_greatest_of_listing(entries@, contents, top);
                let bottom = choose|at: int| #[trigger]
                    first_least_at(entries@, at) && entries@[at] == min_estimate->0;
                lemma_least_of_listing(entries@, contents, bottom);
            }
        }
        Self { estimates: map, max_estimate, min_estimate }
    }
}

impl Into<HashMap<u64, i64>> for ActionsEstimate {
    /// Hands the estimates out.
    fn into(self) -> (table: HashMap<u64, i64>)
        ensures
            table_contents(table) == self@,
    {
        self.estimates
    }
}

impl IntoSpecImpl<HashMap<u64, i64>> for ActionsEstimate {
    open spec fn obeys_into_spec() -> bool {
        true
    }

    closed spec fn into_spec(self) -> HashMap<u64, i64> {
        self.estimates
    }
}

impl FromSpecImpl<HashMap<u64, i64>> for ActionsEstimate {
    /// Which of several equal estimates is kept at hand depends on the
    /// order in which the table lists them, so the result is no function of
    /// the contents.
    open spec fn obeys_from_spec() -> bool {
        false
    }

    open spec fn from_spec(map: HashMap<u64, i64>) -> Self {
        arbitrary()
    }
}

} // verus!
