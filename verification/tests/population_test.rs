use std::sync::Arc;
use vrp_core::solver::population::{DominancePopulation, Objective};
use vrp_core::solver::ranking::Placement;

const UNITS: f64 = 1_000_000.;

/// A candidate solution: one value per objective, lower is better.
#[derive(Clone, Debug, PartialEq)]
struct Point(Vec<f64>);

fn point(a: f64, b: f64) -> Point {
    Point(vec![a, b])
}

fn dominates(a: &Point, b: &Point) -> bool {
    a.0.iter().zip(b.0.iter()).all(|(x, y)| x <= y) && a.0.iter().zip(b.0.iter()).any(|(x, y)| x < y)
}

fn to_fixed(value: f64) -> i64 {
    if value.is_infinite() {
        i64::MAX
    } else {
        (value * UNITS).round() as i64
    }
}

/// Non-dominated sorting with crowding distance, best first.
struct Pareto;

impl Pareto {
    fn fronts(individuals: &[Point]) -> Vec<Vec<usize>> {
        let mut left: Vec<usize> = (0..individuals.len()).collect();
        let mut fronts = vec![];
        while !left.is_empty() {
            let front: Vec<usize> = left
                .iter()
                .cloned()
                .filter(|&i| !left.iter().any(|&j| dominates(&individuals[j], &individuals[i])))
                .collect();
            left.retain(|i| !front.contains(i));
            fronts.push(front);
        }
        fronts
    }

    fn crowding(individuals: &[Point], front: &[usize]) -> Vec<f64> {
        let mut distance = vec![0.; front.len()];
        let objectives = individuals[front[0]].0.len();
        for objective in 0..objectives {
            let mut order: Vec<usize> = (0..front.len()).collect();
            order.sort_by(|&a, &b| {
                individuals[front[a]].0[objective].partial_cmp(&individuals[front[b]].0[objective]).unwrap()
            });
            let low = individuals[front[order[0]]].0[objective];
            let high = individuals[front[order[order.len() - 1]]].0[objective];
            distance[order[0]] = f64::INFINITY;
            distance[order[order.len() - 1]] = f64::INFINITY;
            for at in 1..order.len().saturating_sub(1) {
                let before = individuals[front[order[at - 1]]].0[objective];
                let after = individuals[front[order[at + 1]]].0[objective];
                if high > low {
                    distance[order[at]] += (after - before) / (high - low);
                }
            }
        }
        distance
    }
}

impl Objective<Point> for Pareto {
    fn select_and_rank(&self, individuals: &Vec<Point>) -> Vec<Placement> {
        let mut placements = vec![];
        for (rank, front) in Pareto::fronts(individuals).iter().enumerate() {
            let distance = Pareto::crowding(individuals, front);
            let mut order: Vec<usize> = (0..front.len()).collect();
            order.sort_by(|&a, &b| distance[b].partial_cmp(&distance[a]).unwrap());
            for at in order {
                placements.push(Placement {
                    index: front[at],
                    rank,
                    crowding_distance: to_fixed(distance[at]),
                });
            }
        }
        placements
    }

    fn fitness(&self, individual: &Point) -> i64 {
        to_fixed(individual.0[0])
    }
}

/// A ranking routine that answers with whatever it was made with.
struct Fixed(Vec<Placement>);

impl Objective<u32> for Fixed {
    fn select_and_rank(&self, _: &Vec<u32>) -> Vec<Placement> {
        self.0.clone()
    }

    fn fitness(&self, individual: &u32) -> i64 {
        *individual as i64
    }
}

fn placement(index: usize, rank: usize, crowding_distance: i64) -> Placement {
    Placement { index, rank, crowding_distance }
}

fn snapshot<I: Clone, O: Objective<I>>(population: &DominancePopulation<I, O>) -> Vec<(I, usize)> {
    population.ranked().into_iter().map(|(individual, rank)| (individual.clone(), rank)).collect()
}

#[test]
fn population_starts_empty() {
    let population: DominancePopulation<Point, Pareto> = DominancePopulation::new(Arc::new(Pareto), 3);

    assert_eq!(population.size(), 0);
    assert!(population.ranked().is_empty());
}

#[test]
fn single_front_keeps_extremes_and_one_interior_point() {
    let mut population = DominancePopulation::new(Arc::new(Pareto), 3);

    for (a, b) in [(1., 5.), (2., 4.), (3., 3.), (4., 2.), (5., 1.)] {
        population.add(point(a, b));
    }

    let ranked = snapshot(&population);
    assert_eq!(population.size(), 3);
    assert_eq!(ranked.len(), 3);
    assert!(ranked.iter().all(|(_, rank)| *rank == 0));
    assert!(ranked.iter().any(|(individual, _)| *individual == point(1., 5.)));
    assert!(ranked.iter().any(|(individual, _)| *individual == point(5., 1.)));
    let interior = [point(2., 4.), point(3., 3.), point(4., 2.)];
    assert_eq!(ranked.iter().filter(|(individual, _)| interior.contains(individual)).count(), 1);
}

#[test]
fn dominating_individual_comes_first() {
    let mut population = DominancePopulation::new(Arc::new(Pareto), 2);

    population.add(point(1., 1.));
    population.add(point(2., 2.));
    assert_eq!(snapshot(&population), vec![(point(1., 1.), 0), (point(2., 2.), 1)]);

    population.add(point(0., 0.));

    assert_eq!(snapshot(&population), vec![(point(0., 0.), 0), (point(1., 1.), 1)]);
}

#[test]
fn identical_individuals_collapse() {
    let mut population = DominancePopulation::new(Arc::new(Pareto), 2);

    population.add(point(3., 7.));
    assert_eq!(population.size(), 1);
    population.add(point(3., 7.));

    assert_eq!(population.size(), 1);
    assert_eq!(snapshot(&population), vec![(point(3., 7.), 0)]);
}

#[test]
fn size_never_exceeds_capacity() {
    for capacity in 1..6 {
        let mut population = DominancePopulation::new(Arc::new(Pareto), capacity);
        let mut seed: u64 = 17;
        for step in 0..40 {
            seed = seed.wrapping_mul(6364136223846793005).wrapping_add(1442695040888963407);
            let a = ((seed >> 33) % 20) as f64;
            let b = ((seed >> 13) % 20) as f64;
            if step % 3 == 0 {
                population.add_all(vec![point(a, b), point(b, a), point(a + 1., b)]);
            } else {
                population.add(point(a, b));
            }
            assert!(population.size() <= capacity);
            assert_eq!(population.ranked().len(), population.size());
        }
    }
}

#[test]
fn ranks_never_decrease_along_the_population() {
    let mut population = DominancePopulation::new(Arc::new(Pareto), 8);
    let mut seed: u64 = 5;
    for _ in 0..60 {
        seed = seed.wrapping_mul(6364136223846793005).wrapping_add(1442695040888963407);
        population.add(point(((seed >> 33) % 9) as f64, ((seed >> 13) % 9) as f64));

        let ranks: Vec<usize> = population.ranked().into_iter().map(|(_, rank)| rank).collect();
        assert!(ranks.windows(2).all(|pair| pair[0] <= pair[1]));
        assert_eq!(ranks.first(), Some(&0));
    }
}

#[test]
fn add_all_applies_the_bound_once_at_the_end() {
    let incoming = vec![point(2., 2.), point(1., 3.), point(3., 1.)];

    // together, (2, 2) lies between the other two and goes last
    let mut together = DominancePopulation::new(Arc::new(Pareto), 1);
    together.add_all(incoming.clone());
    assert_eq!(snapshot(&together), vec![(point(1., 3.), 0)]);

    // one by one, the bound has cut the population down before the next arrives
    let mut single = DominancePopulation::new(Arc::new(Pareto), 1);
    for individual in incoming {
        single.add(individual);
    }
    assert_eq!(snapshot(&single), vec![(point(2., 2.), 0)]);
}

#[test]
fn add_all_of_one_is_add() {
    let mut together = DominancePopulation::new(Arc::new(Pareto), 2);
    let mut single = DominancePopulation::new(Arc::new(Pareto), 2);
    for (a, b) in [(5., 5.), (4., 6.), (6., 4.), (1., 1.)] {
        together.add_all(vec![point(a, b)]);
        single.add(point(a, b));

        assert_eq!(snapshot(&together), snapshot(&single));
    }
    assert_eq!(snapshot(&together), vec![(point(1., 1.), 0), (point(4., 6.), 1)]);
}

#[test]
fn add_all_of_nothing_changes_nothing() {
    let mut population = DominancePopulation::new(Arc::new(Pareto), 2);
    population.add(point(1., 2.));

    population.add_all(vec![]);

    assert_eq!(snapshot(&population), vec![(point(1., 2.), 0)]);
}

#[test]
fn empty_ranking_drops_the_insertion() {
    let mut population = DominancePopulation::new(Arc::new(Fixed(vec![])), 4);

    population.add(7);
    population.add_all(vec![8, 9]);

    assert_eq!(population.size(), 0);
}

#[test]
fn ranking_that_names_no_candidate_drops_the_insertion() {
    let mut population = DominancePopulation::new(Arc::new(Fixed(vec![placement(0, 0, 5), placement(1, 0, 4)])), 4);

    population.add(7);

    assert_eq!(population.size(), 0);
}

#[test]
fn unsorted_ranking_is_put_in_order() {
    let ranking = vec![placement(0, 2, 10), placement(0, 0, 1), placement(0, 1, 3), placement(0, 0, 9)];
    let mut population = DominancePopulation::new(Arc::new(Fixed(ranking)), 3);

    population.add(42);

    assert_eq!(snapshot(&population), vec![(42, 0), (42, 0), (42, 1)]);
}

#[test]
fn repeats_are_dropped_whatever_their_rank() {
    let ranking = vec![placement(0, 0, 4), placement(0, 1, 4), placement(0, 2, 3)];
    let mut population = DominancePopulation::new(Arc::new(Fixed(ranking)), 3);

    population.add(42);

    assert_eq!(snapshot(&population), vec![(42, 0), (42, 2)]);
}

#[test]
fn population_holds_copies_of_its_individuals() {
    let mut population = DominancePopulation::new(Arc::new(Pareto), 2);
    let first = point(1., 2.);

    population.add(first.clone());
    population.add(point(2., 1.));

    let ranked = snapshot(&population);
    assert_eq!(ranked.len(), 2);
    assert!(ranked.iter().any(|(individual, _)| *individual == first));
}
