//! A bounded population of candidate solutions, ranked anew on each
//! insertion.

use crate::solver::ranking::{
    by_priority, drop_repeats, in_priority_order, lemma_by_priority,
    lemma_by_priority_keeps_order, lemma_equal_standing_collapses, lemma_ordered_ranks_ascend,
    lemma_without_repeats, order_by_priority, ranks_ascend, ranks_of, same_standing,
    without_repeats, Entry, Placement,
};
use std::sync::Arc;
use vstd::prelude::*;

verus! {

/// What a population asks of the problem it serves: a ranking of candidate
/// solutions and the fitness of each.
///
/// The population takes nothing for granted about an implementation: it
/// checks the placements before it uses them.
pub trait Objective<I> {
    /// Ranks the individuals by Pareto dominance and scores each within its
    /// front by crowding distance. A placement names an individual by its
    /// position in `individuals`.
    fn select_and_rank(&self, individuals: &Vec<I>) -> Vec<Placement>;

    /// The scalar fitness of an individual, in fixed-point units.
    fn fitness(&self, individual: &I) -> i64;
}

/// A population as contracts see it.
pub struct PopulationView<I> {
    /// The individuals, best first.
    pub individuals: Seq<I>,
    /// The Pareto rank of each individual, index-aligned.
    pub ranks: Seq<usize>,
    /// The largest number of individuals the population keeps.
    pub capacity: usize,
}

/// Whether the placements can be applied to `count` candidates: there is at
/// least one, and each names a candidate.
pub open spec fn usable(placements: Seq<Placement>, count: nat) -> bool {
    placements.len() > 0 && forall|k: int|
        0 <= k < placements.len() ==> (#[trigger] placements[k]).index < count
}

/// Whether `placements` is an answer of the objective's ranking routine for
/// these candidates.
pub open spec fn ranked_as<I, O: Objective<I>>(
    objective: O,
    candidates: Seq<I>,
    placements: Seq<Placement>,
) -> bool {
    exists|handed: Vec<I>, answer: Vec<Placement>|
        handed@ == candidates && answer@ == placements && #[trigger] call_ensures(
            O::select_and_rank,
            (&objective, &handed),
            answer,
        )
}

/// Whether `entries` are the placements, each with a fitness that the
/// objective gives for the candidate it names.
pub open spec fn scored_as<I, O: Objective<I>>(
    objective: O,
    candidates: Seq<I>,
    placements: Seq<Placement>,
    entries: Seq<Entry>,
) -> bool {
    entries.len() == placements.len() && forall|k: int|
        0 <= k < entries.len() ==> {
            let entry = #[trigger] entries[k];
            let placement = placements[k];
            &&& entry.rank == placement.rank
            &&& entry.index == placement.index
            &&& entry.crowding_distance == placement.crowding_distance
            &&& call_ensures(
                O::fitness,
                (&objective, &candidates[placement.index as int]),
                entry.fitness,
            )
        }
}

/// Whether `copies` holds, for each chosen entry in turn, a copy of the
/// candidate that the entry names.
pub open spec fn copies_of<I: Clone>(candidates: Seq<I>, chosen: Seq<Entry>, copies: Seq<I>) -> bool {
    copies.len() == chosen.len() && forall|k: int|
        0 <= k < chosen.len() ==> cloned(
            candidates[(#[trigger] chosen[k]).index as int],
            #[trigger] copies[k],
        )
}

/// Whether `after` is what becomes of `before` once the candidates have
/// been ranked as `placements` and scored as `entries`.
///
/// Usable placements replace the population: the entries are put in
/// priority order, repeats are dropped, and each entry that stays
/// contributes its rank and a copy of its candidate. Placements that are
/// not usable leave the population as it was.
pub open spec fn reranked<I: Clone, O: Objective<I>>(
    objective: O,
    before: PopulationView<I>,
    candidates: Seq<I>,
    placements: Seq<Placement>,
    entries: Seq<Entry>,
    after: PopulationView<I>,
) -> bool {
    &&& ranked_as(objective, candidates, placements)
    &&& if usable(placements, candidates.len()) {
        let chosen = without_repeats(by_priority(entries));
        &&& scored_as(objective, candidates, placements, entries)
        &&& after.ranks == ranks_of(chosen)
        &&& copies_of(candidates, chosen, after.individuals)
    } else {
        after.individuals == before.individuals && after.ranks == before.ranks
    }
}

/// Whether `after` is `before` with `individual` inserted and everything
/// ranked anew, the size bound not yet applied.
pub open spec fn inserted<I: Clone, O: Objective<I>>(
    objective: O,
    before: PopulationView<I>,
    individual: I,
    after: PopulationView<I>,
) -> bool {
    &&& after.capacity == before.capacity
    &&& exists|placements: Seq<Placement>, entries: Seq<Entry>| #[trigger]
        reranked(
            objective,
            before,
            before.individuals.push(individual),
            placements,
            entries,
            after,
        )
}

/// Whether `after` is `before` with the incoming individuals inserted one
/// after the other, the size bound not yet applied.
pub open spec fn inserted_all<I: Clone, O: Objective<I>>(
    objective: O,
    before: PopulationView<I>,
    incoming: Seq<I>,
    after: PopulationView<I>,
) -> bool
    decreases incoming.len(),
{
    if incoming.len() == 0 {
        after == before
    } else {
        exists|between: PopulationView<I>|
            inserted_all(objective, before, incoming.drop_last(), between) && #[trigger] inserted(
                objective,
                between,
                incoming.last(),
                after,
            )
    }
}

/// The population cut down to its capacity: the first `capacity`
/// individuals with their ranks, or all of them if they are fewer.
pub open spec fn bounded<I>(view: PopulationView<I>) -> PopulationView<I> {
    if view.individuals.len() > view.capacity {
        PopulationView {
            individuals: view.individuals.take(view.capacity as int),
            ranks: view.ranks.take(view.capacity as int),
            capacity: view.capacity,
        }
    } else {
        view
    }
}

/// After an insertion the ranks never decrease along the population, and
/// each individual has its rank.
pub proof fn lemma_insertion_keeps_order<I: Clone, O: Objective<I>>(
    objective: O,
    before: PopulationView<I>,
    individual: I,
    after: PopulationView<I>,
)
    requires
        inserted(objective, before, individual, after),
        ranks_ascend(before.ranks),
        before.ranks.len() == before.individuals.len(),
    ensures
        ranks_ascend(after.ranks),
        after.ranks.len() == after.individuals.len(),
{
    let candidates = before.individuals.push(individual);
    let (placements, entries) = choose|placements: Seq<Placement>, entries: Seq<Entry>| #[trigger]
        reranked(objective, before, candidates, placements, entries, after);
    if usable(placements, candidates.len()) {
        lemma_by_priority(entries);
        lemma_without_repeats(by_priority(entries));
        lemma_ordered_ranks_ascend(without_repeats(by_priority(entries)));
    }
}

/// After any number of insertions the ranks never decrease along the
/// population, and each individual has its rank.
pub proof fn lemma_insertions_keep_order<I: Clone, O: Objective<I>>(
    objective: O,
    before: PopulationView<I>,
    incoming: Seq<I>,
    after: PopulationView<I>,
)
    requires
        inserted_all(objective, before, incoming, after),
        ranks_ascend(before.ranks),
        before.ranks.len() == before.individuals.len(),
    ensures
        ranks_ascend(after.ranks),
        after.ranks.len() == after.individuals.len(),
        after.capacity == before.capacity,
    decreases incoming.len(),
{
    if incoming.len() > 0 {
        let between = choose|between: PopulationView<I>|
            inserted_all(objective, before, incoming.drop_last(), between) && #[trigger] inserted(
                objective,
                between,
                incoming.last(),
                after,
            );
        lemma_insertions_keep_order(objective, before, incoming.drop_last(), between);
        lemma_insertion_keeps_order(objective, between, incoming.last(), after);
    }
}

/// Candidates that the ranking puts on the same standing, each and all,
/// leave one individual. So it is with an individual that is inserted a
/// second time into a population that holds nothing else, when the ranking
/// gives both the same crowding distance.
pub proof fn lemma_same_standing_leaves_one<I: Clone, O: Objective<I>>(
    objective: O,
    before: PopulationView<I>,
    candidates: Seq<I>,
    placements: Seq<Placement>,
    entries: Seq<Entry>,
    after: PopulationView<I>,
)
    requires
        reranked(objective, before, candidates, placements, entries, after),
        usable(placements, candidates.len()),
        forall|i: int, j: int|
            0 <= i < entries.len() && 0 <= j < entries.len() ==> same_standing(
                #[trigger] entries[i],
                #[trigger] entries[j],
            ),
    ensures
        after.individuals.len() == 1,
        after.ranks.len() == 1,
{
    broadcast use vstd::seq_lib::group_to_multiset_ensures;

    let ordered = by_priority(entries);
    lemma_by_priority(entries);
    assert forall|i: int, j: int|
        0 <= i < ordered.len() && 0 <= j < ordered.len() implies same_standing(
        #[trigger] ordered[i],
        #[trigger] ordered[j],
    ) by {
        assert(entries.to_multiset().count(ordered[i]) > 0);
        assert(entries.to_multiset().count(ordered[j]) > 0);
        let from_i = choose|k: int| 0 <= k < entries.len() && entries[k] == ordered[i];
        let from_j = choose|k: int| 0 <= k < entries.len() && entries[k] == ordered[j];
        assert(same_standing(entries[from_i], entries[from_j]));
    }
    lemma_equal_standing_collapses(ordered);
}

/// A ranking that comes in priority order and without repeats is taken as
/// it is: each entry contributes its rank and a copy of its candidate, in
/// the order of the ranking.
pub proof fn lemma_ordered_ranking_is_kept<I: Clone, O: Objective<I>>(
    objective: O,
    before: PopulationView<I>,
    candidates: Seq<I>,
    placements: Seq<Placement>,
    entries: Seq<Entry>,
    after: PopulationView<I>,
)
    requires
        reranked(objective, before, candidates, placements, entries, after),
        usable(placements, candidates.len()),
        in_priority_order(entries),
        without_repeats(entries) == entries,
    ensures
        after.ranks == ranks_of(entries),
        copies_of(candidates, entries, after.individuals),
{
    lemma_by_priority_keeps_order(entries);
}

/// Inserting a sequence of one individual is inserting that individual.
pub proof fn lemma_inserted_all_of_one<I: Clone, O: Objective<I>>(
    objective: O,
    before: PopulationView<I>,
    individual: I,
    after: PopulationView<I>,
)
    ensures
        inserted_all(objective, before, seq![individual], after) <==> inserted(
            objective,
            before,
            individual,
            after,
        ),
{
    let incoming = seq![individual];
    assert(incoming.last() == individual);
    reveal_with_fuel(inserted_all, 2);
}

/// What the size bound leaves is within the capacity, and keeps ranks that
/// never decrease so.
pub proof fn lemma_bounded_is_within_capacity<I>(view: PopulationView<I>)
    requires
        view.ranks.len() == view.individuals.len(),
    ensures
        bounded(view).individuals.len() <= view.capacity,
        bounded(view).ranks.len() == bounded(view).individuals.len(),
        ranks_ascend(view.ranks) ==> ranks_ascend(bounded(view).ranks),
{
}

/// A population that keeps its individuals sorted by Pareto rank and, within
/// a rank, by crowding distance, and never holds more than a fixed number
/// of them.
pub struct DominancePopulation<I, O: Objective<I>> {
    objective: Arc<O>,
    max_population_size: usize,
    individuals: Vec<I>,
    ranks: Vec<usize>,
}

impl<I, O: Objective<I>> View for DominancePopulation<I, O> {
    type V = PopulationView<I>;

    closed spec fn view(&self) -> PopulationView<I> {
        PopulationView {
            individuals: self.individuals@,
            ranks: self.ranks@,
            capacity: self.max_population_size,
        }
    }
}

impl<I: Clone, O: Objective<I>> DominancePopulation<I, O> {
    /// The objective that ranks this population.
    pub closed spec fn objective(&self) -> O {
        *self.objective
    }

    /// Whether each individual has its rank, the ranks never decrease, and
    /// the capacity is positive.
    pub open spec fn aligned(&self) -> bool {
        &&& self@.capacity > 0
        &&& self@.ranks.len() == self@.individuals.len()
        &&& ranks_ascend(self@.ranks)
    }

    /// Whether the population is aligned and within its capacity.
    pub open spec fn wf(&self) -> bool {
        self.aligned() && self@.individuals.len() <= self@.capacity
    }

    /// Creates an empty population that keeps at most `max_population_size`
    /// individuals.
    pub fn new(objective: Arc<O>, max_population_size: usize) -> (population: Self)
        requires
            max_population_size > 0,
        ensures
            population.wf(),
            population.objective() == *objective,
            population@.capacity == max_population_size,
            population@.individuals.len() == 0,
    {
        Self { objective, max_population_size, individuals: Vec::new(), ranks: Vec::new() }
    }

    /// Inserts the individuals one after the other, then applies the size
    /// bound once.
    pub fn add_all(&mut self, individuals: Vec<I>)
        requires
            old(self).wf(),
        ensures
            final(self).wf(),
            final(self).objective() == old(self).objective(),
            exists|grown: PopulationView<I>|
                #[trigger] inserted_all(old(self).objective(), old(self)@, individuals@, grown)
                    && final(self)@ == bounded(grown),
    {
        let ghost start = self@;
        let ghost incoming = individuals@;
        for individual in it: individuals
            invariant
                it.seq() == incoming,
                self.aligned(),
                self.objective() == old(self).objective(),
                inserted_all(old(self).objective(), start, incoming.take(it.index() as int), self@),
        {
            let ghost between = self@;
            self.add_individual(individual);
            proof {
                let upto = incoming.take(it.index() + 1);
                assert(upto.drop_last() =~= incoming.take(it.index() as int));
                assert(inserted(old(self).objective(), between, upto.last(), self@));
            }
        }
        assert(incoming.take(incoming.len() as int) =~= incoming);
        self.ensure_max_population_size();
    }

    /// Inserts one individual, then applies the size bound.
    pub fn add(&mut self, individual: I)
        requires
            old(self).wf(),
        ensures
            final(self).wf(),
            final(self).objective() == old(self).objective(),
            exists|grown: PopulationView<I>|
                #[trigger] inserted(old(self).objective(), old(self)@, individual, grown)
                    && final(self)@ == bounded(grown),
    {
        self.add_individual(individual);
        self.ensure_max_population_size();
    }

    /// The individuals with their ranks, best first: the ranks never
    /// decrease along the result.
    pub fn ranked(&self) -> (pairs: Vec<(&I, usize)>)
        requires
            self.wf(),
        ensures
            pairs@.len() == self@.individuals.len(),
            forall|k: int|
                0 <= k < pairs@.len() ==> *(#[trigger] pairs@[k]).0 == self@.individuals[k]
                    && pairs@[k].1 == self@.ranks[k],
            forall|i: int, j: int|
                0 <= i < j < pairs@.len() ==> (#[trigger] pairs@[i]).1 <= (#[trigger] pairs@[j]).1,
    {
        let mut pairs: Vec<(&I, usize)> = Vec::new();
        let mut next: usize = 0;
        while next < self.individuals.len()
            invariant
                self.wf(),
                next <= self.individuals.len(),
                pairs@.len() == next,
                forall|k: int|
                    0 <= k < next ==> *(#[trigger] pairs@[k]).0 == self@.individuals[k]
                        && pairs@[k].1 == self@.ranks[k],
            decreases self.individuals.len() - next,
        {
            pairs.push((&self.individuals[next], self.ranks[next]));
            next += 1;
        }
        pairs
    }

    /// The number of individuals.
    pub fn size(&self) -> (count: usize)
        ensures
            count == self@.individuals.len(),
    {
        self.individuals.len()
    }

    /// Whether the placements can be applied to `count` candidates.
    fn placements_usable(placements: &Vec<Placement>, count: usize) -> (yes: bool)
        ensures
            yes == usable(placements@, count as nat),
    {
        if placements.len() == 0 {
            return false;
        }
        let mut next: usize = 0;
        while next < placements.len()
            invariant
                next <= placements.len(),
                forall|k: int| 0 <= k < next ==> (#[trigger] placements@[k]).index < count,
            decreases placements.len() - next,
        {
            if placements[next].index >= count {
                return false;
            }
            next += 1;
        }
        true
    }

    /// Inserts one individual and ranks everything anew; the size bound is
    /// not applied.
    fn add_individual(&mut self, individual: I)
        requires
            old(self).aligned(),
        ensures
            final(self).aligned(),
            final(self).objective() == old(self).objective(),
            inserted(old(self).objective(), old(self)@, individual, final(self)@),
    {
        self.individuals.push(individual);
        self.ranks.push(0);
        let ghost candidates = self.individuals@;

        let placements = self.objective.select_and_rank(&self.individuals);
        if !Self::placements_usable(&placements, self.individuals.len()) {
            self.individuals.pop();
            self.ranks.pop();
            assert(self.individuals@ =~= old(self).individuals@);
            assert(self.ranks@ =~= old(self).ranks@);
            assert(reranked(
                self.objective(),
                old(self)@,
                candidates,
                placements@,
                Seq::empty(),
                self@,
            ));
            return ;
        }
        let mut best_order: Vec<Entry> = Vec::new();
        let mut next: usize = 0;
        while next < placements.len()
            invariant
                next <= placements.len(),
                self.individuals@ == candidates,
                self.objective() == old(self).objective(),
                usable(placements@, candidates.len()),
                scored_as(
                    self.objective(),
                    candidates,
                    placements@.take(next as int),
                    best_order@,
                ),
            decreases placements.len() - next,
        {
            let placement = placements[next];
            let fitness = self.objective.fitness(&self.individuals[placement.index]);
            best_order.push(
                Entry {
                    rank: placement.rank,
                    index: placement.index,
                    crowding_distance: placement.crowding_distance,
                    fitness,
                },
            );
            next += 1;
        }
        let ghost entries = best_order@;
        let best_order = drop_repeats(&order_by_priority(&best_order));
        proof {
            broadcast use vstd::seq_lib::group_to_multiset_ensures;

            lemma_by_priority(entries);
            lemma_without_repeats(by_priority(entries));
            lemma_ordered_ranks_ascend(best_order@);
            // an entry that stays came with the placements, and names a candidate
            assert forall|k: int| 0 <= k < best_order@.len() implies (#[trigger] best_order@[k]).index
                < candidates.len() by {
                let sorted = by_priority(entries);
                let at = choose|at: int| 0 <= at < sorted.len() && sorted[at] == best_order@[k];
                assert(entries.to_multiset().count(sorted[at]) > 0);
                let from = choose|from: int|
                    0 <= from < entries.len() && entries[from] == best_order@[k];
                assert(entries[from].index == placements@[from].index);
            }
        }

        let mut individuals: Vec<I> = Vec::new();
        let mut ranks: Vec<usize> = Vec::new();
        let mut next: usize = 0;
        while next < best_order.len()
            invariant
                next <= best_order.len(),
                self.individuals@ == candidates,
                forall|k: int|
                    0 <= k < best_order@.len() ==> (#[trigger] best_order@[k]).index
                        < candidates.len(),
                ranks@ == ranks_of(best_order@.take(next as int)),
                copies_of(candidates, best_order@.take(next as int), individuals@),
            decreases best_order.len() - next,
        {
            let entry = best_order[next];
            individuals.push(self.individuals[entry.index].clone());
            ranks.push(entry.rank);
            next += 1;
        }
        proof {
            assert(best_order@.take(best_order.len() as int) =~= best_order@);
        }
        self.individuals = individuals;
        self.ranks = ranks;
        assert(reranked(self.objective(), old(self)@, candidates, placements@, entries, self@));
    }

    /// Cuts the population down to its capacity.
    fn ensure_max_population_size(&mut self)
        requires
            old(self).aligned(),
        ensures
            final(self).wf(),
            final(self).objective() == old(self).objective(),
            final(self)@ == bounded(old(self)@),
    {
        if self.individuals.len() > self.max_population_size {
            self.individuals.truncate(self.max_population_size);
            self.ranks.truncate(self.max_population_size);
        }
    }
}

} // verus!
