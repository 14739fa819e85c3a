//! The order in which ranked individuals are kept: better Pareto rank
//! first, more isolated first within a rank, and no run of individuals that
//! stand for the same point.

use vstd::prelude::*;

verus! {

/// Where the ranking routine puts one individual.
#[derive(Clone, Copy, Debug, PartialEq, Eq, Structural)]
pub struct Placement {
    /// Position of the individual among those that were ranked.
    pub index: usize,
    /// Pareto rank: 0 for the non-dominated front.
    pub rank: usize,
    /// Crowding distance within the front, in fixed-point units; larger is
    /// more isolated, and the largest value stands for a distance without
    /// bound.
    pub crowding_distance: i64,
}

/// A placement together with the fitness of the individual it is about.
#[derive(Clone, Copy, Debug, PartialEq, Eq, Structural)]
pub struct Entry {
    pub rank: usize,
    pub index: usize,
    pub crowding_distance: i64,
    /// Scalar fitness of the individual, in fixed-point units.
    pub fitness: i64,
}

/// Whether `a` has strictly higher priority than `b`: a lower rank, or the
/// same rank and a larger crowding distance.
pub open spec fn precedes(a: Entry, b: Entry) -> bool {
    a.rank < b.rank || (a.rank == b.rank && a.crowding_distance > b.crowding_distance)
}

/// Whether two entries stand for the same point: equal crowding distance
/// and equal fitness.
pub open spec fn same_standing(a: Entry, b: Entry) -> bool {
    a.crowding_distance == b.crowding_distance && a.fitness == b.fitness
}

/// Whether no entry comes before one of strictly higher priority.
pub open spec fn in_priority_order(entries: Seq<Entry>) -> bool {
    forall|i: int, j: int|
        0 <= i < j < entries.len() ==> !precedes(#[trigger] entries[j], #[trigger] entries[i])
}

/// Whether the ranks never decrease along the sequence.
pub open spec fn ranks_ascend(ranks: Seq<usize>) -> bool {
    forall|i: int, j: int| 0 <= i < j < ranks.len() ==> #[trigger] ranks[i] <= #[trigger] ranks[j]
}

/// The ranks of the entries, in order.
pub open spec fn ranks_of(entries: Seq<Entry>) -> Seq<usize> {
    entries.map_values(|entry: Entry| entry.rank)
}

/// `sorted` with `entry` put behind the last item that it does not precede.
pub open spec fn placed_by_priority(sorted: Seq<Entry>, entry: Entry) -> Seq<Entry>
    decreases sorted.len(),
{
    if sorted.len() > 0 && precedes(entry, sorted.last()) {
        placed_by_priority(sorted.drop_last(), entry).push(sorted.last())
    } else {
        sorted.push(entry)
    }
}

/// The entries in priority order; entries of equal priority keep the order
/// they came in.
pub open spec fn by_priority(entries: Seq<Entry>) -> Seq<Entry>
    decreases entries.len(),
{
    if entries.len() == 0 {
        entries
    } else {
        placed_by_priority(by_priority(entries.drop_last()), entries.last())
    }
}

/// The entries without those that have the same standing as the entry just
/// before them.
pub open spec fn without_repeats(entries: Seq<Entry>) -> Seq<Entry>
    decreases entries.len(),
{
    if entries.len() <= 1 {
        entries
    } else if same_standing(entries.last(), entries[entries.len() - 2]) {
        without_repeats(entries.drop_last())
    } else {
        without_repeats(entries.drop_last()).push(entries.last())
    }
}

/// Putting `entry` at position `at` is placing it by priority, when it
/// precedes everything from `at` on and not the item before.
proof fn lemma_placed_at(sorted: Seq<Entry>, entry: Entry, at: int)
    requires
        0 <= at <= sorted.len(),
        forall|k: int| at <= k < sorted.len() ==> precedes(entry, #[trigger] sorted[k]),
        at > 0 ==> !precedes(entry, sorted[at - 1]),
    ensures
        placed_by_priority(sorted, entry) == sorted.insert(at, entry),
    decreases sorted.len(),
{
    if sorted.len() > 0 && precedes(entry, sorted.last()) {
        lemma_placed_at(sorted.drop_last(), entry, at);
    }
}

/// Placing an entry keeps the length plus one, and the priority order.
pub proof fn lemma_placed_in_order(sorted: Seq<Entry>, entry: Entry)
    requires
        in_priority_order(sorted),
    ensures
        in_priority_order(placed_by_priority(sorted, entry)),
        placed_by_priority(sorted, entry).len() == sorted.len() + 1,
        placed_by_priority(sorted, entry).to_multiset() == sorted.to_multiset().insert(entry),
    decreases sorted.len(),
{
    broadcast use vstd::seq_lib::group_to_multiset_ensures;

    let placed = placed_by_priority(sorted, entry);
    if sorted.len() > 0 && precedes(entry, sorted.last()) {
        let front = sorted.drop_last();
        lemma_placed_in_order(front, entry);
        let inner = placed_by_priority(front, entry);
        assert(sorted =~= front.push(sorted.last()));
        assert forall|i: int, j: int| 0 <= i < j < placed.len() implies !precedes(
            #[trigger] placed[j],
            #[trigger] placed[i],
        ) by {
            if j == placed.len() - 1 {
                // every item of `inner` is the new entry or an item of `front`
                assert(inner.to_multiset().count(inner[i]) > 0);
            }
        }
    }
}

/// Ordering by priority keeps every entry, as often as it came, and yields
/// the priority order.
pub proof fn lemma_by_priority(entries: Seq<Entry>)
    ensures
        in_priority_order(by_priority(entries)),
        by_priority(entries).len() == entries.len(),
        by_priority(entries).to_multiset() == entries.to_multiset(),
    decreases entries.len(),
{
    broadcast use vstd::seq_lib::group_to_multiset_ensures;

    if entries.len() > 0 {
        lemma_by_priority(entries.drop_last());
        lemma_placed_in_order(by_priority(entries.drop_last()), entries.last());
        assert(entries =~= entries.drop_last().push(entries.last()));
    }
}

/// Entries that are in priority order already stay as they are.
pub proof fn lemma_by_priority_keeps_order(entries: Seq<Entry>)
    requires
        in_priority_order(entries),
    ensures
        by_priority(entries) == entries,
    decreases entries.len(),
{
    if entries.len() > 0 {
        let front = entries.drop_last();
        assert(in_priority_order(front)) by {
            assert forall|i: int, j: int| 0 <= i < j < front.len() implies !precedes(
                #[trigger] front[j],
                #[trigger] front[i],
            ) by {}
        }
        lemma_by_priority_keeps_order(front);
    }
}

/// Every entry that `without_repeats` keeps is one of the entries it was
/// given, and the priority order is kept with them.
pub proof fn lemma_without_repeats(entries: Seq<Entry>)
    ensures
        without_repeats(entries).len() <= entries.len(),
        entries.len() > 0 ==> without_repeats(entries).len() > 0,
        forall|i: int|
            0 <= i < without_repeats(entries).len() ==> entries.contains(
                #[trigger] without_repeats(entries)[i],
            ),
        in_priority_order(entries) ==> in_priority_order(without_repeats(entries)),
    decreases entries.len(),
{
    let kept = without_repeats(entries);
    if entries.len() > 1 {
        let front = entries.drop_last();
        let inner = without_repeats(front);
        lemma_without_repeats(front);
        // what is kept of `front` is in `front`, so in `entries`
        assert forall|i: int| 0 <= i < kept.len() implies entries.contains(#[trigger] kept[i]) by {
            if i < inner.len() {
                let k = choose|k: int| 0 <= k < front.len() && front[k] == inner[i];
                assert(entries[k] == kept[i]);
            }
        }
        if in_priority_order(entries) {
            assert(in_priority_order(front)) by {
                assert forall|i: int, j: int| 0 <= i < j < front.len() implies !precedes(
                    #[trigger] front[j],
                    #[trigger] front[i],
                ) by {}
            }
            // the last entry comes after everything in `front`
            assert forall|i: int, j: int| 0 <= i < j < kept.len() implies !precedes(
                #[trigger] kept[j],
                #[trigger] kept[i],
            ) by {
                if j >= inner.len() {
                    let k = choose|k: int| 0 <= k < front.len() && front[k] == inner[i];
                    assert(!precedes(entries[entries.len() - 1], entries[k]));
                }
            }
        }
    }
}

/// Entries that all have the same standing are cut down to one.
pub proof fn lemma_equal_standing_collapses(entries: Seq<Entry>)
    requires
        entries.len() > 0,
        forall|i: int, j: int|
            0 <= i < entries.len() && 0 <= j < entries.len() ==> same_standing(
                #[trigger] entries[i],
                #[trigger] entries[j],
            ),
    ensures
        without_repeats(entries).len() == 1,
    decreases entries.len(),
{
    if entries.len() > 1 {
        lemma_equal_standing_collapses(entries.drop_last());
    }
}

/// Entries in priority order have ranks that never decrease.
pub proof fn lemma_ordered_ranks_ascend(entries: Seq<Entry>)
    requires
        in_priority_order(entries),
    ensures
        ranks_ascend(ranks_of(entries)),
{
    assert forall|i: int, j: int| 0 <= i < j < entries.len() implies #[trigger] ranks_of(
        entries,
    )[i] <= #[trigger] ranks_of(entries)[j] by {
        assert(!precedes(entries[j], entries[i]));
    }
}

/// Whether `a` has strictly higher priority than `b`.
pub fn comes_before(a: &Entry, b: &Entry) -> (before: bool)
    ensures
        before == precedes(*a, *b),
{
    a.rank < b.rank || (a.rank == b.rank && a.crowding_distance > b.crowding_distance)
}

/// Whether two entries stand for the same point.
pub fn stands_with(a: &Entry, b: &Entry) -> (same: bool)
    ensures
        same == same_standing(*a, *b),
{
    a.crowding_distance == b.crowding_distance && a.fitness == b.fitness
}

/// Puts the entries in priority order: lower rank first, and within a rank
/// the larger crowding distance first. Entries of equal priority keep the
/// order they came in.
pub fn order_by_priority(entries: &Vec<Entry>) -> (ordered: Vec<Entry>)
    ensures
        ordered@ == by_priority(entries@),
{
    let mut ordered: Vec<Entry> = Vec::new();
    let mut next: usize = 0;
    while next < entries.len()
        invariant
            next <= entries.len(),
            ordered@ == by_priority(entries@.take(next as int)),
        decreases entries.len() - next,
    {
        let entry = entries[next];
        proof {
            lemma_by_priority(entries@.take(next as int));
        }
        let mut at: usize = ordered.len();
        while at > 0 && comes_before(&entry, &ordered[at - 1])
            invariant
                at <= ordered.len(),
                forall|k: int| at <= k < ordered.len() ==> precedes(entry, #[trigger] ordered@[k]),
            decreases at,
        {
            at -= 1;
        }
        proof {
            lemma_placed_at(ordered@, entry, at as int);
            assert(entries@.take(next + 1).drop_last() =~= entries@.take(next as int));
        }
        ordered.insert(at, entry);
        next += 1;
    }
    assert(entries@.take(entries.len() as int) =~= entries@);
    ordered
}

/// Drops each entry that has the same standing as the entry just before it.
pub fn drop_repeats(entries: &Vec<Entry>) -> (kept: Vec<Entry>)
    ensures
        kept@ == without_repeats(entries@),
{
    let mut kept: Vec<Entry> = Vec::new();
    let mut next: usize = 0;
    while next < entries.len()
        invariant
            next <= entries.len(),
            kept@ == without_repeats(entries@.take(next as int)),
        decreases entries.len() - next,
    {
        let entry = entries[next];
        proof {
            let upto = entries@.take(next + 1);
            assert(upto.drop_last() =~= entries@.take(next as int));
        }
        if next == 0 || !stands_with(&entry, &entries[next - 1]) {
            kept.push(entry);
        }
        next += 1;
    }
    assert(entries@.take(entries.len() as int) =~= entries@);
    kept
}

} // verus!
