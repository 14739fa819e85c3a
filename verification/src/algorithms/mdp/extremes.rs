//! The greatest and the least of a set of estimates.

use crate::algorithms::mdp::table::lists_contents;
use vstd::prelude::*;

verus! {

/// Whether `extreme` is a greatest entry of `estimates`: one of its pairs,
/// with no estimate above it; or nothing, for the empty map.
pub open spec fn is_greatest(estimates: Map<u64, i64>, extreme: Option<(u64, i64)>) -> bool {
    match extreme {
        Some((action, value)) => estimates.contains_pair(action, value) && forall|other: u64|
            estimates.contains_key(other) ==> #[trigger] estimates[other] <= value,
        None => forall|other: u64| !estimates.contains_key(other),
    }
}

/// Whether `extreme` is a least entry of `estimates`: one of its pairs,
/// with no estimate below it; or nothing, for the empty map.
pub open spec fn is_least(estimates: Map<u64, i64>, extreme: Option<(u64, i64)>) -> bool {
    match extreme {
        Some((action, value)) => estimates.contains_pair(action, value) && forall|other: u64|
            estimates.contains_key(other) ==> #[trigger] estimates[other] >= value,
        None => forall|other: u64| !estimates.contains_key(other),
    }
}

/// Whether position `at` holds the last of the greatest estimates.
pub open spec fn last_greatest_at(entries: Seq<(u64, i64)>, at: int) -> bool {
    &&& 0 <= at < entries.len()
    &&& forall|k: int| 0 <= k < entries.len() ==> (#[trigger] entries[k]).1 <= entries[at].1
    &&& forall|k: int| at < k < entries.len() ==> (#[trigger] entries[k]).1 < entries[at].1
}

/// Whether position `at` holds the first of the least estimates.
pub open spec fn first_least_at(entries: Seq<(u64, i64)>, at: int) -> bool {
    &&& 0 <= at < entries.len()
    &&& forall|k: int| 0 <= k < entries.len() ==> (#[trigger] entries[k]).1 >= entries[at].1
    &&& forall|k: int| 0 <= k < at ==> (#[trigger] entries[k]).1 > entries[at].1
}

/// The entry with the greatest estimate; of several, the last. Nothing for
/// no entries.
pub fn last_greatest(entries: &Vec<(u64, i64)>) -> (found: Option<(u64, i64)>)
    ensures
        found is None <==> entries@.len() == 0,
        found matches Some(entry) ==> exists|at: int| #[trigger]
            last_greatest_at(entries@, at) && entries@[at] == entry,
{
    if entries.len() == 0 {
        return None;
    }
    let mut best: usize = 0;
    let mut next: usize = 1;
    while next < entries.len()
        invariant
            best < next <= entries.len(),
            last_greatest_at(entries@.take(next as int), best as int),
        decreases entries.len() - next,
    {
        proof {
            let seen = entries@.take(next as int);
            let more = entries@.take(next + 1);
            assert forall|k: int| 0 <= k < next implies more[k] == seen[k] by {}
        }
        if entries[next].1 >= entries[best].1 {
            best = next;
        }
        next += 1;
    }
    assert(entries@.take(entries.len() as int) =~= entries@);
    Some(entries[best])
}

/// The entry with the least estimate; of several, the first. Nothing for no
/// entries.
pub fn first_least(entries: &Vec<(u64, i64)>) -> (found: Option<(u64, i64)>)
    ensures
        found is None <==> entries@.len() == 0,
        found matches Some(entry) ==> exists|at: int| #[trigger]
            first_least_at(entries@, at) && entries@[at] == entry,
{
    if entries.len() == 0 {
        return None;
    }
    let mut best: usize = 0;
    let mut next: usize = 1;
    while next < entries.len()
        invariant
            best < next <= entries.len(),
            first_least_at(entries@.take(next as int), best as int),
        decreases entries.len() - next,
    {
        proof {
            let seen = entries@.take(next as int);
            let more = entries@.take(next + 1);
            assert forall|k: int| 0 <= k < next implies more[k] == seen[k] by {}
        }
        if entries[next].1 < entries[best].1 {
            best = next;
        }
        next += 1;
    }
    assert(entries@.take(entries.len() as int) =~= entries@);
    Some(entries[best])
}

/// The last greatest entry of a listing is a greatest entry of the map.
pub proof fn lemma_greatest_of_listing(entries: Seq<(u64, i64)>, contents: Map<u64, i64>, at: int)
    requires
        lists_contents(entries, contents),
        last_greatest_at(entries, at),
    ensures
        is_greatest(contents, Some(entries[at])),
{
    assert forall|other: u64| contents.contains_key(other) implies #[trigger] contents[other]
        <= entries[at].1 by {
        let k = choose|k: int| 0 <= k < entries.len() && (#[trigger] entries[k]).0 == other;
        assert(contents.contains_pair(entries[k].0, entries[k].1));
    }
}

/// The first least entry of a listing is a least entry of the map.
pub proof fn lemma_least_of_listing(entries: Seq<(u64, i64)>, contents: Map<u64, i64>, at: int)
    requires
        lists_contents(entries, contents),
        first_least_at(entries, at),
    ensures
        is_least(contents, Some(entries[at])),
{
    assert forall|other: u64| contents.contains_key(other) implies #[trigger] contents[other]
        >= entries[at].1 by {
        let k = choose|k: int| 0 <= k < entries.len() && (#[trigger] entries[k]).0 == other;
        assert(contents.contains_pair(entries[k].0, entries[k].1));
    }
}

/// How a greatest entry follows an insertion: an estimate that is not below
/// it takes its place, and an estimate below it leaves it in place unless
/// it is given to the action of the greatest entry itself.
pub proof fn lemma_greatest_after_insert(
    estimates: Map<u64, i64>,
    top: Option<(u64, i64)>,
    action: u64,
    estimate: i64,
)
    requires
        is_greatest(estimates, top),
    ensures
        (top matches Some(entry) ==> estimate >= entry.1) ==> is_greatest(
            estimates.insert(action, estimate),
            Some((action, estimate)),
        ),
        (top matches Some(entry) && estimate < entry.1 && entry.0 != action) ==> is_greatest(
            estimates.insert(action, estimate),
            top,
        ),
{
}

/// How a least entry follows an insertion: an estimate that is not above it
/// takes its place, and an estimate above it leaves it in place unless it
/// is given to the action of the least entry itself.
pub proof fn lemma_least_after_insert(
    estimates: Map<u64, i64>,
    bottom: Option<(u64, i64)>,
    action: u64,
    estimate: i64,
)
    requires
        is_least(estimates, bottom),
    ensures
        (bottom matches Some(entry) ==> estimate <= entry.1) ==> is_least(
            estimates.insert(action, estimate),
            Some((action, estimate)),
        ),
        (bottom matches Some(entry) && estimate > entry.1 && entry.0 != action) ==> is_least(
            estimates.insert(action, estimate),
            bottom,
        ),
{
}

/// A greatest entry holds the maximum of the estimates, a least entry their
/// minimum.
pub proof fn lemma_extremes_bound_values(
    estimates: Map<u64, i64>,
    top: (u64, i64),
    bottom: (u64, i64),
)
    requires
        is_greatest(estimates, Some(top)),
        is_least(estimates, Some(bottom)),
    ensures
        estimates.values().contains(top.1),
        estimates.values().contains(bottom.1),
        forall|value: i64| estimates.values().contains(value) ==> bottom.1 <= value <= top.1,
{
}

/// Only the empty map has no greatest and no least entry.
pub proof fn lemma_no_extreme_is_empty(estimates: Map<u64, i64>, extreme: Option<(u64, i64)>)
    requires
        estimates.dom().finite(),
        is_greatest(estimates, extreme) || is_least(estimates, extreme),
    ensures
        extreme is None <==> estimates.len() == 0,
{
    if extreme is None {
        assert(estimates.dom() =~= Set::empty());
    }
}

/// A listing without items lists the empty map only.
pub proof fn lemma_empty_listing(entries: Seq<(u64, i64)>, contents: Map<u64, i64>)
    requires
        lists_contents(entries, contents),
        entries.len() == 0,
    ensures
        is_greatest(contents, None),
        is_least(contents, None),
{
}

} // verus!
