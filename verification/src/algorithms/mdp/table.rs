//! The hash table that backs a set of action estimates, and what is taken
//! on trust about it.

use hashbrown::hash_map::DefaultHashBuilder;
use hashbrown::HashMap;
use vstd::prelude::*;

verus! {

/// `hashbrown::HashMap`, carried as a value of which nothing is seen but
/// through the functions below.
#[verifier::external_type_specification]
#[verifier::external_body]
#[verifier::reject_recursive_types(K)]
#[verifier::reject_recursive_types(V)]
#[verifier::reject_recursive_types(S)]
pub struct ExHashMap<K, V, S>(HashMap<K, V, S>);

/// `hashbrown::hash_map::DefaultHashBuilder`, the hasher of every table
/// here. Each table seeds it for itself, so the order in which a table
/// lists its entries is not known.
#[verifier::external_type_specification]
#[verifier::external_body]
pub struct ExDefaultHashBuilder(DefaultHashBuilder);

/// What a table holds: each action that has an estimate, with that
/// estimate. The functions below say how the calls on a table change and
/// report it.
pub uninterp spec fn table_contents(table: HashMap<u64, i64>) -> Map<u64, i64>;

/// Whether `entries` lists `contents`: each pair of the map once, in some
/// order, and nothing else.
pub open spec fn lists_contents(entries: Seq<(u64, i64)>, contents: Map<u64, i64>) -> bool {
    &&& forall|i: int|
        0 <= i < entries.len() ==> contents.contains_pair(
            (#[trigger] entries[i]).0,
            entries[i].1,
        )
    &&& forall|action: u64| #[trigger]
        contents.contains_key(action) ==> exists|i: int|
            0 <= i < entries.len() && (#[trigger] entries[i]).0 == action
    &&& forall|i: int, j: int|
        0 <= i < j < entries.len() ==> (#[trigger] entries[i]).0 != (#[trigger] entries[j]).0
}

/// Whether `keys` lists the keys of `contents`: each once, in some order.
pub open spec fn lists_keys(keys: Seq<u64>, contents: Map<u64, i64>) -> bool {
    keys.no_duplicates() && keys.to_set() == contents.dom()
}

/// `HashMap::default`: the table it makes has no entry.
#[verifier::external_body]
pub(crate) fn table_default() -> (fresh: HashMap<u64, i64>)
    ensures
        table_contents(fresh) == (Map::<u64, i64>::empty()),
{
    HashMap::default()
}

/// `HashMap::clone`: the copy holds what the table holds.
#[verifier::external_body]
pub(crate) fn table_clone(table: &HashMap<u64, i64>) -> (copy: HashMap<u64, i64>)
    ensures
        table_contents(copy) == table_contents(*table),
{
    table.clone()
}

/// `HashMap::insert`: afterwards the table maps `action` to `estimate` and
/// is otherwise as before.
#[verifier::external_body]
pub(crate) fn table_insert(table: &mut HashMap<u64, i64>, action: u64, estimate: i64)
    ensures
        table_contents(*final(table)) == table_contents(*old(table)).insert(action, estimate),
{
    table.insert(action, estimate);
}

/// `HashMap::len`: the number of entries of the table.
#[verifier::external_body]
pub(crate) fn table_len(table: &HashMap<u64, i64>) -> (count: usize)
    ensures
        count == table_contents(*table).len(),
{
    table.len()
}

/// `HashMap::iter`, collected: the entries of the table, each once. The
/// order is the table's own, of which nothing is claimed.
#[verifier::external_body]
pub(crate) fn table_entries(table: &HashMap<u64, i64>) -> (entries: Vec<(u64, i64)>)
    ensures
        lists_contents(entries@, table_contents(*table)),
{
    table.iter().map(|(action, estimate)| (*action, *estimate)).collect()
}

/// `HashMap::keys`, collected: the actions of the table, each once. The
/// order is the table's own, of which nothing is claimed.
#[verifier::external_body]
pub(crate) fn table_keys(table: &HashMap<u64, i64>) -> (keys: Vec<u64>)
    ensures
        lists_keys(keys@, table_contents(*table)),
{
    table.keys().copied().collect()
}

/// The keys of a listing are the keys of the map it lists.
pub proof fn lemma_listing_keys(entries: Seq<(u64, i64)>, contents: Map<u64, i64>)
    requires
        lists_contents(entries, contents),
    ensures
        lists_keys(entries.map_values(|entry: (u64, i64)| entry.0), contents),
{
    let keys = entries.map_values(|entry: (u64, i64)| entry.0);
    assert forall|action: u64| keys.to_set().contains(action) == contents.dom().contains(
        action,
    ) by {
        if contents.contains_key(action) {
            let i = choose|i: int| 0 <= i < entries.len() && (#[trigger] entries[i]).0 == action;
            assert(keys[i] == action);
        }
    }
    assert(keys.to_set() =~= contents.dom());
}

/// A map whose keys can be listed is finite, and has as many entries as the
/// list has items.
pub proof fn lemma_listed_keys_count(keys: Seq<u64>, contents: Map<u64, i64>)
    requires
        lists_keys(keys, contents),
    ensures
        contents.dom().finite(),
        contents.len() == keys.len(),
{
    broadcast use vstd::seq_lib::seq_to_set_is_finite;

    keys.unique_seq_to_set();
}

} // verus!
