//! Tables keyed by kind: the concurrent map of the `dashmap` crate.
use dashmap::DashMap;
use vstd::prelude::*;

verus! {

/// The map type of the `dashmap` crate.
#[verifier::external_type_specification]
#[verifier::external_body]
#[verifier::reject_recursive_types(K)]
#[verifier::reject_recursive_types(V)]
#[verifier::reject_recursive_types(S)]
pub struct ExDashMap<K, V, S>(dashmap::DashMap<K, V, S>);

/// What a table keyed by kind holds.
pub uninterp spec fn table(map: DashMap<u8, u64>) -> Map<u8, u64>;

/// `DashMap::new`: an empty table.
#[verifier::external_body]
pub(crate) fn new_table() -> (fresh: DashMap<u8, u64>)
    ensures
        table(fresh).dom() == Set::<u8>::empty(),
{
    DashMap::new()
}

/// `DashMap::get`: a copy of the value of a kind, when it has one.
#[verifier::external_body]
pub(crate) fn value_of(map: &DashMap<u8, u64>, kind: u8) -> (value: Option<u64>)
    ensures
        value == (if table(*map).contains_key(kind) {
            Some(table(*map)[kind])
        } else {
            None
        }),
{
    map.get(&kind).map(|entry| *entry.value())
}

/// `DashMap::entry` and `Entry::or_insert`: the value of a kind, which becomes
/// `fresh` when it had none.
#[verifier::external_body]
pub(crate) fn value_or_insert(map: &mut DashMap<u8, u64>, kind: u8, fresh: u64) -> (value: u64)
    ensures
        table(*old(map)).contains_key(kind) ==> {
            &&& table(*final(map)) == table(*old(map))
            &&& value == table(*old(map))[kind]
        },
        !table(*old(map)).contains_key(kind) ==> {
            &&& table(*final(map)) == table(*old(map)).insert(kind, fresh)
            &&& value == fresh
        },
{
    *map.entry(kind).or_insert(fresh)
}

/// `DashMap::insert`: sets the value of a kind.
#[verifier::external_body]
pub(crate) fn set_value(map: &mut DashMap<u8, u64>, kind: u8, value: u64)
    ensures
        table(*final(map)) == table(*old(map)).insert(kind, value),
{
    map.insert(kind, value);
}

} // verus!
