//! Maps that threads may share.
use dashmap::DashMap;
use vstd::prelude::*;

verus! {

/// `dashmap::DashMap`: a map that threads may share.
#[verifier::external_type_specification]
#[verifier::external_body]
#[verifier::reject_recursive_types(K)]
#[verifier::reject_recursive_types(V)]
#[verifier::reject_recursive_types(S)]
pub struct ExDashMap<K, V, S>(dashmap::DashMap<K, V, S>);

/// What a shared map holds: size, depth, bloom and weight by key.
pub uninterp spec fn shared_entries(m: DashMap<u64, (u16, u8, u64, u64)>) -> Map<u64, (u16, u8, u64, u64)>;

/// `dashmap::DashMap::new` makes a map without entries.
#[verifier::external_body]
pub(crate) fn shared_new() -> (m: DashMap<u64, (u16, u8, u64, u64)>)
    ensures
        shared_entries(m).dom() == Set::<u64>::empty(),
{
    DashMap::new()
}

/// `dashmap::DashMap::get` finds the value of a key, copied out here.
#[verifier::external_body]
pub(crate) fn shared_get(m: &DashMap<u64, (u16, u8, u64, u64)>, key: u64) -> (r: Option<(u16, u8, u64, u64)>)
    ensures
        r == if shared_entries(*m).dom().contains(key) {
            Some(shared_entries(*m)[key])
        } else {
            None
        },
{
    m.get(&key).map(|e| *e.value())
}

/// `dashmap::DashMap::insert` sets the value of a key and leaves the other
/// entries alone.
#[verifier::external_body]
pub(crate) fn shared_insert(m: &mut DashMap<u64, (u16, u8, u64, u64)>, key: u64, value: (u16, u8, u64, u64))
    ensures
        shared_entries(*final(m)) == shared_entries(*old(m)).insert(key, value),
{
    m.insert(key, value);
}

/// `dashmap::DashMap::len` counts the entries.
#[verifier::external_body]
pub(crate) fn shared_len(m: &DashMap<u64, (u16, u8, u64, u64)>) -> (n: usize)
    ensures
        n == shared_entries(*m).dom().len(),
{
    m.len()
}

/// What a shared index holds: a number by key.
pub uninterp spec fn index_entries(m: DashMap<u64, usize>) -> Map<u64, usize>;

/// `dashmap::DashMap::new` makes a map without entries.
#[verifier::external_body]
pub(crate) fn index_new() -> (m: DashMap<u64, usize>)
    ensures
        index_entries(m).dom() == Set::<u64>::empty(),
{
    DashMap::new()
}

/// `dashmap::DashMap::get` finds the value of a key, copied out here.
#[verifier::external_body]
pub(crate) fn index_get(m: &DashMap<u64, usize>, key: u64) -> (r: Option<usize>)
    ensures
        r == if index_entries(*m).dom().contains(key) {
            Some(index_entries(*m)[key])
        } else {
            None
        },
{
    m.get(&key).map(|e| *e.value())
}

/// `dashmap::DashMap::insert` sets the value of a key and leaves the other
/// entries alone.
#[verifier::external_body]
pub(crate) fn index_insert(m: &mut DashMap<u64, usize>, key: u64, value: usize)
    ensures
        index_entries(*final(m)) == index_entries(*old(m)).insert(key, value),
{
    m.insert(key, value);
}

/// `dashmap::DashMap::remove` takes the entry of a key out and leaves the other
/// entries alone.
#[verifier::external_body]
pub(crate) fn index_remove(m: &mut DashMap<u64, usize>, key: u64)
    ensures
        index_entries(*final(m)) == index_entries(*old(m)).remove(key),
{
    m.remove(&key);
}

} // verus!
