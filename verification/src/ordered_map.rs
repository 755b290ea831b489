//! The trusted interface to `indexmap::IndexMap`, the ordered map that holds
//! a credential table at run time. `entries_of` names the entries a map
//! holds; each wrapper states, over that name, what the called method does.
use vstd::prelude::*;

use crate::model::table_insert;
use indexmap::IndexMap;

verus! {

#[verifier::external_type_specification]
#[verifier::external_body]
#[verifier::reject_recursive_types(K)]
#[verifier::reject_recursive_types(V)]
#[verifier::reject_recursive_types(S)]
pub struct ExIndexMap<K, V, S>(IndexMap<K, V, S>);

/// The entries an `IndexMap` holds, as key/value character sequences in the
/// map's order.
pub uninterp spec fn entries_of(m: IndexMap<String, String>) -> Seq<(Seq<char>, Seq<char>)>;

/// Relies on `IndexMap::new`: creates an empty map.
#[verifier::external_body]
pub(crate) fn map_new() -> (m: IndexMap<String, String>)
    ensures
        entries_of(m) == Seq::<(Seq<char>, Seq<char>)>::empty(),
{
    IndexMap::new()
}

/// Relies on `IndexMap::insert`: a key already in the map keeps its place in
/// the order and its value is replaced; a new key is appended at the end.
#[verifier::external_body]
pub(crate) fn map_insert(m: &mut IndexMap<String, String>, k: String, v: String)
    ensures
        entries_of(*final(m)) == table_insert(entries_of(*old(m)), k@, v@),
{
    m.insert(k, v);
}

/// Relies on `IndexMap::len`: the number of entries in the map.
#[verifier::external_body]
pub(crate) fn map_len(m: &IndexMap<String, String>) -> (n: usize)
    ensures
        n == entries_of(*m).len(),
{
    m.len()
}

/// Relies on `IndexMap::get_index`: the key-value pair at the given place in
/// the map's order; it is `Some` for every index below the map's length.
#[verifier::external_body]
pub(crate) fn map_entry_at(m: &IndexMap<String, String>, i: usize) -> (kv: (String, String))
    requires
        i < entries_of(*m).len(),
    ensures
        kv.0@ == entries_of(*m)[i as int].0,
        kv.1@ == entries_of(*m)[i as int].1,
{
    let (k, v) = m.get_index(i).expect("index below the map's length");
    (k.clone(), v.clone())
}

} // verus!
