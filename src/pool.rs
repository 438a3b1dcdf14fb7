//! The constant pool of a compiled unit, kept in an `IndexMap` from
//! constants to their ids in order of insertion.
use vstd::prelude::*;

use indexmap::IndexMap;

use crate::compile::Constant;

verus! {

#[verifier::external_type_specification]
#[verifier::external_body]
#[verifier::reject_recursive_types(K)]
#[verifier::reject_recursive_types(V)]
#[verifier::reject_recursive_types(S)]
pub struct ExIndexMap<K, V, S>(IndexMap<K, V, S>);

/// The entries of a pool, in the map's order.
pub uninterp spec fn pool_entries(m: IndexMap<Constant, u16>) -> Seq<(Constant, u16)>;

/// Relies on `IndexMap::new`: a new map has no entries.
#[verifier::external_body]
pub(crate) fn pool_new() -> (r: IndexMap<Constant, u16>)
    ensures
        pool_entries(r) == Seq::<(Constant, u16)>::empty(),
{
    IndexMap::new()
}

/// Relies on `IndexMap::len`: the number of entries.
#[verifier::external_body]
pub(crate) fn pool_len(m: &IndexMap<Constant, u16>) -> (r: usize)
    ensures
        r == pool_entries(*m).len(),
{
    m.len()
}

/// Relies on `IndexMap::get`: the value stored under a key equal to `c`,
/// if there is one. `Constant`'s `==` compares the models.
#[verifier::external_body]
pub(crate) fn pool_get(m: &IndexMap<Constant, u16>, c: &Constant) -> (r: Option<u16>)
    ensures
        r is None ==> forall|i: int|
            0 <= i < pool_entries(*m).len() ==> (#[trigger] pool_entries(*m)[i]).0.model()
                != c.model(),
        r is Some ==> exists|i: int|
            0 <= i < pool_entries(*m).len() && (#[trigger] pool_entries(*m)[i]).0.model()
                == c.model() && pool_entries(*m)[i].1 == r->0,
{
    m.get(c).copied()
}

/// Relies on `IndexMap::insert`: a key equal to none in the map is added
/// last in order, with its value.
#[verifier::external_body]
pub(crate) fn pool_insert(m: &mut IndexMap<Constant, u16>, c: Constant, id: u16)
    requires
        forall|i: int|
            0 <= i < pool_entries(*old(m)).len() ==> (#[trigger] pool_entries(*old(m))[i]).0.model()
                != c.model(),
    ensures
        pool_entries(*final(m)) == pool_entries(*old(m)).push((c, id)),
{
    m.insert(c, id);
}

/// Relies on `IndexMap::get_index`: the key of the entry at `i` in order.
#[verifier::external_body]
pub(crate) fn pool_key_at(m: &IndexMap<Constant, u16>, i: usize) -> (r: &Constant)
    requires
        i < pool_entries(*m).len(),
    ensures
        *r == pool_entries(*m)[i as int].0,
{
    m.get_index(i).unwrap().0
}

} // verus!
