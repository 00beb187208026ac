//! The insertion-ordered cell table of a search, kept in an `IndexMap`.
use vstd::prelude::*;
use indexmap::IndexMap;

verus! {

#[verifier::external_type_specification]
#[verifier::external_body]
#[verifier::reject_recursive_types(K)]
#[verifier::reject_recursive_types(V)]
#[verifier::reject_recursive_types(S)]
pub struct ExIndexMap<K, V, S>(IndexMap<K, V, S>);

/// The keys of the table, in the order in which they were inserted.
pub uninterp spec fn table_cells(m: IndexMap<u64, ()>) -> Seq<u64>;

/// Relies on `IndexMap::new`: a new map holds no keys.
#[verifier::external_body]
pub(crate) fn table_new() -> (r: IndexMap<u64, ()>)
    ensures
        table_cells(r) == Seq::<u64>::empty(),
{
    IndexMap::new()
}

/// Relies on `IndexMap::insert_full`: a key that is absent is appended last
/// and its new index returned; a present key keeps its place and its index is
/// returned.
#[verifier::external_body]
pub(crate) fn table_insert(m: &mut IndexMap<u64, ()>, cell: u64) -> (r: usize)
    ensures
        !table_cells(*old(m)).contains(cell) ==> table_cells(*final(m)) == table_cells(
            *old(m),
        ).push(cell) && r == table_cells(*old(m)).len(),
        table_cells(*old(m)).contains(cell) ==> table_cells(*final(m)) == table_cells(*old(m))
            && r < table_cells(*old(m)).len() && table_cells(*old(m))[r as int] == cell,
{
    m.insert_full(cell, ()).0
}

/// Relies on `IndexMap::get_index_of`: the index of a present key, none for
/// an absent one.
#[verifier::external_body]
pub(crate) fn table_index_of(m: &IndexMap<u64, ()>, cell: u64) -> (r: Option<usize>)
    ensures
        r matches Some(i) ==> i < table_cells(*m).len() && table_cells(*m)[i as int] == cell,
        r is None ==> !table_cells(*m).contains(cell),
{
    m.get_index_of(&cell)
}

/// Relies on `IndexMap::get_index`: the key stored at a valid index.
#[verifier::external_body]
pub(crate) fn table_cell_at(m: &IndexMap<u64, ()>, index: usize) -> (r: u64)
    requires
        index < table_cells(*m).len(),
    ensures
        r == table_cells(*m)[index as int],
{
    *m.get_index(index).unwrap().0
}

} // verus!
