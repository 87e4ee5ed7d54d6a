//! The arena that owns every cell of a tree. Cells are only ever appended,
//! and the whole arena is released at once when its owner is dropped.
use vstd::prelude::*;
use crate::octree::OctreeCell;
use fixed_typed_arena::arena::Arena;
use fixed_typed_arena::Options;

verus! {

/// An append-only arena of cells, read back by allocation index.
#[verifier::external_body]
pub struct CellPool {
    arena: Arena<OctreeCell, Options<16, false, false>>,
}

/// The cells of a pool, in allocation order.
pub uninterp spec fn pool_cells(p: CellPool) -> Seq<OctreeCell>;

/// Relies on fixed_typed_arena's `Arena::new`: a new arena holds no items.
#[verifier::external_body]
pub(crate) fn pool_new() -> (r: CellPool)
    ensures
        pool_cells(r) == Seq::<OctreeCell>::empty(),
{
    CellPool { arena: Arena::new() }
}

/// Relies on fixed_typed_arena's `Arena::alloc_shared`: the value is stored
/// after every item allocated before it.
#[verifier::external_body]
pub(crate) fn pool_alloc(p: &mut CellPool, c: OctreeCell)
    ensures
        pool_cells(*final(p)) == pool_cells(*old(p)).push(c),
{
    p.arena.alloc_shared(c);
}

/// Relies on fixed_typed_arena's `Arena::len`: the number of items allocated.
#[verifier::external_body]
pub(crate) fn pool_len(p: &CellPool) -> (r: usize)
    ensures
        r == pool_cells(*p).len(),
{
    p.arena.len()
}

/// Relies on fixed_typed_arena's `Arena::iter`: it yields the items in
/// allocation order.
#[verifier::external_body]
pub(crate) fn pool_get(p: &CellPool, i: usize) -> (r: &OctreeCell)
    requires
        i < pool_cells(*p).len(),
    ensures
        *r == pool_cells(*p)[i as int],
{
    p.arena.iter().nth(i).unwrap()
}

} // verus!
