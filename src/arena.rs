//! The node pool: an `id_arena::Arena` of matrix nodes, reached by index.
use crate::node::NodeData;
use id_arena::{Arena, ArenaBehavior, DefaultArenaBehavior};
use vstd::prelude::*;

verus! {

#[verifier::external_type_specification]
#[verifier::external_body]
#[verifier::reject_recursive_types(T)]
#[verifier::reject_recursive_types(A)]
pub struct ExArena<T, A>(Arena<T, A>);

#[verifier::external_type_specification]
#[verifier::external_body]
#[verifier::reject_recursive_types(T)]
pub struct ExDefaultArenaBehavior<T>(DefaultArenaBehavior<T>);

/// The nodes that a pool holds, in the order in which they were allocated.
pub uninterp spec fn pool_nodes(a: Arena<NodeData>) -> Seq<NodeData>;

/// Relies on `Arena::new`: a new arena holds no item.
#[verifier::external_body]
pub(crate) fn new_pool() -> (r: Arena<NodeData>)
    ensures
        pool_nodes(r) == Seq::<NodeData>::empty(),
{
    Arena::new()
}

/// Relies on `Arena::alloc` and `Id::index`: the item is appended, and the
/// returned id indexes the position where it was stored.
#[verifier::external_body]
pub(crate) fn pool_alloc(a: &mut Arena<NodeData>, n: NodeData) -> (r: usize)
    requires
        pool_nodes(*old(a)).len() < usize::MAX,
    ensures
        pool_nodes(*final(a)) == pool_nodes(*old(a)).push(n),
        r == pool_nodes(*old(a)).len(),
{
    a.alloc(n).index()
}

/// Relies on `Arena::len`: the number of items allocated.
#[verifier::external_body]
pub(crate) fn pool_len(a: &Arena<NodeData>) -> (r: usize)
    ensures
        r == pool_nodes(*a).len(),
{
    a.len()
}

/// Relies on `Arena::next_id`, `DefaultArenaBehavior::new_id` and `Index`:
/// an id built from this arena's own arena id and an index below its length
/// reads the item stored at that index.
#[verifier::external_body]
pub(crate) fn pool_get(a: &Arena<NodeData>, ix: usize) -> (r: NodeData)
    requires
        ix < pool_nodes(*a).len(),
    ensures
        r == pool_nodes(*a)[ix as int],
{
    let arena_id = DefaultArenaBehavior::<NodeData>::arena_id(a.next_id());
    a[DefaultArenaBehavior::<NodeData>::new_id(arena_id, ix)]
}

/// Relies on `Arena::next_id`, `DefaultArenaBehavior::new_id` and `IndexMut`:
/// an id built from this arena's own arena id and an index below its length
/// overwrites the item stored at that index and no other.
#[verifier::external_body]
pub(crate) fn pool_set(a: &mut Arena<NodeData>, ix: usize, n: NodeData)
    requires
        ix < pool_nodes(*old(a)).len(),
    ensures
        pool_nodes(*final(a)) == pool_nodes(*old(a)).update(ix as int, n),
{
    let arena_id = DefaultArenaBehavior::<NodeData>::arena_id(a.next_id());
    a[DefaultArenaBehavior::<NodeData>::new_id(arena_id, ix)] = n;
}

} // verus!
