use vstd::prelude::*;

verus! {

/// One cell of the toroidal matrix, addressed by its index in the node arena.
///
/// A column header has `header == None` and keeps in `size_or_ix` the number of
/// data nodes currently linked into its column; a data node names its column
/// header and keeps in `size_or_ix` the index of its row.
#[derive(Clone, Copy)]
pub struct NodeData {
    pub up: usize,
    pub down: usize,
    pub left: usize,
    pub right: usize,
    pub header: Option<usize>,
    pub size_or_ix: usize,
}

impl NodeData {
    pub open spec fn spec_self_loop(ix: usize, header: Option<usize>, size_or_ix: usize) -> NodeData {
        NodeData { up: ix, down: ix, left: ix, right: ix, header, size_or_ix }
    }

    /// A node whose four links point to itself.
    pub fn self_loop(ix: usize, header: Option<usize>, size_or_ix: usize) -> (r: NodeData)
        ensures
            r == NodeData::spec_self_loop(ix, header, size_or_ix),
    {
        NodeData { up: ix, down: ix, left: ix, right: ix, header, size_or_ix }
    }
}

} // verus!
