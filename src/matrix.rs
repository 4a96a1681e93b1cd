//! The dancing-links matrix: its nodes, the abstract picture that ghost state
//! keeps of it, and the link surgery that every other part is built from.
use crate::inv::Shape;
use crate::arena::{pool_get, pool_nodes, pool_set};
use crate::node::NodeData;
use crate::ring::{
    insert_before, lemma_relink_unlink, lemma_unlink_fields, nxt, prv, relink, unlink,
};
use id_arena::Arena;
use vstd::prelude::*;

verus! {

/// The toroidal matrix of an exact cover problem.
///
/// Node 0 is the root; its horizontal ring threads the active column headers.
/// Each element has a column header; each nonempty row is a horizontal ring of
/// data nodes, one per element of the row.
pub struct Matrix {
    pub pool: Arena<NodeData>,
    /// The nodes unlinked so far, oldest first: a column header was taken out
    /// of the root's ring, a data node out of its column.
    pub log: Ghost<Seq<usize>>,
    /// Rows, headers and data nodes, which do not change once built.
    pub shape: Ghost<Shape>,
    /// The vertical ring of each active column, header first.
    pub vring: Ghost<Map<u64, Seq<int>>>,
    /// The horizontal ring of the root, root first.
    pub hring: Ghost<Seq<int>>,
    /// The elements covered by the rows selected so far.
    pub covered: Ghost<Set<u64>>,
    /// The node sequence just before each unlink of `log`.
    pub hist: Ghost<Seq<Seq<NodeData>>>,
}

/// Takes a unit off the size of header `h`.
pub open spec fn dec_at(g: Seq<NodeData>, h: int) -> Seq<NodeData> {
    g.update(h, NodeData { size_or_ix: (g[h].size_or_ix - 1) as usize, ..g[h] })
}

/// Adds a unit to the size of header `h`.
pub open spec fn inc_at(g: Seq<NodeData>, h: int) -> Seq<NodeData> {
    g.update(h, NodeData { size_or_ix: (g[h].size_or_ix + 1) as usize, ..g[h] })
}

/// Whether node `x` is a data node (on a vertical ring) rather than a header.
pub open spec fn is_data(g: Seq<NodeData>, x: int) -> bool {
    g[x].header is Some
}

/// The column header of data node `x`.
pub open spec fn hdr(g: Seq<NodeData>, x: int) -> int {
    g[x].header.unwrap() as int
}

/// One logged unlink: a header leaves the root's ring, a data node its column.
pub open spec fn step(g: Seq<NodeData>, x: int) -> Seq<NodeData> {
    if is_data(g, x) {
        dec_at(unlink(g, x, true), hdr(g, x))
    } else {
        unlink(g, x, false)
    }
}

/// The inverse of `step`.
pub open spec fn unstep(g: Seq<NodeData>, x: int) -> Seq<NodeData> {
    if is_data(g, x) {
        inc_at(relink(g, x, true), hdr(g, x))
    } else {
        relink(g, x, false)
    }
}

/// `x` sits on a closed ring in `g`, so that `step` can take it out.
pub open spec fn step_ok(g: Seq<NodeData>, x: int) -> bool {
    let v = is_data(g, x);
    let a = prv(g[x], v);
    let b = nxt(g[x], v);
    &&& 0 <= x < g.len()
    &&& 0 <= a < g.len()
    &&& 0 <= b < g.len()
    &&& a != x
    &&& b != x
    &&& nxt(g[a], v) == x
    &&& prv(g[b], v) == x
    &&& v ==> {
        &&& 0 <= hdr(g, x) < g.len()
        &&& hdr(g, x) != x
        &&& g[hdr(g, x)].size_or_ix >= 1
    }
}

pub proof fn lemma_unstep_step(g: Seq<NodeData>, x: int)
    requires
        step_ok(g, x),
    ensures
        unstep(step(g, x), x) == g,
        step(g, x).len() == g.len(),
        step(g, x)[x] == g[x],
{
    let v = is_data(g, x);
    lemma_relink_unlink(g, x, v);
    let u = unlink(g, x, v);
    assert(u[x] == g[x]);
    if v {
        let h = hdr(g, x);
        let d = dec_at(u, h);
        assert(d[x] == g[x]);
        assert(u[h].size_or_ix == g[h].size_or_ix);
        let rl = relink(d, x, true);
        assert(rl =~= dec_at(relink(u, x, true), h));
        assert(inc_at(rl, h) =~= g);
    }
}

/// No column header of `a` counts more nodes than in `b`.
pub open spec fn sizes_le(a: Seq<NodeData>, b: Seq<NodeData>) -> bool {
    &&& a.len() == b.len()
    &&& forall|h: int|
        0 <= h < b.len() && (#[trigger] b[h]).header is None ==> a[h].header is None
            && a[h].size_or_ix <= b[h].size_or_ix
}

/// A `step` never adds to a column's size.
pub proof fn lemma_step_sizes(g: Seq<NodeData>, x: int)
    requires
        step_ok(g, x),
    ensures
        sizes_le(step(g, x), g),
{
    let v = is_data(g, x);
    lemma_unlink_fields(g, x, v);
}

pub proof fn lemma_sizes_trans(a: Seq<NodeData>, b: Seq<NodeData>, c: Seq<NodeData>)
    requires
        sizes_le(a, b),
        sizes_le(b, c),
    ensures
        sizes_le(a, c),
{
    assert forall|h: int| 0 <= h < c.len() && (#[trigger] c[h]).header is None implies a[h].header is None
        && a[h].size_or_ix <= c[h].size_or_ix by {
        assert(b[h].header is None);
    }
}

/// A relink of the node that the last `step` took out is well defined.
pub proof fn lemma_unstep_ok(s: Seq<NodeData>, x: int)
    requires
        step_ok(s, x),
    ensures
        ({
            let g = step(s, x);
            let v = is_data(g, x);
            &&& unstep(g, x) == s
            &&& g.len() == s.len()
            &&& v == is_data(s, x)
            &&& 0 <= x < g.len()
            &&& 0 <= prv(g[x], v) < g.len()
            &&& 0 <= nxt(g[x], v) < g.len()
            &&& v ==> {
                &&& 0 <= hdr(g, x) < g.len()
                &&& hdr(g, x) != x
                &&& relink(g, x, true)[hdr(g, x)].size_or_ix < usize::MAX
            }
        }),
{
    lemma_unstep_step(s, x);
    let g = step(s, x);
    if is_data(s, x) {
        let h = hdr(s, x);
        let u = unlink(s, x, true);
        assert(u[h].size_or_ix == s[h].size_or_ix);
        assert(g[h].size_or_ix == s[h].size_or_ix - 1);
        assert(relink(g, x, true)[h].size_or_ix == g[h].size_or_ix);
    }
}

impl Matrix {
    /// The node sequence of the pool.
    pub open spec fn g(&self) -> Seq<NodeData> {
        pool_nodes(self.pool)
    }

    /// The ghost state that link surgery leaves alone.
    pub open spec fn same_frame(&self, o: &Matrix) -> bool {
        &&& self.shape == o.shape
        &&& self.vring == o.vring
        &&& self.hring == o.hring
        &&& self.covered == o.covered
        &&& self.hist == o.hist
        &&& self.log@ == o.log@
    }

    pub fn get(&self, ix: usize) -> (r: NodeData)
        requires
            ix < self.g().len(),
        ensures
            r == self.g()[ix as int],
    {
        pool_get(&self.pool, ix)
    }

    pub fn put(&mut self, ix: usize, n: NodeData)
        requires
            ix < old(self).g().len(),
        ensures
            final(self).g() == old(self).g().update(ix as int, n),
            final(self).same_frame(old(self)),
    {
        pool_set(&mut self.pool, ix, n);
    }

    /// Takes `x` out of the ring of direction `vert`.
    fn unlink_links(&mut self, x: usize, vert: bool)
        requires
            x < old(self).g().len(),
            prv(old(self).g()[x as int], vert) < old(self).g().len(),
            nxt(old(self).g()[x as int], vert) < old(self).g().len(),
        ensures
            final(self).g() == unlink(old(self).g(), x as int, vert),
            final(self).same_frame(old(self)),
    {
        let n = self.get(x);
        let a = if vert { n.up } else { n.left };
        let b = if vert { n.down } else { n.right };
        let na = self.get(a);
        self.put(a, if vert { NodeData { down: b, ..na } } else { NodeData { right: b, ..na } });
        let nb = self.get(b);
        self.put(b, if vert { NodeData { up: a, ..nb } } else { NodeData { left: a, ..nb } });
    }

    /// Puts `x` back between the two nodes that its own links of direction `vert` name.
    fn relink_links(&mut self, x: usize, vert: bool)
        requires
            x < old(self).g().len(),
            prv(old(self).g()[x as int], vert) < old(self).g().len(),
            nxt(old(self).g()[x as int], vert) < old(self).g().len(),
        ensures
            final(self).g() == relink(old(self).g(), x as int, vert),
            final(self).same_frame(old(self)),
    {
        let n = self.get(x);
        let a = if vert { n.up } else { n.left };
        let b = if vert { n.down } else { n.right };
        let na = self.get(a);
        self.put(a, if vert { NodeData { down: x, ..na } } else { NodeData { right: x, ..na } });
        let nb = self.get(b);
        self.put(b, if vert { NodeData { up: x, ..nb } } else { NodeData { left: x, ..nb } });
    }

    /// Places `x`, which points to itself, just before `anchor` on the ring of direction `vert`.
    pub fn insert_before(&mut self, anchor: usize, x: usize, vert: bool)
        requires
            x < old(self).g().len(),
            anchor < old(self).g().len(),
            prv(old(self).g()[anchor as int], vert) < old(self).g().len(),
        ensures
            final(self).g() == insert_before(old(self).g(), anchor as int, x as int, vert),
            final(self).same_frame(old(self)),
    {
        let na = self.get(anchor);
        let p = if vert { na.up } else { na.left };
        let nx = self.get(x);
        self.put(
            x,
            if vert {
                NodeData { up: p, down: anchor, ..nx }
            } else {
                NodeData { left: p, right: anchor, ..nx }
            },
        );
        let np = self.get(p);
        self.put(p, if vert { NodeData { down: x, ..np } } else { NodeData { right: x, ..np } });
        let na2 = self.get(anchor);
        self.put(
            anchor,
            if vert { NodeData { up: x, ..na2 } } else { NodeData { left: x, ..na2 } },
        );
    }

    /// Takes a unit off the size of column header `h`.
    fn dec_size(&mut self, h: usize)
        requires
            h < old(self).g().len(),
            old(self).g()[h as int].size_or_ix >= 1,
        ensures
            final(self).g() == dec_at(old(self).g(), h as int),
            final(self).same_frame(old(self)),
    {
        let n = self.get(h);
        self.put(h, NodeData { size_or_ix: n.size_or_ix - 1, ..n });
    }

    /// Adds a unit to the size of column header `h`.
    pub fn inc_size(&mut self, h: usize)
        requires
            h < old(self).g().len(),
            old(self).g()[h as int].size_or_ix < usize::MAX,
        ensures
            final(self).g() == inc_at(old(self).g(), h as int),
            final(self).same_frame(old(self)),
    {
        let n = self.get(h);
        self.put(h, NodeData { size_or_ix: n.size_or_ix + 1, ..n });
    }

    /// Performs `step` on node `x`: a header leaves the root's ring, a data
    /// node leaves its column and its header's size drops by one.
    pub fn unlink_node(&mut self, x: usize)
        requires
            step_ok(old(self).g(), x as int),
        ensures
            final(self).g() == step(old(self).g(), x as int),
            final(self).same_frame(old(self)),
    {
        let n = self.get(x);
        match n.header {
            Some(h) => {
                self.unlink_links(x, true);
                proof {
                    lemma_unlink_fields(old(self).g(), x as int, true);
                }
                self.dec_size(h);
            },
            None => {
                self.unlink_links(x, false);
            },
        }
    }

    /// Performs `unstep` on node `x`.
    pub fn relink_node(&mut self, x: usize)
        requires
            x < old(self).g().len(),
            prv(old(self).g()[x as int], is_data(old(self).g(), x as int)) < old(self).g().len(),
            nxt(old(self).g()[x as int], is_data(old(self).g(), x as int)) < old(self).g().len(),
            is_data(old(self).g(), x as int) ==> {
                &&& hdr(old(self).g(), x as int) < old(self).g().len()
                &&& hdr(old(self).g(), x as int) != x
                &&& relink(old(self).g(), x as int, true)[hdr(old(self).g(), x as int)].size_or_ix
                    < usize::MAX
            },
        ensures
            final(self).g() == unstep(old(self).g(), x as int),
            final(self).same_frame(old(self)),
    {
        let n = self.get(x);
        match n.header {
            Some(h) => {
                self.relink_links(x, true);
                self.inc_size(h);
            },
            None => {
                self.relink_links(x, false);
            },
        }
    }
}

} // verus!
