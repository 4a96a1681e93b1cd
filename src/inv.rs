//! The invariant of the matrix: what its links and sizes are, given the rows
//! and the set of covered elements.
use crate::matrix::{step, step_ok, Matrix};
use crate::node::NodeData;
use crate::ring::{lemma_ring_frame, nxt, prv, ring, same_links};
use vstd::prelude::*;

verus! {

/// No element of `s` is in `k`.
pub open spec fn disjoint_from(s: Set<u64>, k: Set<u64>) -> bool {
    forall|e: u64| s.contains(e) ==> !k.contains(e)
}

/// Past its first entry, `s` is strictly increasing: ring order is
/// allocation order.
pub open spec fn increasing_tail(s: Seq<int>) -> bool {
    forall|i: int, j: int| 1 <= i < j < s.len() ==> s[i] < s[j]
}

/// Removing an entry past the first keeps the order.
pub proof fn lemma_increasing_remove(s: Seq<int>, z: int)
    requires
        increasing_tail(s),
        0 < z < s.len(),
    ensures
        increasing_tail(s.remove(z)),
{
    let t = s.remove(z);
    assert forall|i: int, j: int| 1 <= i < j < t.len() implies t[i] < t[j] by {
        let ii = if i < z { i } else { i + 1 };
        let jj = if j < z { j } else { j + 1 };
        assert(t[i] == s[ii] && t[j] == s[jj]);
    }
}

/// Appending an entry above all others keeps the order.
pub proof fn lemma_increasing_push(s: Seq<int>, x: int)
    requires
        increasing_tail(s),
        forall|i: int| 0 <= i < s.len() ==> s[i] < x,
    ensures
        increasing_tail(s.push(x)),
{
}

/// Element `a` occurs somewhere before every occurrence of `b`, positions
/// being ordered by row and then by place in the row: `a` is seen first.
pub open spec fn seen_before(subs: Seq<Seq<u64>>, a: u64, b: u64) -> bool {
    exists|r: int, j: int|
        0 <= r < subs.len() && 0 <= j < subs[r].len() && #[trigger] subs[r][j] == a && forall|r2: int, j2: int|
            0 <= r2 < subs.len() && 0 <= j2 < subs[r2].len() && #[trigger] subs[r2][j2] == b ==> (r < r2 || (r
                == r2 && j < j2))
}

/// Appending an element to the last row keeps who was seen first.
pub proof fn lemma_seen_append(subs: Seq<Seq<u64>>, x: u64, a: u64, b: u64)
    requires
        subs.len() > 0,
        seen_before(subs, a, b),
    ensures
        seen_before(subs.update(subs.len() - 1, subs.last().push(x)), a, b),
{
    let ri = subs.len() - 1;
    let t = subs.update(ri, subs.last().push(x));
    let (r, j) = choose|r: int, j: int|
        0 <= r < subs.len() && 0 <= j < subs[r].len() && #[trigger] subs[r][j] == a && forall|r2: int, j2: int|
            0 <= r2 < subs.len() && 0 <= j2 < subs[r2].len() && #[trigger] subs[r2][j2] == b ==> (r < r2 || (r
                == r2 && j < j2));
    assert(t[r][j] == a);
    assert forall|r2: int, j2: int|
        0 <= r2 < t.len() && 0 <= j2 < t[r2].len() && #[trigger] t[r2][j2] == b implies (r < r2 || (r == r2 && j < j2)) by {
        if !(r2 == ri && j2 == subs[ri].len()) {
            assert(subs[r2][j2] == b);
        }
    }
}

/// An element that occurs is seen before one that does not.
pub proof fn lemma_seen_absent(subs: Seq<Seq<u64>>, a: u64, b: u64, r: int, j: int)
    requires
        0 <= r < subs.len(),
        0 <= j < subs[r].len(),
        subs[r][j] == a,
        forall|r2: int| 0 <= r2 < subs.len() ==> !subs[r2].contains(b),
    ensures
        seen_before(subs, a, b),
{
    assert forall|r2: int, j2: int|
        0 <= r2 < subs.len() && 0 <= j2 < subs[r2].len() && #[trigger] subs[r2][j2] == b implies (r < r2 || (r == r2 && j < j2)) by {
        assert(subs[r2].contains(b));
    }
}

/// An empty row adds no occurrence.
pub proof fn lemma_seen_empty_row(subs: Seq<Seq<u64>>, a: u64, b: u64)
    requires
        seen_before(subs, a, b),
    ensures
        seen_before(subs.push(Seq::empty()), a, b),
{
    let t = subs.push(Seq::<u64>::empty());
    let (r, j) = choose|r: int, j: int|
        0 <= r < subs.len() && 0 <= j < subs[r].len() && #[trigger] subs[r][j] == a && forall|r2: int, j2: int|
            0 <= r2 < subs.len() && 0 <= j2 < subs[r2].len() && #[trigger] subs[r2][j2] == b ==> (r < r2 || (r
                == r2 && j < j2));
    assert(t[r][j] == a);
    assert forall|r2: int, j2: int|
        0 <= r2 < t.len() && 0 <= j2 < t[r2].len() && #[trigger] t[r2][j2] == b implies (r < r2 || (r == r2 && j < j2)) by {
        assert(subs[r2][j2] == b);
    }
}

/// `h` keeps the header links of `g`, and, at every data node, its row links and row index.
pub open spec fn static_same(g: Seq<NodeData>, h: Seq<NodeData>) -> bool {
    &&& h.len() == g.len()
    &&& forall|k: int|
        0 <= k < g.len() ==> (#[trigger] h[k]).header == g[k].header && (g[k].header is Some
            ==> h[k].size_or_ix == g[k].size_or_ix && h[k].left == g[k].left && h[k].right
            == g[k].right)
}

/// The fixed part of the matrix: rows, headers, and where each data node stands.
pub struct Shape {
    /// The subset of each row.
    pub rows: Seq<Set<u64>>,
    /// The header node of each element.
    pub hdr_of: Map<u64, int>,
    /// The element of each header node.
    pub hkey: Map<int, u64>,
    /// The data nodes of each row, in ring order.
    pub rring: Seq<Seq<int>>,
    /// The element of each data node of `rring`, position by position.
    pub relem: Seq<Seq<u64>>,
    /// The row and the position in that row of each data node.
    pub loc: Map<int, (int, int)>,
}

impl Shape {
    /// The rows that meet no element of `k`.
    pub open spec fn alive(&self, k: Set<u64>) -> Set<int> {
        Set::new(|r: int| 0 <= r < self.rows.len() && disjoint_from(self.rows[r], k))
    }

    /// Data node at position `j` of row `r` names its header, its row and its place.
    pub open spec fn data_ok(&self, g: Seq<NodeData>, r: int, j: int) -> bool {
        let x = self.rring[r][j];
        &&& 0 < x < g.len()
        &&& g[x].header == Some(self.hdr_of[self.relem[r][j]] as usize)
        &&& g[x].size_or_ix == r
        &&& self.loc.contains_key(x)
        &&& self.loc[x] == (r, j)
    }

    /// What never changes once a row is added: headers, row rings, and the
    /// correspondence between nodes, rows and elements.
    #[verifier::opaque]
    pub open spec fn layout(&self, g: Seq<NodeData>) -> bool {
        let rows = self.rows;
        &&& 0 < g.len() < usize::MAX
        &&& g[0].header is None
        &&& self.rring.len() == rows.len()
        &&& self.relem.len() == rows.len()
        &&& forall|e: u64| #[trigger]
            self.hdr_of.contains_key(e) ==> 0 < self.hdr_of[e] < g.len() && g[self.hdr_of[e]].header is None
                && self.hkey.contains_key(self.hdr_of[e]) && self.hkey[self.hdr_of[e]] == e
        &&& forall|h: int| #[trigger]
            self.hkey.contains_key(h) ==> self.hdr_of.contains_key(self.hkey[h])
                && self.hdr_of[self.hkey[h]] == h
        &&& forall|r: int, e: u64|
            0 <= r < rows.len() && #[trigger] rows[r].contains(e) ==> self.relem[r].contains(e)
        &&& forall|r: int, j: int|
            0 <= r < rows.len() && 0 <= j < self.relem[r].len() ==> rows[r].contains(
                #[trigger] self.relem[r][j],
            ) && self.hdr_of.contains_key(self.relem[r][j])
        &&& forall|r: int|
            0 <= r < rows.len() ==> (#[trigger] self.rring[r]).len() == self.relem[r].len()
                && self.relem[r].no_duplicates() && (self.rring[r].len() > 0 ==> ring(
                g,
                self.rring[r],
                false,
            ))
        &&& forall|r: int, j: int|
            0 <= r < rows.len() && 0 <= j < self.rring[r].len() ==> #[trigger] self.data_ok(
                g,
                r,
                j,
            )
        &&& forall|x: int| #[trigger]
            self.loc.contains_key(x) ==> 0 <= self.loc[x].0 < rows.len() && 0 <= self.loc[x].1
                < self.rring[self.loc[x].0].len() && self.rring[self.loc[x].0][self.loc[x].1]
                == x
        &&& forall|r1: int, j1: int, r2: int, j2: int|
            0 <= r1 < r2 < rows.len() && 0 <= j1 < self.rring[r1].len() && 0 <= j2 < self.rring[r2].len()
                ==> #[trigger] self.rring[r1][j1] < #[trigger] self.rring[r2][j2]
        &&& forall|e1: u64, e2: u64|
            self.hdr_of.contains_key(e1) && self.hdr_of.contains_key(e2) && #[trigger] self.hdr_of[e1]
                < #[trigger] self.hdr_of[e2] ==> seen_before(self.relem, e1, e2)
    }

    /// Every element that has a column lies in some row.
    pub open spec fn univ_ok(&self) -> bool {
        forall|e: u64|
            #[trigger] self.hdr_of.contains_key(e) ==> exists|r: int|
                0 <= r < self.rows.len() && #[trigger] self.rows[r].contains(e)
    }

    /// Node `x` is a data node of element `e`, in a row of `rs`.
    pub open spec fn in_col(&self, x: int, e: u64, rs: Set<int>) -> bool {
        &&& self.loc.contains_key(x)
        &&& self.relem[self.loc[x].0][self.loc[x].1] == e
        &&& rs.contains(self.loc[x].0)
    }

    /// The column of `e` is a ring of its header and of the nodes of exactly
    /// the rows of `rs` that hold `e`, and its size counts them.
    pub open spec fn col_ok(&self, vr: Map<u64, Seq<int>>, g: Seq<NodeData>, e: u64, rs: Set<int>) -> bool {
        &&& vr.contains_key(e)
        &&& self.col_seq_ok(vr[e], g, e, rs)
    }

    /// `s` is the column of `e` as `col_ok` describes it.
    pub open spec fn col_seq_ok(&self, s: Seq<int>, g: Seq<NodeData>, e: u64, rs: Set<int>) -> bool {
        &&& ring(g, s, true)
        &&& s[0] == self.hdr_of[e]
        &&& g[self.hdr_of[e]].size_or_ix == s.len() - 1
        &&& forall|i: int| 1 <= i < s.len() ==> #[trigger] self.in_col(s[i], e, rs)
        &&& forall|r: int, j: int|
            0 <= r < self.rows.len() && 0 <= j < self.relem[r].len() && self.relem[r][j] == e
                && rs.contains(r) ==> s.contains(#[trigger] self.rring[r][j])
        &&& increasing_tail(s)
    }

    /// The rows that the column of `e` holds while a cover is under way: those
    /// of `base`, but for the rows of `gone`, and but for row `rd` in the
    /// columns of `done`.
    pub open spec fn col_rows(
        &self,
        e: u64,
        base: Set<int>,
        gone: Set<int>,
        rd: int,
        done: Set<u64>,
    ) -> Set<int> {
        Set::new(|r: int| base.contains(r) && !gone.contains(r) && !(r == rd && done.contains(e)))
    }

    /// Every column outside `k` is as `col_ok` says, with the rows of `col_rows`.
    #[verifier::opaque]
    pub open spec fn cols_ok(
        &self,
        vr: Map<u64, Seq<int>>,
        g: Seq<NodeData>,
        k: Set<u64>,
        base: Set<int>,
        gone: Set<int>,
        rd: int,
        done: Set<u64>,
    ) -> bool {
        forall|e: u64|
            self.hdr_of.contains_key(e) && !k.contains(e) ==> #[trigger] self.col_ok(
                vr,
                g,
                e,
                self.col_rows(e, base, gone, rd, done),
            )
    }

    /// The root's ring holds the root and the headers of exactly the elements outside `k`.
    #[verifier::opaque]
    pub open spec fn hring_ok(&self, hr: Seq<int>, g: Seq<NodeData>, k: Set<u64>) -> bool {
        let s = hr;
        &&& ring(g, s, false)
        &&& s[0] == 0
        &&& forall|i: int|
            1 <= i < s.len() ==> self.hkey.contains_key(#[trigger] s[i]) && !k.contains(
                self.hkey[s[i]],
            )
        &&& forall|e: u64|
            self.hdr_of.contains_key(e) && !k.contains(e) ==> s.contains(
                #[trigger] self.hdr_of[e],
            )
        &&& increasing_tail(s)
    }

    pub proof fn lemma_layout_frame(&self, g: Seq<NodeData>, h: Seq<NodeData>)
        requires
            self.layout(g),
            static_same(g, h),
        ensures
            self.layout(h),
    {
        reveal(Shape::layout);
        assert forall|r: int| 0 <= r < self.rows.len() implies (#[trigger] self.rring[r]).len()
            == self.relem[r].len() && self.relem[r].no_duplicates() && (self.rring[r].len() > 0
            ==> ring(h, self.rring[r], false)) by {
            let s = self.rring[r];
            if s.len() > 0 {
                assert(ring(g, s, false));
                assert forall|i: int| 0 <= i < s.len() implies nxt(#[trigger] h[s[i]], false) == nxt(
                    g[s[i]],
                    false,
                ) && prv(h[s[i]], false) == prv(g[s[i]], false) by {
                    assert(self.data_ok(g, r, i));
                }
                assert(same_links(g, h, s, false));
                lemma_ring_frame(g, h, s, false);
            }
        }
        assert forall|r: int, j: int|
            0 <= r < self.rows.len() && 0 <= j < self.rring[r].len() implies #[trigger] self.data_ok(
            h,
            r,
            j,
        ) by {
            assert(self.data_ok(g, r, j));
        }
        assert forall|e: u64| #[trigger]
            self.hdr_of.contains_key(e) implies 0 < self.hdr_of[e] < h.len()
            && h[self.hdr_of[e]].header is None && self.hkey.contains_key(self.hdr_of[e])
            && self.hkey[self.hdr_of[e]] == e by {
            assert(h[self.hdr_of[e]].header == g[self.hdr_of[e]].header);
        }
        assert(h[0].header == g[0].header);
        assert forall|x: int| #[trigger]
            self.loc.contains_key(x) implies 0 <= self.loc[x].0 < self.rows.len() && 0 <= self.loc[x].1
                < self.rring[self.loc[x].0].len() && self.rring[self.loc[x].0][self.loc[x].1]
                == x by {}
        assert forall|r: int, e: u64|
            0 <= r < self.rows.len() && #[trigger] self.rows[r].contains(e) implies self.relem[r].contains(e) by {}
    }

    /// Two distinct columns share no node.
    pub proof fn lemma_cols_disjoint(
        &self,
        vr: Map<u64, Seq<int>>,
        g: Seq<NodeData>,
        e: u64,
        rs: Set<int>,
        f: u64,
        ts: Set<int>,
        x: int,
    )
        requires
            self.layout(g),
            self.hdr_of.contains_key(e),
            self.hdr_of.contains_key(f),
            self.col_ok(vr, g, e, rs),
            self.col_ok(vr, g, f, ts),
            e != f,
            vr[e].contains(x),
        ensures
            !vr[f].contains(x),
    {
        reveal(Shape::layout);
        let s = vr[e];
        let t = vr[f];
        if t.contains(x) {
            let i = choose|i: int| 0 <= i < s.len() && s[i] == x;
            let k = choose|k: int| 0 <= k < t.len() && t[k] == x;
            if i == 0 && k == 0 {
                assert(self.hkey[self.hdr_of[e]] == e);
            } else if i == 0 {
                assert(self.in_col(t[k], f, ts));
                let l = self.loc[x];
                assert(self.data_ok(g, l.0, l.1));
            } else if k == 0 {
                assert(self.in_col(s[i], e, rs));
                let l = self.loc[x];
                assert(self.data_ok(g, l.0, l.1));
            } else {
                assert(self.in_col(s[i], e, rs));
                assert(self.in_col(t[k], f, ts));
            }
        }
    }

    /// A column stays as it was when the links and sizes at its nodes stay.
    pub proof fn lemma_col_frame(
        &self,
        vr: Map<u64, Seq<int>>,
        g: Seq<NodeData>,
        h: Seq<NodeData>,
        e: u64,
        rs: Set<int>,
    )
        requires
            self.col_ok(vr, g, e, rs),
            h.len() >= g.len(),
            same_links(g, h, vr[e], true),
            h[self.hdr_of[e]].size_or_ix == g[self.hdr_of[e]].size_or_ix,
        ensures
            self.col_ok(vr, h, e, rs),
    {
        lemma_ring_frame(g, h, vr[e], true);
    }

    /// Only the rows that hold `e` matter to the column of `e`.
    pub proof fn lemma_col_rows_equiv(&self, vr: Map<u64, Seq<int>>, g: Seq<NodeData>, e: u64, rs: Set<int>, ts: Set<int>)
        requires
            self.layout(g),
            self.col_ok(vr, g, e, rs),
            forall|r: int|
                0 <= r < self.rows.len() && #[trigger] self.rows[r].contains(e) ==> (rs.contains(r)
                    <==> ts.contains(r)),
        ensures
            self.col_ok(vr, g, e, ts),
    {
        reveal(Shape::layout);
        let s = vr[e];
        assert forall|i: int| 1 <= i < s.len() implies #[trigger] self.in_col(s[i], e, ts) by {
            assert(self.in_col(s[i], e, rs));
            let l = self.loc[s[i]];
            assert(self.rows[l.0].contains(self.relem[l.0][l.1]));
        }
        assert forall|r: int, j: int|
            0 <= r < self.rows.len() && 0 <= j < self.relem[r].len() && self.relem[r][j] == e
                && ts.contains(r) implies s.contains(#[trigger] self.rring[r][j]) by {
            assert(self.rows[r].contains(self.relem[r][j]));
        }
    }
}

/// Each logged unlink was a `step` on the state before it, and the last one
/// led to the present state `g`.
#[verifier::opaque]
pub open spec fn log_ok(log: Seq<usize>, hist: Seq<Seq<NodeData>>, g: Seq<NodeData>) -> bool {
    let n = log.len() as int;
    &&& hist.len() == n
    &&& forall|i: int|
        0 <= i < n ==> (#[trigger] hist[i]).len() == g.len() && step_ok(hist[i], log[i] as int)
            && step(hist[i], log[i] as int) == (if i + 1 < n {
            hist[i + 1]
        } else {
            g
        })
}

impl Matrix {
    /// The matrix invariant: the matrix is the dancing-links form of its rows
    /// with the elements of `covered` taken out.
    pub open spec fn wf(&self) -> bool {
        let g = self.g();
        let k = self.covered@;
        let sh = self.shape@;
        &&& sh.layout(g)
        &&& sh.hring_ok(self.hring@, g, k)
        &&& sh.cols_ok(self.vring@, g, k, sh.alive(k), Set::empty(), -1, Set::empty())
        &&& log_ok(self.log@, self.hist@, g)
    }
}

} // verus!
