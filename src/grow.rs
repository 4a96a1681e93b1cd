//! Growing the matrix one column or one cell at a time.
use crate::arena::{pool_alloc, pool_len};
use crate::inv::{lemma_seen_absent, lemma_seen_append, lemma_seen_empty_row, log_ok, seen_before, static_same, Shape};
use crate::matrix::{inc_at, Matrix};
use crate::node::NodeData;
use crate::ring::{
    insert_before, lemma_insert_fields, lemma_insert_ring, lemma_ring_frame, lemma_ring_len, lemma_ring_step, nxt, prv, ring,
    same_links,
};
use vstd::prelude::*;

verus! {

impl Matrix {
    /// The state of a matrix that is still being built.
    pub open spec fn building(&self) -> bool {
        &&& self.wf()
        &&& self.covered@ == Set::<u64>::empty()
        &&& self.log@.len() == 0
    }

    /// Allocates a node that points to itself.
    fn alloc_self_loop(&mut self, header: Option<usize>, size_or_ix: usize) -> (x: usize)
        requires
            old(self).g().len() + 1 < usize::MAX,
        ensures
            x == old(self).g().len(),
            final(self).g() == old(self).g().push(NodeData::spec_self_loop(x, header, size_or_ix)),
            final(self).same_frame(old(self)),
    {
        let x = pool_len(&self.pool);
        pool_alloc(&mut self.pool, NodeData::self_loop(x, header, size_or_ix));
        x
    }

    /// Adds the column of element `e`, whose header goes last on the root's ring.
    pub fn add_column(&mut self, e: u64) -> (h: usize)
        requires
            old(self).building(),
            old(self).shape@.univ_ok(),
            !old(self).shape@.hdr_of.contains_key(e),
            old(self).g().len() + 2 < usize::MAX,
        ensures
            final(self).building(),
            final(self).shape@ == (Shape {
                hdr_of: old(self).shape@.hdr_of.insert(e, h as int),
                hkey: old(self).shape@.hkey.insert(h as int, e),
                ..old(self).shape@
            }),
            final(self).g().len() == old(self).g().len() + 1,
            h == old(self).g().len(),
            final(self).hring@ == old(self).hring@.push(h as int),
            final(self).vring@ == old(self).vring@.insert(e, seq![h as int]),
    {
        proof {
            reveal(Shape::layout);
            reveal(Shape::cols_ok);
            reveal(Shape::hring_ok);
            reveal(log_ok);
        }
        let ghost g0 = self.g();
        let ghost s0 = self.shape@;
        let ghost k = Set::<u64>::empty();
        let h = self.alloc_self_loop(None, 0);
        let ghost g1 = self.g();
        let ghost s1 = Shape {
            hdr_of: s0.hdr_of.insert(e, h as int),
            hkey: s0.hkey.insert(h as int, e),
            ..s0
        };
        proof {
            self.shape = Ghost(s1);
            self.vring = Ghost(self.vring@.insert(e, seq![h as int]));
            assert forall|r: int, j: int|
                0 <= r < s1.rows.len() && 0 <= j < s1.rring[r].len() implies #[trigger] s1.data_ok(
                g1,
                r,
                j,
            ) by {
                assert(s0.data_ok(g0, r, j));
                assert(s0.hdr_of.contains_key(s0.relem[r][j]));
            }
            assert forall|r: int| 0 <= r < s1.rows.len() implies (#[trigger] s1.rring[r]).len()
                == s1.relem[r].len() && s1.relem[r].no_duplicates() && (s1.rring[r].len() > 0
                ==> ring(g1, s1.rring[r], false)) by {
                if s1.rring[r].len() > 0 {
                    lemma_ring_frame(g0, g1, s1.rring[r], false);
                }
            }
            assert forall|hh: int| #[trigger]
                s1.hkey.contains_key(hh) implies s1.hdr_of.contains_key(s1.hkey[hh])
                && s1.hdr_of[s1.hkey[hh]] == hh by {
                if hh != h {
                    assert(s0.hkey.contains_key(hh));
                    assert(s0.hdr_of[s0.hkey[hh]] == hh);
                    assert(s0.hdr_of.contains_key(s0.hkey[hh]));
                    assert(s0.hdr_of[s0.hkey[hh]] < g0.len());
                }
            }
            assert forall|e1: u64, e2: u64|
                s1.hdr_of.contains_key(e1) && s1.hdr_of.contains_key(e2) && #[trigger] s1.hdr_of[e1]
                    < #[trigger] s1.hdr_of[e2] implies seen_before(s1.relem, e1, e2) by {
                if e2 == e {
                    assert(e1 != e);
                    let r = choose|r: int| 0 <= r < s0.rows.len() && #[trigger] s0.rows[r].contains(e1);
                    assert(s0.relem[r].contains(e1));
                    let j = choose|j: int| 0 <= j < s0.relem[r].len() && s0.relem[r][j] == e1;
                    assert forall|r2: int| 0 <= r2 < s0.relem.len() implies !s0.relem[r2].contains(e) by {
                        if s0.relem[r2].contains(e) {
                            let j2 = choose|j2: int| 0 <= j2 < s0.relem[r2].len() && s0.relem[r2][j2] == e;
                            assert(s0.hdr_of.contains_key(s0.relem[r2][j2]));
                        }
                    }
                    lemma_seen_absent(s0.relem, e1, e, r, j);
                } else if e1 == e {
                    assert(s0.hdr_of[e2] < g0.len());
                } else {
                    assert(s0.hdr_of[e1] < s0.hdr_of[e2]);
                }
            }
            assert(s1.layout(g1));
            lemma_ring_frame(g0, g1, self.hring@, false);
        }
        let ghost hr = self.hring@;
        self.insert_before(0, h, false);
        let ghost g2 = self.g();
        proof {
            lemma_insert_fields(g1, 0, h as int, false);
            assert(!hr.contains(h as int));
            lemma_insert_ring(g1, g2, hr, h as int, false);
            self.hring = Ghost(hr.push(h as int));
            assert(static_same(g1, g2));
            s1.lemma_layout_frame(g1, g2);
            let al = s1.alive(k);
            let vr = self.vring@;
            assert(s0.alive(k) == al);
            assert forall|f: u64|
                s1.hdr_of.contains_key(f) && !k.contains(f) implies #[trigger] s1.col_ok(
                vr,
                g2,
                f,
                s1.col_rows(f, al, Set::empty(), -1, Set::empty()),
            ) by {
                let rs = s1.col_rows(f, al, Set::empty(), -1, Set::empty());
                if f == e {
                    assert(ring(g2, seq![h as int], true));
                    assert forall|r: int, j: int|
                        0 <= r < s1.rows.len() && 0 <= j < s1.relem[r].len() && s1.relem[r][j] == f
                            && rs.contains(r) implies vr[f].contains(#[trigger] s1.rring[r][j]) by {
                        assert(s0.hdr_of.contains_key(s0.relem[r][j]));
                    }
                } else {
                    assert(s0.col_rows(f, s0.alive(k), Set::empty(), -1, Set::empty()) == rs);
                    assert(s0.col_ok(old(self).vring@, g0, f, rs));
                    let s = vr[f];
                    assert(same_links(g0, g2, s, true));
                    assert(g2[s1.hdr_of[f]].size_or_ix == g0[s1.hdr_of[f]].size_or_ix);
                    lemma_ring_frame(g0, g2, s, true);
                    assert forall|i: int| 1 <= i < s.len() implies #[trigger] s1.in_col(s[i], f, rs) by {
                        assert(s0.in_col(s[i], f, rs));
                    }
                }
            }
            assert forall|i: int|
                1 <= i < self.hring@.len() implies s1.hkey.contains_key(#[trigger] self.hring@[i])
                && !k.contains(s1.hkey[self.hring@[i]]) by {
                if i < hr.len() {
                    assert(s0.hkey.contains_key(hr[i]));
                }
            }
            assert forall|f: u64|
                s1.hdr_of.contains_key(f) && !k.contains(f) implies self.hring@.contains(
                #[trigger] s1.hdr_of[f],
            ) by {
                if f == e {
                    assert(self.hring@[hr.len() as int] == h);
                } else {
                    assert(hr.contains(s0.hdr_of[f]));
                    let i = choose|i: int| 0 <= i < hr.len() && hr[i] == s0.hdr_of[f];
                    assert(self.hring@[i] == hr[i]);
                }
            }
        }
        h
    }
}

/// What adding a cell at the end of row `ri` and at the bottom of column `e`
/// changed between `g0` and `g4`.
pub open spec fn cell_frame(
    s0: Shape,
    col: Seq<int>,
    g0: Seq<NodeData>,
    g4: Seq<NodeData>,
    x: int,
    ri: int,
    h: int,
) -> bool {
    &&& g4.len() == g0.len() + 1
    &&& x == g0.len()
    &&& g4[x].header == Some(h as usize)
    &&& g4[x].size_or_ix == ri
    &&& forall|k: int|
        0 <= k < g0.len() ==> (#[trigger] g4[k]).header == g0[k].header && (k != h
            ==> g4[k].size_or_ix == g0[k].size_or_ix)
    &&& forall|k: int|
        0 <= k < g0.len() && !s0.rring[ri].contains(k) ==> nxt(#[trigger] g4[k], false) == nxt(
            g0[k],
            false,
        ) && prv(g4[k], false) == prv(g0[k], false)
    &&& forall|k: int|
        0 <= k < g0.len() && !col.contains(k) ==> nxt(#[trigger] g4[k], true) == nxt(g0[k], true)
            && prv(g4[k], true) == prv(g0[k], true)
    &&& ring(g4, s0.rring[ri].push(x), false)
    &&& ring(g4, col.push(x), true)
    &&& g4[h].size_or_ix == g0[h].size_or_ix + 1
}

/// The shape after a cell for `e` is added at the end of row `ri`.
pub open spec fn shape_with_cell(s0: Shape, ri: int, e: u64, x: int) -> Shape {
    Shape {
        rows: s0.rows.update(ri, s0.rows[ri].insert(e)),
        relem: s0.relem.update(ri, s0.relem[ri].push(e)),
        rring: s0.rring.update(ri, s0.rring[ri].push(x)),
        loc: s0.loc.insert(x, (ri, s0.relem[ri].len() as int)),
        ..s0
    }
}

/// The order facts of the layout survive adding a cell at the end of the last row.
pub proof fn lemma_cell_order(s0: Shape, g0: Seq<NodeData>, x: int, ri: int, e: u64)
    requires
        s0.layout(g0),
        0 <= ri,
        ri == s0.rows.len() - 1,
        x == g0.len(),
    ensures
        ({
            let s1 = shape_with_cell(s0, ri, e, x);
            &&& forall|r1: int, j1: int, r2: int, j2: int|
                0 <= r1 < r2 < s1.rows.len() && 0 <= j1 < s1.rring[r1].len() && 0 <= j2 < s1.rring[r2].len()
                    ==> #[trigger] s1.rring[r1][j1] < #[trigger] s1.rring[r2][j2]
            &&& forall|e1: u64, e2: u64|
                s1.hdr_of.contains_key(e1) && s1.hdr_of.contains_key(e2) && #[trigger] s1.hdr_of[e1]
                    < #[trigger] s1.hdr_of[e2] ==> seen_before(s1.relem, e1, e2)
        }),
{
    reveal(Shape::layout);
    let s1 = shape_with_cell(s0, ri, e, x);
    assert forall|r1: int, j1: int, r2: int, j2: int|
        0 <= r1 < r2 < s1.rows.len() && 0 <= j1 < s1.rring[r1].len() && 0 <= j2 < s1.rring[r2].len()
            implies #[trigger] s1.rring[r1][j1] < #[trigger] s1.rring[r2][j2] by {
        assert(s1.rows.len() == s0.rows.len());
        assert(r1 < ri);
        assert(s0.rring.len() == s0.rows.len());
        assert(s1.rring == s0.rring.update(ri, s0.rring[ri].push(x)));
        assert(s1.rring[r1] == s0.rring[r1]);
        assert(s0.data_ok(g0, r1, j1));
        if r2 == ri && j2 == s0.rring[ri].len() {
            assert(s1.rring[r2][j2] == x);
        } else {
            assert(s1.rring[r2][j2] == s0.rring[r2][j2]);
            assert(s0.rring[r1][j1] < s0.rring[r2][j2]);
        }
    }
    assert forall|e1: u64, e2: u64|
        s1.hdr_of.contains_key(e1) && s1.hdr_of.contains_key(e2) && #[trigger] s1.hdr_of[e1]
            < #[trigger] s1.hdr_of[e2] implies seen_before(s1.relem, e1, e2) by {
        assert(seen_before(s0.relem, e1, e2));
        lemma_seen_append(s0.relem, e, e1, e2);
        assert(s1.relem == s0.relem.update(s0.relem.len() - 1, s0.relem.last().push(e)));
    }
}

pub proof fn lemma_cell_layout(s0: Shape, col: Seq<int>, g0: Seq<NodeData>, g4: Seq<NodeData>, x: int, ri: int, e: u64, h: int)
    requires
        s0.layout(g0),
        ri == s0.rows.len() - 1,
        cell_frame(s0, col, g0, g4, x, ri, h),
        0 <= ri < s0.rows.len(),
        s0.hdr_of.contains_key(e),
        s0.hdr_of[e] == h,
        !s0.relem[ri].contains(e),
        g4.len() < usize::MAX,
    ensures
        shape_with_cell(s0, ri, e, x).layout(g4),
{
    lemma_cell_order(s0, g0, x, ri, e);
    reveal(Shape::layout);
    reveal(Shape::cols_ok);
    reveal(Shape::hring_ok);
    let s1 = shape_with_cell(s0, ri, e, x);
    let pos = s0.relem[ri].len() as int;
    assert forall|q: int| 0 <= q < s1.rows.len() implies (#[trigger] s1.rring[q]).len()
        == s1.relem[q].len() && s1.relem[q].no_duplicates() && (s1.rring[q].len() > 0
        ==> ring(g4, s1.rring[q], false)) by {
        if q != ri && s0.rring[q].len() > 0 {
            assert forall|i: int| 0 <= i < s0.rring[q].len() implies nxt(#[trigger] g4[s0.rring[q][i]], false) == nxt(g0[s0.rring[q][i]], false)
                && prv(g4[s0.rring[q][i]], false) == prv(g0[s0.rring[q][i]], false) by {
                let y = s0.rring[q][i];
                assert(s0.data_ok(g0, q, i));
                if s0.rring[ri].contains(y) {
                    let j = choose|j: int| 0 <= j < s0.rring[ri].len() && s0.rring[ri][j] == y;
                    assert(s0.data_ok(g0, ri, j));
                }
            }
            lemma_ring_frame(g0, g4, s0.rring[q], false);
        }
        if q == ri {
            assert(s1.relem[q].no_duplicates());
        }
    }
    assert forall|q: int, j: int|
        0 <= q < s1.rows.len() && 0 <= j < s1.rring[q].len() implies #[trigger] s1.data_ok(
        g4,
        q,
        j,
    ) by {
        if !(q == ri && j == pos) {
            assert(s0.data_ok(g0, q, j));
            assert(s0.hdr_of.contains_key(s0.relem[q][j]));
            assert(g0[s0.hdr_of[s0.relem[q][j]]].header is None);
        }
    }
    assert forall|q: int, j: int|
        0 <= q < s1.rows.len() && 0 <= j < s1.relem[q].len() implies s1.rows[q].contains(
        #[trigger] s1.relem[q][j],
    ) && s1.hdr_of.contains_key(s1.relem[q][j]) by {
        if !(q == ri && j == pos) {
            assert(s0.rows[q].contains(s0.relem[q][j]));
        }
    }
    assert forall|q: int, f: u64|
        0 <= q < s1.rows.len() && #[trigger] s1.rows[q].contains(f) implies s1.relem[q].contains(f) by {
        if q == ri && f != e {
            assert(s0.rows[q].contains(f));
            let j = choose|j: int| 0 <= j < s0.relem[q].len() && s0.relem[q][j] == f;
            assert(s1.relem[q][j] == f);
        } else if q == ri {
            assert(s1.relem[q][pos] == f);
        }
    }
    assert forall|y: int| #[trigger]
        s1.loc.contains_key(y) implies 0 <= s1.loc[y].0 < s1.rows.len() && 0 <= s1.loc[y].1
            < s1.rring[s1.loc[y].0].len() && s1.rring[s1.loc[y].0][s1.loc[y].1] == y by {
        if y != x {
            assert(s0.loc.contains_key(y));
        }
    }
    assert forall|f: u64| #[trigger]
        s1.hdr_of.contains_key(f) implies 0 < s1.hdr_of[f] < g4.len() && g4[s1.hdr_of[f]].header is None
            && s1.hkey.contains_key(s1.hdr_of[f]) && s1.hkey[s1.hdr_of[f]] == f by {
        assert(g4[s1.hdr_of[f]].header == g0[s1.hdr_of[f]].header);
    }
    assert(g4[0].header == g0[0].header);
}

pub proof fn lemma_cell_hring(s0: Shape, hr: Seq<int>, col: Seq<int>, g0: Seq<NodeData>, g4: Seq<NodeData>, x: int, ri: int, e: u64, h: int)
    requires
        s0.layout(g0),
        s0.hring_ok(hr, g0, Set::empty()),
        cell_frame(s0, col, g0, g4, x, ri, h),
        0 <= ri < s0.rows.len(),
    ensures
        shape_with_cell(s0, ri, e, x).hring_ok(hr, g4, Set::empty()),
{
    reveal(Shape::layout);
    reveal(Shape::cols_ok);
    reveal(Shape::hring_ok);
    assert forall|i: int| 0 <= i < hr.len() implies nxt(#[trigger] g4[hr[i]], false) == nxt(g0[hr[i]], false)
        && prv(g4[hr[i]], false) == prv(g0[hr[i]], false) by {
        if s0.rring[ri].contains(hr[i]) {
            let j = choose|j: int| 0 <= j < s0.rring[ri].len() && s0.rring[ri][j] == hr[i];
            assert(s0.data_ok(g0, ri, j));
            if i > 0 {
                assert(s0.hkey.contains_key(hr[i]));
                assert(s0.hdr_of.contains_key(s0.hkey[hr[i]]));
            }
        }
    }
    lemma_ring_frame(g0, g4, hr, false);
    assert(shape_with_cell(s0, ri, e, x).hkey == s0.hkey);
    assert(shape_with_cell(s0, ri, e, x).hdr_of == s0.hdr_of);
}

pub proof fn lemma_cell_cols(s0: Shape, vr0: Map<u64, Seq<int>>, g0: Seq<NodeData>, g4: Seq<NodeData>, x: int, ri: int, e: u64, h: int)
    requires
        s0.layout(g0),
        s0.cols_ok(vr0, g0, Set::empty(), s0.alive(Set::empty()), Set::empty(), -1, Set::empty()),
        cell_frame(s0, vr0[e], g0, g4, x, ri, h),
        0 <= ri < s0.rows.len(),
        s0.hdr_of.contains_key(e),
        s0.hdr_of[e] == h,
        !s0.relem[ri].contains(e),
    ensures
        ({
            let s1 = shape_with_cell(s0, ri, e, x);
            s1.cols_ok(vr0.insert(e, vr0[e].push(x)), g4, Set::empty(), s1.alive(Set::empty()), Set::empty(), -1, Set::empty())
        }),
{
    reveal(Shape::layout);
    reveal(Shape::cols_ok);
    reveal(Shape::hring_ok);
    let s1 = shape_with_cell(s0, ri, e, x);
    let k = Set::<u64>::empty();
    let rs = s0.alive(k);
    let col = vr0[e];
    let col2 = col.push(x);
    let vr = vr0.insert(e, col2);
    let pos = s0.relem[ri].len() as int;
    assert(s1.alive(k) == rs);
    assert(s0.col_rows(e, rs, Set::empty(), -1, Set::empty()) == rs);
    assert(s0.col_ok(vr0, g0, e, rs));
    assert forall|f: u64|
        s1.hdr_of.contains_key(f) && !k.contains(f) implies #[trigger] s1.col_ok(
        vr,
        g4,
        f,
        s1.col_rows(f, rs, Set::empty(), -1, Set::empty()),
    ) by {
        assert(s1.col_rows(f, rs, Set::empty(), -1, Set::empty()) == rs);
        assert(s0.col_rows(f, rs, Set::empty(), -1, Set::empty()) == rs);
        assert(s0.col_ok(vr0, g0, f, rs));
        if f == e {
            assert forall|i: int| 1 <= i < col2.len() implies #[trigger] s1.in_col(col2[i], f, rs) by {
                if i < col.len() {
                    assert(s0.in_col(col[i], f, rs));
                }
            }
            assert forall|q: int, j: int|
                0 <= q < s1.rows.len() && 0 <= j < s1.relem[q].len() && s1.relem[q][j] == f
                    && rs.contains(q) implies col2.contains(#[trigger] s1.rring[q][j]) by {
                if q == ri && j == pos {
                    assert(col2[col.len() as int] == x);
                } else {
                    assert(col.contains(s0.rring[q][j]));
                    let i = choose|i: int| 0 <= i < col.len() && col[i] == s0.rring[q][j];
                    assert(col2[i] == col[i]);
                }
            }
        } else {
            let cf = vr0[f];
            assert forall|i: int| 0 <= i < cf.len() implies nxt(#[trigger] g4[cf[i]], true) == nxt(g0[cf[i]], true)
                && prv(g4[cf[i]], true) == prv(g0[cf[i]], true) by {
                assert(cf.contains(cf[i]));
                if col.contains(cf[i]) {
                    s0.lemma_cols_disjoint(vr0, g0, e, rs, f, rs, cf[i]);
                }
            }
            lemma_ring_frame(g0, g4, cf, true);
            assert(s1.hdr_of[f] != h);
            assert forall|i: int| 1 <= i < cf.len() implies #[trigger] s1.in_col(cf[i], f, rs) by {
                assert(s0.in_col(cf[i], f, rs));
            }
            assert forall|q: int, j: int|
                0 <= q < s1.rows.len() && 0 <= j < s1.relem[q].len() && s1.relem[q][j] == f
                    && rs.contains(q) implies cf.contains(#[trigger] s1.rring[q][j]) by {
                if !(q == ri && j == pos) {
                    assert(s0.relem[q][j] == f);
                }
            }
        }
    }
}

pub proof fn lemma_cell_frame(
    s0: Shape,
    col: Seq<int>,
    g0: Seq<NodeData>,
    g1: Seq<NodeData>,
    g2: Seq<NodeData>,
    g3: Seq<NodeData>,
    g4: Seq<NodeData>,
    x: int,
    ri: int,
    h: int,
)
    requires
        s0.layout(g0),
        0 <= ri < s0.rows.len(),
        x == g0.len(),
        g1 == g0.push(NodeData::spec_self_loop(x as usize, Some(h as usize), ri as usize)),
        g2 == (if s0.rring[ri].len() > 0 {
            insert_before(g1, s0.rring[ri][0], x, false)
        } else {
            g1
        }),
        g3 == insert_before(g2, h, x, true),
        g4 == inc_at(g3, h),
        ring(g0, col, true),
        col[0] == h,
        g4.len() < usize::MAX,
        0 < h < g0.len(),
        g0[h].size_or_ix < g0.len(),
        ri <= usize::MAX,
    ensures
        cell_frame(s0, col, g0, g4, x, ri, h),
{
    reveal(Shape::layout);
    let rw = s0.rring[ri];
    lemma_ring_frame(g0, g1, col, true);
    if rw.len() > 0 {
        lemma_ring_frame(g0, g1, rw, false);
        assert(s0.data_ok(g0, ri, 0));
        lemma_insert_fields(g1, rw[0], x, false);
        assert(!rw.contains(x));
        lemma_insert_ring(g1, g2, rw, x, false);
    } else {
        assert(rw.push(x) == seq![x]);
    }
    assert forall|i: int| 0 <= i < col.len() implies nxt(#[trigger] g2[col[i]], true) == nxt(g1[col[i]], true)
        && prv(g2[col[i]], true) == prv(g1[col[i]], true) by {
    }
    lemma_ring_frame(g1, g2, col, true);
    assert(!col.contains(x));
    lemma_insert_fields(g2, h, x, true);
    lemma_insert_ring(g2, g3, col, x, true);
    let col2 = col.push(x);
    lemma_ring_frame(g3, g4, col2, true);
    let rw2 = rw.push(x);
    assert forall|i: int| 0 <= i < rw2.len() implies nxt(#[trigger] g4[rw2[i]], false) == nxt(g2[rw2[i]], false)
        && prv(g4[rw2[i]], false) == prv(g2[rw2[i]], false) by {}
    lemma_ring_frame(g2, g4, rw2, false);
    assert forall|k: int|
        0 <= k < g0.len() && !s0.rring[ri].contains(k) implies nxt(#[trigger] g4[k], false) == nxt(
            g0[k],
            false,
        ) && prv(g4[k], false) == prv(g0[k], false) by {
        if rw.len() > 0 {
            assert(rw.contains(rw[0]));
            assert(rw.contains(rw.last()));
        }
    }
    assert forall|k: int|
        0 <= k < g0.len() && !col.contains(k) implies nxt(#[trigger] g4[k], true) == nxt(g0[k], true)
            && prv(g4[k], true) == prv(g0[k], true) by {
        assert(col.contains(col[0]));
        assert(col.contains(col.last()));
    }
    assert forall|k: int|
        0 <= k < g0.len() implies (#[trigger] g4[k]).header == g0[k].header && (k != h
            ==> g4[k].size_or_ix == g0[k].size_or_ix) by {
        assert(g2[k].header == g1[k].header);
        assert(g3[k].header == g2[k].header);
        assert(g2[k].size_or_ix == g1[k].size_or_ix);
        assert(g3[k].size_or_ix == g2[k].size_or_ix);
    }
    assert(g3[h].size_or_ix == g2[h].size_or_ix);
    assert(g2[h].size_or_ix == g1[h].size_or_ix);
    assert(g3[x].header == g2[x].header);
    assert(g2[x].header == g1[x].header);
    assert(g3[x].size_or_ix == g2[x].size_or_ix);
    assert(g2[x].size_or_ix == g1[x].size_or_ix);
    assert(g4.len() == g0.len() + 1);
    assert(g4[x].header == Some(h as usize));
    assert(g4[x].size_or_ix == ri);
    assert(ring(g4, s0.rring[ri].push(x), false));
    assert(ring(g4, col.push(x), true));
    assert(g4[h].size_or_ix == g0[h].size_or_ix + 1);
}

/// What adding a cell needs to know of the column of `e` and of row `ri`.
pub proof fn lemma_cell_pre(s0: Shape, vr0: Map<u64, Seq<int>>, g0: Seq<NodeData>, ri: int, e: u64)
    requires
        s0.layout(g0),
        s0.cols_ok(vr0, g0, Set::empty(), s0.alive(Set::empty()), Set::empty(), -1, Set::empty()),
        0 <= ri < s0.rows.len(),
        s0.hdr_of.contains_key(e),
    ensures
        ring(g0, vr0[e], true),
        vr0[e][0] == s0.hdr_of[e],
        vr0[e].len() <= g0.len(),
        g0[s0.hdr_of[e]].size_or_ix == vr0[e].len() - 1,
        s0.rring[ri].len() > 0 ==> 0 < s0.rring[ri][0] < g0.len() && prv(g0[s0.rring[ri][0]], false) < g0.len(),
        0 < s0.hdr_of[e] < g0.len(),
{
    reveal(Shape::layout);
    reveal(Shape::cols_ok);
    let rs = s0.alive(Set::empty());
    assert(s0.col_rows(e, rs, Set::empty(), -1, Set::empty()) == rs);
    assert(s0.col_ok(vr0, g0, e, rs));
    lemma_ring_len(g0, vr0[e], true);
    if s0.rring[ri].len() > 0 {
        assert(s0.data_ok(g0, ri, 0));
        lemma_ring_step(g0, s0.rring[ri], false, 0);
    }
    lemma_ring_step(g0, vr0[e], true, 0);
}

impl Matrix {
    /// Adds a data node for element `e`, whose header is `h`, at the end of
    /// the last row (`r`) and at the bottom of the column of `e`.
    pub fn add_cell(&mut self, h: usize, r: usize, row_head: Option<usize>, Ghost(e): Ghost<u64>) -> (x: usize)
        requires
            old(self).building(),
            r + 1 == old(self).shape@.rows.len(),
            old(self).shape@.hdr_of.contains_key(e),
            old(self).shape@.hdr_of[e] == h,
            !old(self).shape@.relem[r as int].contains(e),
            old(self).g().len() + 2 < usize::MAX,
            row_head == (if old(self).shape@.rring[r as int].len() == 0 {
                None
            } else {
                Some(old(self).shape@.rring[r as int][0] as usize)
            }),
        ensures
            final(self).building(),
            x == old(self).g().len(),
            final(self).g().len() == old(self).g().len() + 1,
            final(self).shape@ == shape_with_cell(old(self).shape@, r as int, e, x as int),
            final(self).hring@ == old(self).hring@,
            final(self).vring@ == old(self).vring@.insert(e, old(self).vring@[e].push(x as int)),
            final(self).g()[x as int].size_or_ix == r,
    {
        let ghost g0 = self.g();
        let ghost s0 = self.shape@;
        let ghost vr0 = self.vring@;
        let ghost ri = r as int;
        let ghost rs = s0.alive(Set::empty());
        proof {
            lemma_cell_pre(s0, vr0, g0, ri, e);
        }
        let x = self.alloc_self_loop(Some(h), r);
        let ghost g1 = self.g();
        match row_head {
            Some(a) => {
                self.insert_before(a, x, false);
            },
            None => {},
        }
        let ghost g2 = self.g();
        self.insert_before(h, x, true);
        let ghost g3 = self.g();
        self.inc_size(h);
        let ghost g4 = self.g();
        proof {
            lemma_cell_frame(s0, vr0[e], g0, g1, g2, g3, g4, x as int, ri, h as int);
            lemma_cell_layout(s0, vr0[e], g0, g4, x as int, ri, e, h as int);
            lemma_cell_hring(s0, self.hring@, vr0[e], g0, g4, x as int, ri, e, h as int);
            lemma_cell_cols(s0, vr0, g0, g4, x as int, ri, e, h as int);
            self.shape = Ghost(shape_with_cell(s0, ri, e, x as int));
            self.vring = Ghost(vr0.insert(e, vr0[e].push(x as int)));
            reveal(log_ok);
        }
        x
    }
}

} // verus!

verus! {

/// The shape with one more row, still empty.
pub open spec fn shape_with_row(s0: Shape) -> Shape {
    Shape {
        rows: s0.rows.push(Set::empty()),
        rring: s0.rring.push(Seq::empty()),
        relem: s0.relem.push(Seq::empty()),
        ..s0
    }
}

pub proof fn lemma_open_row(s0: Shape, vr: Map<u64, Seq<int>>, hr: Seq<int>, g: Seq<NodeData>)
    requires
        s0.layout(g),
        s0.hring_ok(hr, g, Set::empty()),
        s0.cols_ok(vr, g, Set::empty(), s0.alive(Set::empty()), Set::empty(), -1, Set::empty()),
    ensures
        ({
            let s1 = shape_with_row(s0);
            &&& s1.layout(g)
            &&& s1.hring_ok(hr, g, Set::empty())
            &&& s1.cols_ok(vr, g, Set::empty(), s1.alive(Set::empty()), Set::empty(), -1, Set::empty())
        }),
{
    reveal(Shape::layout);
    reveal(Shape::cols_ok);
    reveal(Shape::hring_ok);
    let s1 = shape_with_row(s0);
    let k = Set::<u64>::empty();
    let n = s0.rows.len() as int;
    assert forall|r: int, j: int|
        0 <= r < s1.rows.len() && 0 <= j < s1.rring[r].len() implies #[trigger] s1.data_ok(
        g,
        r,
        j,
    ) by {
        assert(s0.data_ok(g, r, j));
    }
    assert forall|r: int, e: u64|
        0 <= r < s1.rows.len() && #[trigger] s1.rows[r].contains(e) implies s1.relem[r].contains(e) by {
        assert(s0.relem[r].contains(e));
    }
    assert forall|x: int| #[trigger]
        s1.loc.contains_key(x) implies 0 <= s1.loc[x].0 < s1.rows.len() && 0 <= s1.loc[x].1
            < s1.rring[s1.loc[x].0].len() && s1.rring[s1.loc[x].0][s1.loc[x].1] == x by {
        assert(s0.loc.contains_key(x));
    }
    assert forall|e1: u64, e2: u64|
        s1.hdr_of.contains_key(e1) && s1.hdr_of.contains_key(e2) && #[trigger] s1.hdr_of[e1]
            < #[trigger] s1.hdr_of[e2] implies seen_before(s1.relem, e1, e2) by {
        lemma_seen_empty_row(s0.relem, e1, e2);
    }
    assert(s1.layout(g));
    let rs0 = s0.alive(k);
    let rs1 = s1.alive(k);
    assert forall|f: u64|
        s1.hdr_of.contains_key(f) && !k.contains(f) implies #[trigger] s1.col_ok(
        vr,
        g,
        f,
        s1.col_rows(f, rs1, Set::empty(), -1, Set::empty()),
    ) by {
        assert(s0.col_rows(f, rs0, Set::empty(), -1, Set::empty()) == rs0);
        assert(s1.col_rows(f, rs1, Set::empty(), -1, Set::empty()) == rs1);
        assert(s0.col_ok(vr, g, f, rs0));
        let s = vr[f];
        assert forall|i: int| 1 <= i < s.len() implies #[trigger] s1.in_col(s[i], f, rs1) by {
            assert(s0.in_col(s[i], f, rs0));
        }
        assert forall|r: int, j: int|
            0 <= r < s1.rows.len() && 0 <= j < s1.relem[r].len() && s1.relem[r][j] == f
                && rs1.contains(r) implies s.contains(#[trigger] s1.rring[r][j]) by {
            assert(s0.relem[r][j] == f);
            assert(rs0.contains(r));
        }
    }
}

} // verus!
