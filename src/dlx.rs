//! The dancing-links primitives: covering the columns of a selected row,
//! and undoing it.
use crate::cover::{
    lemma_cell_in_col, lemma_col_node, lemma_col_rows_distinct, lemma_cols_equiv,
    lemma_cover_cell, lemma_cover_header, lemma_hring_has, lemma_inner_end, lemma_loc,
    lemma_log_push, lemma_middle_end, lemma_outer_end, lemma_row_node,
};
use crate::inv::{disjoint_from, log_ok, Shape};
use crate::matrix::{lemma_sizes_trans, lemma_step_sizes, lemma_unstep_ok, sizes_le, Matrix};
use crate::ring::{in_arc, lemma_arc_all_but, lemma_arc_step, lemma_ring_step, ring, wrap};
use vstd::prelude::*;

verus! {

/// Every element of row `r` stands at some position of it.
pub proof fn lemma_row_elems(s: Shape, g: Seq<crate::node::NodeData>, r: int)
    requires
        s.layout(g),
        0 <= r < s.rows.len(),
    ensures
        forall|e: u64| #[trigger] s.rows[r].contains(e) ==> s.relem[r].contains(e),
        forall|j: int| 0 <= j < s.relem[r].len() ==> s.rows[r].contains(#[trigger] s.relem[r][j]),
        s.rring[r].len() == s.relem[r].len(),
{
    reveal(Shape::layout);
}

pub proof fn lemma_log_len(log: Seq<usize>, hist: Seq<Seq<crate::node::NodeData>>, g: Seq<crate::node::NodeData>)
    requires
        log_ok(log, hist, g),
    ensures
        hist.len() == log.len(),
{
    reveal(log_ok);
}

/// The last logged unlink led to the present state, and the log without it
/// describes the state before it.
pub proof fn lemma_log_pop(log: Seq<usize>, hist: Seq<Seq<crate::node::NodeData>>, g: Seq<crate::node::NodeData>)
    requires
        log_ok(log, hist, g),
        log.len() > 0,
    ensures
        hist.len() == log.len(),
        crate::matrix::step_ok(hist[log.len() - 1], log[log.len() - 1] as int),
        crate::matrix::step(hist[log.len() - 1], log[log.len() - 1] as int) == g,
        log_ok(log.drop_last(), hist.drop_last(), hist[log.len() - 1]),
{
    reveal(log_ok);
    let n = log.len() - 1;
    assert(hist[n].len() == g.len());
    let l2 = log.drop_last();
    let h2 = hist.drop_last();
    assert forall|i: int| 0 <= i < n implies (#[trigger] h2[i]).len() == hist[n].len() && crate::matrix::step_ok(h2[i], l2[i] as int)
        && crate::matrix::step(h2[i], l2[i] as int) == (if i + 1 < n {
        h2[i + 1]
    } else {
        hist[n]
    }) by {
        assert(hist[i].len() == g.len());
    }
}

/// The state just before the `i`-th logged unlink, or the present state `g`
/// once `i` reaches the end of the log.
pub open spec fn state_at(hist: Seq<Seq<crate::node::NodeData>>, g: Seq<crate::node::NodeData>, i: int) -> Seq<crate::node::NodeData> {
    if i < hist.len() {
        hist[i]
    } else {
        g
    }
}

/// In every state of the log from just after position `lo` to position
/// `hi`, `col` is a vertical ring and the layout holds.
#[verifier::opaque]
pub open spec fn facts(
    s: Shape,
    hist: Seq<Seq<crate::node::NodeData>>,
    g: Seq<crate::node::NodeData>,
    col: Seq<int>,
    lo: int,
    hi: int,
) -> bool {
    forall|i: int|
        lo < i <= hi ==> ring(#[trigger] state_at(hist, g, i), col, true) && s.layout(state_at(hist, g, i))
}

/// Where `n` stands in `col`.
pub open spec fn pos_in(col: Seq<int>, n: int) -> int {
    choose|p: int| 0 <= p < col.len() && col[p] == n
}

/// The nodes that a cover takes out of their columns for the row of the node
/// at position `jd` of row `rd`: the row's other nodes, walking right.
pub open spec fn row_ops(s: Shape, rd: int, jd: int) -> Seq<usize> {
    let mr = s.rring[rd].len() as int;
    Seq::new((mr - 1) as nat, |w: int| s.rring[rd][wrap(wrap(jd + 1, mr) + w, mr)] as usize)
}

/// The nodes that a cover takes out for the rows met in the first `u` steps
/// down the column ring `col` from position `p`.
pub open spec fn col_ops(s: Shape, col: Seq<int>, p: int, u: int) -> Seq<usize>
    decreases u,
{
    if u <= 0 {
        Seq::empty()
    } else {
        let cl = col.len() as int;
        let q = wrap(wrap(p + 1, cl) + u - 1, cl);
        col_ops(s, col, p, u - 1) + (if q == 0 {
            Seq::empty()
        } else {
            row_ops(s, s.loc[col[q]].0, s.loc[col[q]].1)
        })
    }
}

/// What the cover of the column of node `n`, whose column ring was `col`, logs.
pub open spec fn node_ops(s: Shape, col: Seq<int>, h: int, n: int) -> Seq<usize> {
    seq![h as usize] + col_ops(s, col, pos_in(col, n), col.len() - 1)
}

/// The `t`-th node met walking right from position `j0` of row `r0`.
pub open spec fn row_node(s: Shape, r0: int, j0: int, t: int) -> int {
    s.rring[r0][wrap(j0 + t, s.rring[r0].len() as int)]
}

/// The header of the column of that node.
pub open spec fn row_hdr(s: Shape, r0: int, j0: int, t: int) -> int {
    s.hdr_of[s.relem[r0][wrap(j0 + t, s.rring[r0].len() as int)]]
}

/// What the cover of the row of node `rring[r0][j0]` logs for its first `t`
/// nodes, the column rings met being `cols`.
pub open spec fn cover_ops(s: Shape, r0: int, j0: int, cols: Seq<Seq<int>>, t: int) -> Seq<usize>
    decreases t,
{
    if t <= 0 {
        Seq::empty()
    } else {
        cover_ops(s, r0, j0, cols, t - 1) + node_ops(s, cols[t - 1], row_hdr(s, r0, j0, t - 1), row_node(s, r0, j0, t - 1))
    }
}

/// What a cover logged for its `tt`-th node, from log position `mark` on:
/// the column ring it walked kept its links in every state of that stretch.
pub open spec fn seg_ok(
    s: Shape,
    hist: Seq<Seq<crate::node::NodeData>>,
    g: Seq<crate::node::NodeData>,
    r0: int,
    j0: int,
    cols: Seq<Seq<int>>,
    mark: int,
    tt: int,
) -> bool {
    let lo = mark + cover_ops(s, r0, j0, cols, tt).len();
    let hi = mark + cover_ops(s, r0, j0, cols, tt + 1).len();
    &&& col_static(s, cols[tt], s.relem[r0][wrap(j0 + tt, s.rring[r0].len() as int)], row_node(s, r0, j0, tt))
    &&& facts(s, hist, g, cols[tt], lo, hi)
}

pub proof fn lemma_cover_ops_prefix(s: Shape, r0: int, j0: int, cols: Seq<Seq<int>>, cols2: Seq<Seq<int>>, t: int)
    requires
        0 <= t <= cols.len(),
        cols.len() <= cols2.len(),
        forall|i: int| 0 <= i < cols.len() ==> cols2[i] == cols[i],
    ensures
        cover_ops(s, r0, j0, cols2, t) == cover_ops(s, r0, j0, cols, t),
    decreases t,
{
    if t > 0 {
        lemma_cover_ops_prefix(s, r0, j0, cols, cols2, t - 1);
    }
}

pub proof fn lemma_cover_ops_len_mono(s: Shape, r0: int, j0: int, cols: Seq<Seq<int>>, a: int, b: int)
    requires
        0 <= a <= b,
    ensures
        cover_ops(s, r0, j0, cols, a).len() <= cover_ops(s, r0, j0, cols, b).len(),
    decreases b,
{
    if a < b {
        lemma_cover_ops_len_mono(s, r0, j0, cols, a, b - 1);
    }
}

/// The log `log` (with states `hist` and present state `g`) ends with what
/// the cover of the row of `selected` logged from `mark` on, the column
/// rings walked being `cols`.
pub open spec fn ready(
    s: Shape,
    log: Seq<usize>,
    hist: Seq<Seq<crate::node::NodeData>>,
    g: Seq<crate::node::NodeData>,
    selected: int,
    cols: Seq<Seq<int>>,
    mark: int,
) -> bool {
    let r0 = s.loc[selected].0;
    let j0 = s.loc[selected].1;
    let m = s.rring[r0].len() as int;
    &&& s.loc.contains_key(selected)
    &&& 0 <= r0 < s.rows.len()
    &&& 0 <= j0 < m
    &&& s.rring[r0][j0] == selected
    &&& cols.len() == m
    &&& 0 <= mark <= log.len()
    &&& log == log.take(mark) + cover_ops(s, r0, j0, cols, m)
    &&& log_ok(log, hist, g)
    &&& forall|tt: int| 0 <= tt < m ==> #[trigger] seg_ok(s, hist, g, r0, j0, cols, mark, tt)
}

/// One more step down the column adds the nodes of the row met there.
pub proof fn lemma_col_ops_step(s: Shape, col: Seq<int>, p: int, u: int, pre: Seq<usize>, log: Seq<usize>)
    requires
        0 <= u,
        log == pre + col_ops(s, col, p, u) + (if wrap(wrap(p + 1, col.len() as int) + u, col.len() as int) == 0 {
            Seq::<usize>::empty()
        } else {
            row_ops(
                s,
                s.loc[col[wrap(wrap(p + 1, col.len() as int) + u, col.len() as int)]].0,
                s.loc[col[wrap(wrap(p + 1, col.len() as int) + u, col.len() as int)]].1,
            )
        }),
    ensures
        log == pre + col_ops(s, col, p, u + 1),
{
    let cl = col.len() as int;
    assert(wrap(wrap(p + 1, cl) + (u + 1) - 1, cl) == wrap(wrap(p + 1, cl) + u, cl));
    assert(log =~= pre + col_ops(s, col, p, u + 1));
}

pub proof fn lemma_col_static(s: Shape, vr: Map<u64, Seq<int>>, g: Seq<crate::node::NodeData>, e: u64, b: Set<int>, n: int)
    requires
        s.layout(g),
        s.hdr_of.contains_key(e),
        s.col_ok(vr, g, e, b),
        vr[e].contains(n),
        n != s.hdr_of[e],
    ensures
        col_static(s, vr[e], e, n),
{
    let col = vr[e];
    let p = pos_in(col, n);
    lemma_col_node(s, vr, g, e, b, 0);
    assert forall|q: int| 1 <= q < col.len() implies s.loc.contains_key(#[trigger] col[q])
        && s.relem[s.loc[col[q]].0][s.loc[col[q]].1] == e by {
        lemma_col_node(s, vr, g, e, b, q);
    }
}

/// What `uncover` needs to know of the column ring `col` of element `e`
/// that a cover walked from node `n`.
pub open spec fn col_static(s: Shape, col: Seq<int>, e: u64, n: int) -> bool {
    &&& col.len() >= 2
    &&& col[0] == s.hdr_of[e]
    &&& col.no_duplicates()
    &&& 0 < pos_in(col, n) < col.len()
    &&& col[pos_in(col, n)] == n
    &&& forall|q: int|
        1 <= q < col.len() ==> s.loc.contains_key(#[trigger] col[q]) && s.relem[s.loc[col[q]].0][s.loc[col[q]].1] == e
}

impl Matrix {
    /// `self` continues the log of `o`: what `o` logged stays, and the first
    /// entry added was taken from the state of `o`.
    pub open spec fn log_extends(&self, o: &Matrix) -> bool {
        let n = o.log@.len() as int;
        &&& self.log@.len() >= n
        &&& self.hist@.len() == self.log@.len()
        &&& o.hist@.len() == n
        &&& self.log@.take(n) == o.log@
        &&& self.hist@.take(n) == o.hist@
        &&& self.log@.len() == n ==> self.g() == o.g()
        &&& self.log@.len() > n ==> self.hist@[n] == o.g()
    }

    /// The log ends with what the cover of the row of `selected` logged from
    /// `mark` on, the column rings walked being `cols`.
    pub open spec fn uncover_ready(&self, selected: int, cols: Seq<Seq<int>>, mark: int) -> bool {
        ready(self.shape@, self.log@, self.hist@, self.g(), selected, cols, mark)
    }

    /// A state seen up to the end of the log of `b` stays as it was in `a`.
    pub proof fn lemma_state_at_stable(a: &Matrix, b: &Matrix, i: int)
        requires
            a.log_extends(b),
            0 <= i <= b.log@.len(),
        ensures
            state_at(a.hist@, a.g(), i) == state_at(b.hist@, b.g(), i),
    {
        let n = b.log@.len() as int;
        if i < n {
            assert(a.hist@.take(n)[i] == a.hist@[i]);
        }
    }

    pub proof fn lemma_facts_extend(a: &Matrix, b: &Matrix, s: Shape, col: Seq<int>, lo: int)
        requires
            a.log_extends(b),
            0 <= lo <= b.log@.len(),
            facts(s, b.hist@, b.g(), col, lo, b.log@.len() as int),
            facts(s, a.hist@, a.g(), col, b.log@.len() as int, a.log@.len() as int),
        ensures
            facts(s, a.hist@, a.g(), col, lo, a.log@.len() as int),
    {
        reveal(facts);
        assert forall|i: int| lo < i <= a.log@.len() implies ring(#[trigger] state_at(a.hist@, a.g(), i), col, true)
            && s.layout(state_at(a.hist@, a.g(), i)) by {
            if i <= b.log@.len() {
                Matrix::lemma_state_at_stable(a, b, i);
            }
        }
    }

    pub proof fn lemma_facts_stable(a: &Matrix, b: &Matrix, s: Shape, col: Seq<int>, lo: int, hi: int)
        requires
            a.log_extends(b),
            0 <= lo,
            hi <= b.log@.len(),
            facts(s, b.hist@, b.g(), col, lo, hi),
        ensures
            facts(s, a.hist@, a.g(), col, lo, hi),
    {
        reveal(facts);
        assert forall|i: int| lo < i <= hi implies ring(#[trigger] state_at(a.hist@, a.g(), i), col, true)
            && s.layout(state_at(a.hist@, a.g(), i)) by {
            Matrix::lemma_state_at_stable(a, b, i);
        }
    }

    pub proof fn lemma_facts_step(a: &Matrix, b: &Matrix, s: Shape, col: Seq<int>)
        requires
            a.log_extends(b),
            a.log@.len() == b.log@.len() + 1,
            ring(a.g(), col, true),
            s.layout(a.g()),
        ensures
            facts(s, a.hist@, a.g(), col, b.log@.len() as int, a.log@.len() as int),
    {
        reveal(facts);
        assert forall|i: int| b.log@.len() < i <= a.log@.len() implies ring(#[trigger] state_at(a.hist@, a.g(), i), col, true)
            && s.layout(state_at(a.hist@, a.g(), i)) by {
            assert(i == a.log@.len());
        }
    }

    pub proof fn lemma_extends_trans(a: &Matrix, b: &Matrix, c: &Matrix)
        requires
            a.log_extends(b),
            b.log_extends(c),
        ensures
            a.log_extends(c),
    {
        let nc = c.log@.len() as int;
        let nb = b.log@.len() as int;
        assert(a.log@.take(nc) =~= a.log@.take(nb).take(nc));
        assert(a.hist@.take(nc) =~= a.hist@.take(nb).take(nc));
        if nb > nc {
            assert(a.hist@[nc] == a.hist@.take(nb)[nc]);
        } else {
            assert(b.log@ =~= b.log@.take(nc));
        }
    }

    /// Takes each node of the row of data node `d`, but `d`, out of its column.
    #[verifier::rlimit(100)]
    #[verifier::spinoff_prover]
    fn cover_row(&mut self, d: usize, Ghost(eh): Ghost<u64>, Ghost(b): Ghost<Set<int>>, Ghost(gone): Ghost<Set<int>>)
        requires
            ({
                let s = old(self).shape@;
                let g = old(self).g();
                let k = old(self).covered@;
                let vr = old(self).vring@;
                let l = s.loc[d as int];
                &&& s.layout(g)
                &&& s.hring_ok(old(self).hring@, g, k)
                &&& s.cols_ok(vr, g, k, b, gone, -1, Set::empty())
                &&& s.col_ok(vr, g, eh, b)
                &&& s.hdr_of.contains_key(eh)
                &&& k.contains(eh)
                &&& log_ok(old(self).log@, old(self).hist@, g)
                &&& s.loc.contains_key(d as int)
                &&& s.relem[l.0][l.1] == eh
                &&& b.contains(l.0)
                &&& !gone.contains(l.0)
                &&& forall|e: u64| #[trigger] s.rows[l.0].contains(e) && k.contains(e) ==> e == eh
            }),
        ensures
            ({
                let s = final(self).shape@;
                let g = final(self).g();
                let k = final(self).covered@;
                let vr = final(self).vring@;
                &&& s == old(self).shape@
                &&& final(self).hring@ == old(self).hring@
                &&& k == old(self).covered@
                &&& s.layout(g)
                &&& s.hring_ok(final(self).hring@, g, k)
                &&& s.cols_ok(vr, g, k, b, gone.insert(s.loc[d as int].0), -1, Set::empty())
                &&& s.col_ok(vr, g, eh, b)
                &&& vr[eh] == old(self).vring@[eh]
                &&& log_ok(final(self).log@, final(self).hist@, g)
                &&& final(self).log_extends(old(self))
                &&& sizes_le(g, old(self).g())
                &&& final(self).log@ == old(self).log@ + row_ops(s, s.loc[d as int].0, s.loc[d as int].1)
                &&& facts(s, final(self).hist@, g, old(self).vring@[eh], old(self).log@.len() as int, final(self).log@.len() as int)
            }),
    {
        let ghost s = self.shape@;
        let ghost k = self.covered@;
        let ghost hr = self.hring@;
        let ghost col_eh = self.vring@[eh];
        let ghost n0 = self.log@.len() as int;
        let ghost rd = s.loc[d as int].0;
        let ghost jd = s.loc[d as int].1;
        let ghost mr = s.rring[rd].len() as int;
        let ghost st = wrap(jd + 1, mr);
        let ghost mut done = Set::<u64>::empty();
        let ghost mut w: int = 0;
        proof {
            lemma_loc(s, self.g(), d as int);
            lemma_row_node(s, self.g(), rd, jd);
            lemma_arc_all_but(jd, mr);
            lemma_cols_equiv(s, self.vring@, self.g(), k, b, gone, -1, Set::empty(), b, gone, rd, done);
            reveal(log_ok);
            assert(sizes_le(self.g(), self.g()));
            assert(self.log@.take(self.log@.len() as int) =~= self.log@);
            assert(self.hist@.take(self.log@.len() as int) =~= self.hist@);
            assert(self.log@ =~= old(self).log@ + row_ops(s, rd, jd).take(0));
            Matrix::lemma_facts_empty(s, self.hist@, self.g(), col_eh, n0);
        }
        let mut e = self.get(d).right;
        while e != d
            invariant
                self.shape@ == s,
                self.hring@ == hr,
                self.covered@ == k,
                hr == old(self).hring@,
                k == old(self).covered@,
                s == old(self).shape@,
                0 <= rd < s.rows.len(),
                0 <= jd < mr,
                mr == s.rring[rd].len(),
                mr == s.relem[rd].len(),
                s.relem[rd].no_duplicates(),
                s.rring[rd].no_duplicates(),
                s.rring[rd][jd] == d,
                s.relem[rd][jd] == eh,
                st == wrap(jd + 1, mr),
                b.contains(rd),
                !gone.contains(rd),
                k.contains(eh),
                s.hdr_of.contains_key(eh),
                forall|f: u64| #[trigger] s.rows[rd].contains(f) && k.contains(f) ==> f == eh,
                0 <= w <= mr - 1,
                e == s.rring[rd][wrap(st + w, mr)],
                s.layout(self.g()),
                s.hring_ok(hr, self.g(), k),
                s.cols_ok(self.vring@, self.g(), k, b, gone, rd, done),
                s.col_ok(self.vring@, self.g(), eh, b),
                self.vring@[eh] == old(self).vring@[eh],
                log_ok(self.log@, self.hist@, self.g()),
                self.log_extends(old(self)),
                sizes_le(self.g(), old(self).g()),
                col_eh == old(self).vring@[eh],
                n0 == old(self).log@.len(),
                self.log@ == old(self).log@ + row_ops(s, rd, jd).take(w),
                facts(s, self.hist@, self.g(), col_eh, n0, self.log@.len() as int),
                forall|j: int| 0 <= j < mr && #[trigger] in_arc(st, w, mr, j) ==> done.contains(s.relem[rd][j]),
                forall|j: int| 0 <= j < mr && !#[trigger] in_arc(st, w, mr, j) ==> !done.contains(s.relem[rd][j]),
            decreases mr - 1 - w,
        {
            let ghost q = wrap(st + w, mr);
            let ghost c = s.relem[rd][q];
            let ghost vr = self.vring@;
            let ghost g = self.g();
            let ghost before = *self;
            proof {
                lemma_arc_all_but(jd, mr);
                if w == mr - 1 {
                    assert(q == jd);
                }
                assert(q != jd);
                lemma_row_node(s, g, rd, q);
                assert(c != eh);
                assert(!in_arc(st, w, mr, q)) by {
                    lemma_arc_step(st, w, mr);
                }
                lemma_cell_in_col(s, vr, g, k, b, gone, rd, done, q);
            }
            let ghost z = choose|z: int| 0 <= z < vr[c].len() && vr[c][z] == s.rring[rd][q];
            proof {
                lemma_cover_cell(s, vr, hr, g, k, b, gone, rd, done, eh, q, z);
                lemma_log_push(self.log@, self.hist@, g, e);
                lemma_step_sizes(g, e as int);
                lemma_sizes_trans(crate::matrix::step(g, e as int), g, old(self).g());
            }
            self.unlink_node(e);
            proof {
                self.log = Ghost(self.log@.push(e));
                self.hist = Ghost(self.hist@.push(g));
                self.vring = Ghost(vr.insert(c, vr[c].remove(z)));
                lemma_arc_step(st, w, mr);
                assert forall|j: int| 0 <= j < mr && !#[trigger] in_arc(st, w + 1, mr, j) implies !done.insert(c).contains(s.relem[rd][j]) by {
                    if s.relem[rd][j] == c {
                        assert(j == q);
                    }
                }
                done = done.insert(c);
                assert(row_ops(s, rd, jd).take(w + 1) =~= row_ops(s, rd, jd).take(w).push(e));
                w = w + 1;
                assert(self.log_extends(&before)) by {
                    assert(self.log@.take(before.log@.len() as int) =~= before.log@);
                    assert(self.hist@.take(before.hist@.len() as int) =~= before.hist@);
                }
                Matrix::lemma_extends_trans(self, &before, old(self));
                assert(s.col_ok(self.vring@, self.g(), eh, b));
                assert(self.vring@[eh] == col_eh);
                Matrix::lemma_facts_step(self, &before, s, col_eh);
                Matrix::lemma_facts_extend(self, &before, s, col_eh, n0);
                lemma_row_node(s, self.g(), rd, q);
            }
            e = self.get(e).right;
        }
        proof {
            lemma_arc_all_but(jd, mr);
            if w < mr - 1 {
                assert(wrap(st + w, mr) != jd);
            }
            assert(w == mr - 1);
            lemma_row_elems(s, self.g(), rd);
            assert forall|f: u64| #[trigger] s.rows[rd].contains(f) && !k.contains(f) implies done.contains(f) by {
                let j = choose|j: int| 0 <= j < mr && s.relem[rd][j] == f;
                assert(in_arc(st, w, mr, j));
            }
            lemma_inner_end(s, self.vring@, self.g(), k, b, gone, rd, done);
            assert(row_ops(s, rd, jd).take(w) =~= row_ops(s, rd, jd));
        }
    }
}

impl Matrix {
    /// Covers the column of node `n`, the node at position `jn` of row `r0`:
    /// its header leaves the root's ring, and every other row of the column
    /// leaves the other columns.
    #[verifier::rlimit(100)]
    #[verifier::spinoff_prover]
    fn cover_node(&mut self, n: usize, Ghost(r0): Ghost<int>, Ghost(jn): Ghost<int>)
        requires
            ({
                let s = old(self).shape@;
                let g = old(self).g();
                let k = old(self).covered@;
                &&& s.layout(g)
                &&& s.hring_ok(old(self).hring@, g, k)
                &&& s.cols_ok(old(self).vring@, g, k, s.alive(k).insert(r0), Set::empty(), -1, Set::empty())
                &&& log_ok(old(self).log@, old(self).hist@, g)
                &&& 0 <= r0 < s.rows.len()
                &&& 0 <= jn < s.rring[r0].len()
                &&& s.rring[r0][jn] == n
                &&& !k.contains(s.relem[r0][jn])
            }),
        ensures
            ({
                let s = final(self).shape@;
                let g = final(self).g();
                let k = final(self).covered@;
                &&& s == old(self).shape@
                &&& k == old(self).covered@.insert(s.relem[r0][jn])
                &&& s.layout(g)
                &&& s.hring_ok(final(self).hring@, g, k)
                &&& s.cols_ok(final(self).vring@, g, k, s.alive(k).insert(r0), Set::empty(), -1, Set::empty())
                &&& log_ok(final(self).log@, final(self).hist@, g)
                &&& final(self).log_extends(old(self))
                &&& final(self).log@.len() > old(self).log@.len()
                &&& final(self).hring@.len() == old(self).hring@.len() - 1
                &&& sizes_le(g, old(self).g())
                &&& final(self).log@ == old(self).log@ + node_ops(
                    s,
                    old(self).vring@[s.relem[r0][jn]],
                    s.hdr_of[s.relem[r0][jn]],
                    n as int,
                )
                &&& col_static(s, old(self).vring@[s.relem[r0][jn]], s.relem[r0][jn], n as int)
                &&& facts(s, final(self).hist@, g, old(self).vring@[s.relem[r0][jn]], old(self).log@.len() as int, final(self).log@.len() as int)
            }),
    {
        let ghost s = self.shape@;
        let ghost ki = self.covered@;
        let ghost eh = s.relem[r0][jn];
        let ghost b = s.alive(ki).insert(r0);
        let ghost hr = self.hring@;
        let ghost g0 = self.g();
        let ghost start = *self;
        proof {
            lemma_row_node(s, g0, r0, jn);
            lemma_hring_has(s, hr, g0, ki, eh);
        }
        let h = self.get(n).header.unwrap();
        let ghost z = choose|z: int| 0 <= z < hr.len() && hr[z] == h;
        proof {
            lemma_cover_header(s, self.vring@, hr, g0, ki, b, eh, z);
            lemma_log_push(self.log@, self.hist@, g0, h);
            lemma_step_sizes(g0, h as int);
        }
        self.unlink_node(h);
        let ghost k = ki.insert(eh);
        proof {
            self.log = Ghost(self.log@.push(h));
            self.hist = Ghost(self.hist@.push(g0));
            self.hring = Ghost(hr.remove(z));
            self.covered = Ghost(k);
            assert(self.log@.take(start.log@.len() as int) =~= start.log@);
            assert(self.hist@.take(start.hist@.len() as int) =~= start.hist@);
            reveal(log_ok);
        }
        let ghost after_header = *self;
        proof {
            reveal(Shape::cols_ok);
            assert(s.col_rows(eh, b, Set::empty(), -1, Set::empty()) =~= b);
            assert(s.col_ok(self.vring@, self.g(), eh, b));
            lemma_row_node(s, self.g(), r0, jn);
            assert(b.contains(r0));
            assert(self.vring@[eh].contains(n as int));
            lemma_col_static(s, self.vring@, self.g(), eh, b, n as int);
            Matrix::lemma_facts_step(self, &start, s, self.vring@[eh]);
        }
        self.cover_column(n, Ghost(start), Ghost(r0), Ghost(jn));
    }

    /// The walk down the column of node `n` (the node at position `jn` of
    /// row `r0`) once its header is out of the root's ring: every other row
    /// of the column leaves the other columns. `start` is the state before
    /// the header left.
    #[verifier::rlimit(100)]
    fn cover_column(&mut self, n: usize, Ghost(start): Ghost<Matrix>, Ghost(r0): Ghost<int>, Ghost(jn): Ghost<int>)
        requires
            ({
                let s = old(self).shape@;
                let g = old(self).g();
                let ki = start.covered@;
                let eh = s.relem[r0][jn];
                let b = s.alive(ki).insert(r0);
                let k = ki.insert(eh);
                let h = s.hdr_of[eh];
                &&& s == start.shape@
                &&& old(self).vring == start.vring
                &&& old(self).covered@ == k
                &&& s.layout(g)
                &&& s.hring_ok(old(self).hring@, g, k)
                &&& s.cols_ok(old(self).vring@, g, k, b, Set::empty(), -1, Set::empty())
                &&& s.col_ok(old(self).vring@, g, eh, b)
                &&& s.hdr_of.contains_key(eh)
                &&& !ki.contains(eh)
                &&& 0 <= r0 < s.rows.len()
                &&& 0 <= jn < s.rring[r0].len()
                &&& s.rring[r0][jn] == n
                &&& log_ok(old(self).log@, old(self).hist@, g)
                &&& old(self).log_extends(&start)
                &&& old(self).log@ == start.log@.push(h as usize)
                &&& old(self).hring@.len() == start.hring@.len() - 1
                &&& sizes_le(g, start.g())
                &&& col_static(s, old(self).vring@[eh], eh, n as int)
                &&& facts(s, old(self).hist@, g, old(self).vring@[eh], start.log@.len() as int, old(self).log@.len() as int)
            }),
        ensures
            ({
                let s = final(self).shape@;
                let g = final(self).g();
                let k = final(self).covered@;
                &&& s == start.shape@
                &&& k == start.covered@.insert(s.relem[r0][jn])
                &&& s.layout(g)
                &&& s.hring_ok(final(self).hring@, g, k)
                &&& s.cols_ok(final(self).vring@, g, k, s.alive(k).insert(r0), Set::empty(), -1, Set::empty())
                &&& log_ok(final(self).log@, final(self).hist@, g)
                &&& final(self).log_extends(&start)
                &&& final(self).log@.len() > start.log@.len()
                &&& final(self).hring@.len() == start.hring@.len() - 1
                &&& sizes_le(g, start.g())
                &&& final(self).log@ == start.log@ + node_ops(
                    s,
                    start.vring@[s.relem[r0][jn]],
                    s.hdr_of[s.relem[r0][jn]],
                    n as int,
                )
                &&& facts(s, final(self).hist@, g, start.vring@[s.relem[r0][jn]], start.log@.len() as int, final(self).log@.len() as int)
            }),
    {
        let ghost s = self.shape@;
        let ghost ki = start.covered@;
        let ghost eh = s.relem[r0][jn];
        let ghost b = s.alive(ki).insert(r0);
        let ghost k = ki.insert(eh);
        proof {
            lemma_row_node(s, self.g(), r0, jn);
        }
        let h = self.get(n).header.unwrap();
        let ghost vr = self.vring@;
        let ghost col = vr[eh];
        let ghost cl = col.len() as int;
        proof {
            reveal(Shape::cols_ok);
            assert(s.col_rows(r0 as u64, b, Set::empty(), -1, Set::empty()) =~= b);
            lemma_row_node(s, self.g(), r0, jn);
            assert(b.contains(r0));
            assert(col.contains(n as int));
        }
        let ghost p = choose|p: int| 0 <= p < cl && col[p] == n;
        let ghost st = wrap(p + 1, cl);
        let ghost n0 = start.log@.len() as int;
        proof {
            assert(p == pos_in(col, n as int));
            assert(col == start.vring@[eh]);
            assert(self.log@ =~= start.log@ + seq![h] + col_ops(s, col, p, 0));
            lemma_col_static(s, vr, self.g(), eh, b, n as int);
            reveal(Shape::cols_ok);
            Matrix::lemma_facts_step(self, &start, s, col);
        }
        let ghost mut u: int = 0;
        let ghost mut gone = Set::<int>::empty();
        proof {
            lemma_col_node(s, vr, self.g(), eh, b, p);
            lemma_arc_all_but(p, cl);
        }
        let mut d = self.get(n).down;
        while d != n
            invariant
                self.shape@ == s,
                self.covered@ == k,
                s == start.shape@,
                k == start.covered@.insert(eh),
                k == ki.insert(eh),
                ki == start.covered@,
                b == s.alive(ki).insert(r0),
                eh == s.relem[r0][jn],
                !ki.contains(eh),
                s.hdr_of.contains_key(eh),
                0 <= r0 < s.rows.len(),
                0 <= jn < s.rring[r0].len(),
                s.rring[r0][jn] == n,
                h == s.hdr_of[eh],
                self.vring@[eh] == col,
                cl == col.len(),
                0 < p < cl,
                col[p] == n,
                st == wrap(p + 1, cl),
                0 <= u <= cl - 1,
                d == col[wrap(st + u, cl)],
                s.layout(self.g()),
                s.hring_ok(self.hring@, self.g(), k),
                s.cols_ok(self.vring@, self.g(), k, b, gone, -1, Set::empty()),
                s.col_ok(self.vring@, self.g(), eh, b),
                log_ok(self.log@, self.hist@, self.g()),
                self.log_extends(&start),
                self.log@.len() > start.log@.len(),
                self.hring@.len() == start.hring@.len() - 1,
                sizes_le(self.g(), start.g()),
                n0 == start.log@.len(),
                col == start.vring@[eh],
                p == pos_in(col, n as int),
                col_static(s, col, eh, n as int),
                self.log@ == start.log@ + seq![h] + col_ops(s, col, p, u),
                facts(s, self.hist@, self.g(), col, n0, self.log@.len() as int),
                forall|i: int|
                    1 <= i < cl && i != p && #[trigger] in_arc(st, u, cl, i) ==> gone.contains(s.loc[col[i]].0),
                forall|i: int|
                    1 <= i < cl && !#[trigger] in_arc(st, u, cl, i) ==> !gone.contains(s.loc[col[i]].0),
                forall|r: int| #[trigger] gone.contains(r) ==> r != r0 && 0 <= r < s.rows.len() && s.rows[r].contains(eh),
            decreases cl - 1 - u,
        {
            let ghost q = wrap(st + u, cl);
            let ghost before = *self;
            proof {
                lemma_arc_all_but(p, cl);
                if u == cl - 1 {
                    assert(q == p);
                }
                assert(q != p);
                lemma_col_node(s, self.vring@, self.g(), eh, b, q);
                lemma_col_node(s, self.vring@, self.g(), eh, b, p);
                lemma_arc_step(st, u, cl);
            }
            if d != h {
                let ghost rd = s.loc[d as int].0;
                proof {
                    assert(q != 0);
                    lemma_col_rows_distinct(s, self.vring@, self.g(), eh, b, p, q);
                    lemma_row_node(s, self.g(), r0, jn);
                    lemma_loc(s, self.g(), n as int);
                    lemma_loc(s, self.g(), d as int);
                    assert(rd != r0);
                    assert(s.alive(ki).contains(rd));
                    assert forall|f: u64| #[trigger] s.rows[rd].contains(f) && k.contains(f) implies f == eh by {
                        assert(!ki.contains(f));
                    }
                    lemma_row_node(s, self.g(), rd, s.loc[d as int].1);
                }
                self.cover_row(d, Ghost(eh), Ghost(b), Ghost(gone));
                proof {
                    lemma_sizes_trans(self.g(), before.g(), start.g());
                    Matrix::lemma_extends_trans(self, &before, &start);
                    Matrix::lemma_facts_extend(self, &before, s, col, n0);
                    lemma_col_ops_step(s, col, p, u, start.log@ + seq![h], self.log@);
                    assert forall|i: int|
                        1 <= i < cl && !#[trigger] in_arc(st, u + 1, cl, i) implies !gone.insert(rd).contains(s.loc[col[i]].0) by {
                        if i != q {
                            lemma_col_rows_distinct(s, self.vring@, self.g(), eh, b, i, q);
                        }
                    }
                    gone = gone.insert(rd);
                }
            }
            proof {
                if d == h {
                    assert(q == 0);
                    assert(self.log@ =~= start.log@ + seq![h] + col_ops(s, col, p, u) + Seq::<usize>::empty());
                    lemma_col_ops_step(s, col, p, u, start.log@ + seq![h], self.log@);
                }
                u = u + 1;
                lemma_col_node(s, self.vring@, self.g(), eh, b, q);
            }
            d = self.get(d).down;
        }
        proof {
            lemma_arc_all_but(p, cl);
            if u < cl - 1 {
                assert(wrap(st + u, cl) != p);
                lemma_col_node(s, self.vring@, self.g(), eh, b, wrap(st + u, cl));
                assert(col.no_duplicates());
            }
            assert(u == cl - 1);
            reveal(Shape::layout);
            assert forall|r: int|
                0 <= r < s.rows.len() && r != r0 && s.alive(ki).contains(r) && #[trigger] s.rows[r].contains(eh)
                    implies gone.contains(r) by {
                assert(s.relem[r].contains(eh));
                let j = choose|j: int| 0 <= j < s.relem[r].len() && s.relem[r][j] == eh;
                assert(col.contains(s.rring[r][j]));
                let i = choose|i: int| 0 <= i < cl && col[i] == s.rring[r][j];
                assert(s.data_ok(self.g(), r, j));
                lemma_col_node(s, self.vring@, self.g(), eh, b, i);
                assert(i != 0);
                assert(i != p);
                assert(in_arc(st, u, cl, i));
            }
            lemma_middle_end(s, self.vring@, self.g(), ki, eh, r0, gone);
            assert(node_ops(s, col, h as int, n as int) == seq![h] + col_ops(s, col, p, cl - 1));
            assert(self.log@ =~= start.log@ + node_ops(s, col, h as int, n as int));
        }
    }

}

impl Matrix {
    /// Covers every column in which the row of data node `selected` has a
    /// node, together with every row that meets that row in any of them.
    /// The ghost result is the column ring that each step walked, as
    /// `uncover` needs it.
    pub fn cover(&mut self, selected: usize) -> (cols: Ghost<Seq<Seq<int>>>)
        requires
            old(self).wf(),
            old(self).shape@.loc.contains_key(selected as int),
            disjoint_from(old(self).shape@.rows[old(self).shape@.loc[selected as int].0], old(self).covered@),
        ensures
            final(self).wf(),
            final(self).shape == old(self).shape,
            final(self).covered@ == old(self).covered@.union(
                old(self).shape@.rows[old(self).shape@.loc[selected as int].0],
            ),
            final(self).log_extends(old(self)),
            final(self).log@.len() > old(self).log@.len(),
            final(self).hring@.len() < old(self).hring@.len(),
            sizes_le(final(self).g(), old(self).g()),
            final(self).uncover_ready(selected as int, cols@, old(self).log@.len() as int),
    {
        let ghost mark = self.log@.len() as int;
        let ghost s = self.shape@;
        let ghost r0 = s.loc[selected as int].0;
        let ghost j0 = s.loc[selected as int].1;
        let ghost m = s.rring[r0].len() as int;
        let ghost k0 = self.covered@;
        let ghost mut cols: Seq<Seq<int>> = Seq::empty();
        proof {
            lemma_loc(s, self.g(), selected as int);
            lemma_row_node(s, self.g(), r0, j0);
            assert(s.alive(k0).insert(r0) =~= s.alive(k0));
            lemma_row_elems(s, self.g(), r0);
            assert(sizes_le(self.g(), self.g()));
            reveal(log_ok);
            assert(self.log@.take(self.log@.len() as int) =~= self.log@);
            assert(self.hist@.take(self.log@.len() as int) =~= self.hist@);
        }
        let mut n = selected;
        let mut first = true;
        let ghost mut t: int = 0;
        while first || n != selected
            invariant
                self.shape@ == s,
                s == old(self).shape@,
                k0 == old(self).covered@,
                0 <= r0 < s.rows.len(),
                0 <= j0 < m,
                m == s.rring[r0].len(),
                m == s.relem[r0].len(),
                s.rring[r0][j0] == selected,
                s.relem[r0].no_duplicates(),
                s.rring[r0].no_duplicates(),
                disjoint_from(s.rows[r0], k0),
                0 <= t <= m,
                first == (t == 0),
                n == s.rring[r0][wrap(j0 + t, m)],
                s.layout(self.g()),
                s.hring_ok(self.hring@, self.g(), self.covered@),
                s.cols_ok(self.vring@, self.g(), self.covered@, s.alive(self.covered@).insert(r0), Set::empty(), -1, Set::empty()),
                log_ok(self.log@, self.hist@, self.g()),
                forall|e: u64| #[trigger] k0.contains(e) ==> self.covered@.contains(e),
                forall|e: u64| #[trigger] self.covered@.contains(e) ==> k0.contains(e) || s.rows[r0].contains(e),
                forall|j: int| 0 <= j < m && #[trigger] in_arc(j0, t, m, j) ==> self.covered@.contains(s.relem[r0][j]),
                forall|j: int| 0 <= j < m && !#[trigger] in_arc(j0, t, m, j) ==> !self.covered@.contains(s.relem[r0][j]),
                self.log_extends(old(self)),
                t > 0 ==> self.log@.len() > old(self).log@.len(),
                self.hring@.len() + t == old(self).hring@.len(),
                sizes_le(self.g(), old(self).g()),
                mark == old(self).log@.len(),
                cols.len() == t,
                self.log@ == old(self).log@ + cover_ops(s, r0, j0, cols, t),
                forall|tt: int| 0 <= tt < t ==> #[trigger] seg_ok(s, self.hist@, self.g(), r0, j0, cols, mark, tt),
            decreases m - t,
        {
            let ghost jn = wrap(j0 + t, m);
            let ghost before = *self;
            proof {
                if t == m {
                    assert(n == selected);
                }
                assert(t < m);
                lemma_arc_step(j0, t, m);
                lemma_row_node(s, self.g(), r0, jn);
            }
            self.cover_node(n, Ghost(r0), Ghost(jn));
            proof {
                lemma_sizes_trans(self.g(), before.g(), old(self).g());
                Matrix::lemma_extends_trans(self, &before, old(self));
                let col_t = before.vring@[s.relem[r0][jn]];
                let cols2 = cols.push(col_t);
                assert(cover_ops(s, r0, j0, cols2, t) =~= cover_ops(s, r0, j0, cols, t)) by {
                    lemma_cover_ops_prefix(s, r0, j0, cols, cols2, t);
                }
                assert(row_node(s, r0, j0, t) == n);
                assert(row_hdr(s, r0, j0, t) == s.hdr_of[s.relem[r0][jn]]);
                assert(self.log@ =~= old(self).log@ + cover_ops(s, r0, j0, cols2, t + 1));
                assert forall|tt: int| 0 <= tt < t + 1 implies #[trigger] seg_ok(s, self.hist@, self.g(), r0, j0, cols2, mark, tt) by {
                    if tt < t {
                        lemma_cover_ops_prefix(s, r0, j0, cols, cols2, tt);
                        lemma_cover_ops_prefix(s, r0, j0, cols, cols2, tt + 1);
                        lemma_cover_ops_len_mono(s, r0, j0, cols, tt + 1, t);
                        assert(seg_ok(s, before.hist@, before.g(), r0, j0, cols, mark, tt));
                        Matrix::lemma_facts_stable(
                            self,
                            &before,
                            s,
                            cols[tt],
                            mark + cover_ops(s, r0, j0, cols, tt).len(),
                            mark + cover_ops(s, r0, j0, cols, tt + 1).len(),
                        );
                    }
                }
                cols = cols2;
                lemma_arc_step(j0, t, m);
                assert forall|j: int| 0 <= j < m && !#[trigger] in_arc(j0, t + 1, m, j) implies !self.covered@.contains(s.relem[r0][j]) by {
                    if s.relem[r0][j] == s.relem[r0][jn] {
                        assert(j == jn);
                    }
                }
                t = t + 1;
                lemma_row_node(s, self.g(), r0, jn);
            }
            first = false;
            n = self.get(n).right;
        }
        proof {
            if t < m {
                assert(wrap(j0 + t, m) != j0);
                assert(s.rring[r0][wrap(j0 + t, m)] != s.rring[r0][j0]);
            }
            assert(t == m);
            lemma_row_elems(s, self.g(), r0);
            assert forall|e: u64| #[trigger] s.rows[r0].contains(e) implies self.covered@.contains(e) by {
                let j = choose|j: int| 0 <= j < m && s.relem[r0][j] == e;
                assert(in_arc(j0, t, m, j));
            }
            assert(self.covered@ =~= k0.union(s.rows[r0]));
            lemma_outer_end(s, self.vring@, self.g(), self.covered@, r0);
            assert(self.log@.take(mark) =~= old(self).log@);
        }
        Ghost(cols)
    }

    /// Relinks node `x`, the last one logged, undoing its unlink.
    fn relink_last(&mut self, x: usize)
        requires
            log_ok(old(self).log@, old(self).hist@, old(self).g()),
            old(self).log@.len() > 0,
            old(self).log@.last() == x,
        ensures
            final(self).g() == old(self).hist@.last(),
            final(self).log@ == old(self).log@.drop_last(),
            final(self).hist@ == old(self).hist@.drop_last(),
            log_ok(final(self).log@, final(self).hist@, final(self).g()),
            final(self).shape == old(self).shape,
            final(self).vring == old(self).vring,
            final(self).hring == old(self).hring,
            final(self).covered == old(self).covered,
    {
        let ghost i = self.log@.len() - 1;
        let ghost prev = self.hist@[i];
        proof {
            lemma_log_pop(self.log@, self.hist@, self.g());
            lemma_unstep_ok(prev, x as int);
        }
        self.relink_node(x);
        proof {
            self.log = Ghost(self.log@.drop_last());
            self.hist = Ghost(self.hist@.drop_last());
        }
    }

    /// The part of the state that undoing keeps, and how the log and the
    /// node sequence relate to those of `o` after undoing down to `n` entries.
    pub open spec fn undone_to(&self, o: &Matrix, n: int) -> bool {
        &&& 0 <= n <= o.log@.len()
        &&& self.log@ == o.log@.take(n)
        &&& self.hist@ == o.hist@.take(n)
        &&& self.g() == state_at(o.hist@, o.g(), n)
        &&& log_ok(self.log@, self.hist@, self.g())
        &&& self.shape == o.shape
        &&& self.vring == o.vring
        &&& self.hring == o.hring
        &&& self.covered == o.covered
    }

    pub proof fn lemma_facts_empty(s: Shape, hist: Seq<Seq<crate::node::NodeData>>, g: Seq<crate::node::NodeData>, col: Seq<int>, lo: int)
        ensures
            facts(s, hist, g, col, lo, lo),
    {
        reveal(facts);
    }

    /// What `facts` says of one state.
    pub proof fn lemma_facts_at(s: Shape, hist: Seq<Seq<crate::node::NodeData>>, g: Seq<crate::node::NodeData>, col: Seq<int>, lo: int, hi: int, i: int)
        requires
            facts(s, hist, g, col, lo, hi),
            lo < i <= hi,
        ensures
            ring(state_at(hist, g, i), col, true),
            s.layout(state_at(hist, g, i)),
    {
        reveal(facts);
    }

    /// The facts of the states not yet undone still hold.
    pub proof fn lemma_facts_undone(a: &Matrix, o: &Matrix, s: Shape, col: Seq<int>, lo: int, hi: int)
        requires
            a.undone_to(o, a.log@.len() as int),
            o.hist@.len() == o.log@.len(),
            0 <= lo,
            a.log@.len() <= hi,
            facts(s, o.hist@, o.g(), col, lo, hi),
        ensures
            facts(s, a.hist@, a.g(), col, lo, a.log@.len() as int),
    {
        reveal(facts);
        assert forall|i: int| lo < i <= a.log@.len() implies ring(#[trigger] state_at(a.hist@, a.g(), i), col, true)
            && s.layout(state_at(a.hist@, a.g(), i)) by {
            Matrix::lemma_undone_state(a, o, i);
        }
    }

    /// A state not yet undone is the state it was.
    pub proof fn lemma_undone_state(a: &Matrix, o: &Matrix, ii: int)
        requires
            a.undone_to(o, a.log@.len() as int),
            o.hist@.len() == o.log@.len(),
            0 <= ii <= a.log@.len(),
        ensures
            state_at(a.hist@, a.g(), ii) == state_at(o.hist@, o.g(), ii),
    {
        if ii < a.log@.len() {
            assert(a.hist@[ii] == o.hist@.take(a.log@.len() as int)[ii]);
        }
    }

    /// Relinks the nodes that the cover took out of their columns for the
    /// row of data node `d`, walking left from `d`: the reverse of their unlinks.
    #[verifier::rlimit(100)]
    fn uncover_row(&mut self, d: usize, Ghost(base): Ghost<Seq<usize>>, Ghost(col): Ghost<Seq<int>>, Ghost(lo): Ghost<int>)
        requires
            ({
                let s = old(self).shape@;
                let l = s.loc[d as int];
                &&& s.loc.contains_key(d as int)
                &&& log_ok(old(self).log@, old(self).hist@, old(self).g())
                &&& old(self).log@ == base + row_ops(s, l.0, l.1)
                &&& lo < base.len()
                &&& facts(s, old(self).hist@, old(self).g(), col, lo, old(self).log@.len() as int)
            }),
        ensures
            final(self).undone_to(old(self), base.len() as int),
    {
        let ghost s = self.shape@;
        let ghost rd = s.loc[d as int].0;
        let ghost jd = s.loc[d as int].1;
        let ghost nb = base.len() as int;
        let ghost top = old(self).log@.len() as int;
        proof {
            lemma_log_len(old(self).log@, old(self).hist@, old(self).g());
            assert(old(self).log@.take(top) =~= old(self).log@);
            assert(old(self).hist@.take(top) =~= old(self).hist@);
            assert(state_at(old(self).hist@, old(self).g(), top) == old(self).g());
            Matrix::lemma_facts_at(s, old(self).hist@, old(self).g(), col, lo, top, top);
            assert(s.layout(old(self).g()));
            lemma_loc(s, old(self).g(), d as int);
            lemma_row_node(s, old(self).g(), rd, jd);
            lemma_ring_step(old(self).g(), s.rring[rd], false, jd);
        }
        let ghost mr = s.rring[rd].len() as int;
        proof {
            assert(row_ops(s, rd, jd).take(mr - 1) =~= row_ops(s, rd, jd));
            assert(wrap(jd + (mr - 1), mr) == if jd > 0 { jd - 1 } else { mr - 1 });
        }
        let mut e = self.get(d).left;
        let ghost mut w: int = mr - 1;
        while e != d
            invariant
                self.shape@ == s,
                s == old(self).shape@,
                s.loc.contains_key(d as int),
                rd == s.loc[d as int].0,
                jd == s.loc[d as int].1,
                0 <= rd < s.rows.len(),
                0 <= jd < mr,
                mr == s.rring[rd].len(),
                s.rring[rd][jd] == d,
                s.rring[rd].no_duplicates(),
                0 <= w <= mr - 1,
                e == s.rring[rd][wrap(jd + w, mr)],
                nb == base.len(),
                lo < nb,
                top == old(self).log@.len(),
                old(self).hist@.len() == top,
                old(self).log@ == base + row_ops(s, rd, jd),
                self.log@ == base + row_ops(s, rd, jd).take(w),
                self.undone_to(old(self), nb + w),
                facts(s, old(self).hist@, old(self).g(), col, lo, top),
            decreases w,
        {
            proof {
                if w == 0 {
                    assert(wrap(jd + w, mr) == jd);
                }
                assert(w > 0);
                assert(wrap(wrap(jd + 1, mr) + (w - 1), mr) == wrap(jd + w, mr));
                assert(row_ops(s, rd, jd)[w - 1] == s.rring[rd][wrap(jd + w, mr)] as usize);
                assert(self.log@.last() == e);
            }
            self.relink_last(e);
            proof {
                assert(row_ops(s, rd, jd).take(w - 1) =~= row_ops(s, rd, jd).take(w).drop_last());
                assert(self.log@ =~= base + row_ops(s, rd, jd).take(w - 1));
                assert(self.log@ =~= old(self).log@.take(nb + w - 1));
                assert(self.hist@ =~= old(self).hist@.take(nb + w - 1));
                assert(self.g() == state_at(old(self).hist@, old(self).g(), nb + w - 1));
                Matrix::lemma_facts_at(s, old(self).hist@, old(self).g(), col, lo, top, nb + w - 1);
                lemma_row_node(s, self.g(), rd, wrap(jd + w, mr));
                lemma_ring_step(self.g(), s.rring[rd], false, wrap(jd + w, mr));
                w = w - 1;
            }
            e = self.get(e).left;
        }
        proof {
            if w > 0 {
                assert(wrap(jd + w, mr) != jd);
            }
        }
    }

    /// Relinks what the cover of the column of node `n` logged: the rows met
    /// walking up the column from `n`, each walked left, then the header.
    #[verifier::rlimit(100)]
    fn uncover_node(&mut self, n: usize, Ghost(base): Ghost<Seq<usize>>, Ghost(col): Ghost<Seq<int>>, Ghost(e): Ghost<u64>)
        requires
            ({
                let s = old(self).shape@;
                &&& col_static(s, col, e, n as int)
                &&& log_ok(old(self).log@, old(self).hist@, old(self).g())
                &&& old(self).log@ == base + node_ops(s, col, s.hdr_of[e], n as int)
                &&& facts(s, old(self).hist@, old(self).g(), col, base.len() as int, old(self).log@.len() as int)
            }),
        ensures
            final(self).undone_to(old(self), base.len() as int),
    {
        let ghost s = self.shape@;
        let ghost cl = col.len() as int;
        let ghost p = pos_in(col, n as int);
        let ghost nb = base.len() as int;
        let ghost top = old(self).log@.len() as int;
        let ghost h = s.hdr_of[e];
        proof {
            lemma_log_len(old(self).log@, old(self).hist@, old(self).g());
            assert(old(self).log@.take(top) =~= old(self).log@);
            assert(old(self).hist@.take(top) =~= old(self).hist@);
            assert(state_at(old(self).hist@, old(self).g(), top) == old(self).g());
            assert(top > nb);
            Matrix::lemma_facts_at(s, old(self).hist@, old(self).g(), col, nb, top, top);
            lemma_ring_step(old(self).g(), col, true, p);
            assert(s.loc.contains_key(col[p]));
            lemma_loc(s, old(self).g(), n as int);
            let l = s.loc[n as int];
            lemma_row_node(s, old(self).g(), l.0, l.1);
            assert(node_ops(s, col, h, n as int) == seq![h as usize] + col_ops(s, col, p, cl - 1));
            assert(self.log@ =~= base + seq![h as usize] + col_ops(s, col, p, cl - 1));
            assert(wrap(p + (cl - 1), cl) == if p > 0 { p - 1 } else { cl - 1 });
        }
        let hx = self.get(n).header.unwrap();
        let mut d = self.get(n).up;
        let ghost mut u: int = cl - 1;
        while d != n
            invariant
                self.shape@ == s,
                s == old(self).shape@,
                col_static(s, col, e, n as int),
                cl == col.len(),
                p == pos_in(col, n as int),
                hx == h,
                h == s.hdr_of[e],
                h == col[0],
                0 <= u <= cl - 1,
                d == col[wrap(p + u, cl)],
                nb == base.len(),
                top == old(self).log@.len(),
                old(self).hist@.len() == top,
                self.log@ == base + seq![h as usize] + col_ops(s, col, p, u),
                self.undone_to(old(self), self.log@.len() as int),
                facts(s, old(self).hist@, old(self).g(), col, nb, top),
            decreases u,
        {
            let ghost q = wrap(p + u, cl);
            proof {
                if u == 0 {
                    assert(q == p);
                }
                assert(u > 0);
                assert(q == wrap(wrap(p + 1, cl) + u - 1, cl));
            }
            if d != hx {
                let ghost pre = base + seq![h as usize] + col_ops(s, col, p, u - 1);
                proof {
                    assert(q != 0);
                    assert(s.loc.contains_key(col[q]));
                    assert(self.log@ =~= pre + row_ops(s, s.loc[col[q]].0, s.loc[col[q]].1));
                    Matrix::lemma_facts_undone(self, old(self), s, col, nb, top);
                }
                let ghost before = *self;
                self.uncover_row(d, Ghost(pre), Ghost(col), Ghost(nb));
                proof {
                    assert(self.log@ =~= pre);
                    assert(before.log@.take(pre.len() as int) =~= old(self).log@.take(pre.len() as int));
                    assert(before.hist@.take(pre.len() as int) =~= old(self).hist@.take(pre.len() as int));
                    Matrix::lemma_undone_state(&before, old(self), pre.len() as int);
                    assert(self.g() == state_at(old(self).hist@, old(self).g(), self.log@.len() as int));
                    assert(self.log@ =~= old(self).log@.take(self.log@.len() as int));
                    assert(self.hist@ =~= old(self).hist@.take(self.log@.len() as int));
                }
            } else {
                proof {
                    assert(q == 0);
                    assert(self.log@ =~= base + seq![h as usize] + col_ops(s, col, p, u - 1));
                }
            }
            proof {
                let cur = self.log@.len() as int;
                assert(self.log@ =~= base + seq![h as usize] + col_ops(s, col, p, u - 1));
                assert(nb < cur);
                Matrix::lemma_facts_at(s, old(self).hist@, old(self).g(), col, nb, top, cur);
                Matrix::lemma_undone_state(self, old(self), cur);
                lemma_ring_step(self.g(), col, true, q);
                u = u - 1;
            }
            d = self.get(d).up;
        }
        proof {
            if u > 0 {
                assert(wrap(p + u, cl) != p);
            }
            assert(self.log@ =~= base.push(h as usize));
            assert(self.log@.last() == hx);
        }
        self.relink_last(hx);
        proof {
            assert(self.log@ =~= base);
            assert(self.hist@ =~= old(self).hist@.take(nb + 1).drop_last());
            assert(self.log@ =~= old(self).log@.take(nb));
            assert(self.hist@ =~= old(self).hist@.take(nb));
        }
    }

    /// Undoes the cover of the row of data node `selected`: walking the row
    /// leftward from `selected`'s left neighbour round to `selected`, each
    /// node's column is uncovered in the reverse of the order of the cover.
    #[verifier::rlimit(100)]
    pub fn uncover(&mut self, selected: usize, Ghost(cols): Ghost<Seq<Seq<int>>>, Ghost(mark): Ghost<int>)
        requires
            old(self).uncover_ready(selected as int, cols, mark),
        ensures
            final(self).undone_to(old(self), mark),
    {
        let ghost s = self.shape@;
        let ghost r0 = s.loc[selected as int].0;
        let ghost j0 = s.loc[selected as int].1;
        let ghost m = s.rring[r0].len() as int;
        let ghost base = old(self).log@.take(mark);
        let ghost top = old(self).log@.len() as int;
        proof {
            lemma_log_len(old(self).log@, old(self).hist@, old(self).g());
            assert(old(self).log@.take(top) =~= old(self).log@);
            assert(old(self).hist@.take(top) =~= old(self).hist@);
            assert(state_at(old(self).hist@, old(self).g(), top) == old(self).g());
            lemma_cover_ops_len_mono(s, r0, j0, cols, m - 1, m);
            assert(seg_ok(s, old(self).hist@, old(self).g(), r0, j0, cols, mark, m - 1));
            Matrix::lemma_facts_at(s, old(self).hist@, old(self).g(), cols[m - 1], mark + cover_ops(s, r0, j0, cols, m - 1).len(), mark + cover_ops(s, r0, j0, cols, m).len(), top);
            assert(s.layout(old(self).g()));
            lemma_loc(s, self.g(), selected as int);
            lemma_row_node(s, self.g(), r0, j0);
            lemma_ring_step(self.g(), s.rring[r0], false, j0);
            assert(wrap(j0 + (m - 1), m) == if j0 > 0 { j0 - 1 } else { m - 1 });
            assert(self.log@ =~= base + cover_ops(s, r0, j0, cols, m));
        }
        let mut n = self.get(selected).left;
        let ghost mut t: int = m - 1;
        let mut more = true;
        while more
            invariant
                self.shape@ == s,
                s == old(self).shape@,
                old(self).uncover_ready(selected as int, cols, mark),
                r0 == s.loc[selected as int].0,
                j0 == s.loc[selected as int].1,
                m == s.rring[r0].len(),
                cols.len() == m,
                0 <= r0 < s.rows.len(),
                0 <= j0 < m,
                s.rring[r0][j0] == selected,
                s.rring[r0].no_duplicates(),
                0 <= mark <= top,
                base == old(self).log@.take(mark),
                top == old(self).log@.len(),
                old(self).hist@.len() == top,
                more ==> 0 <= t < m && n == row_node(s, r0, j0, t) && self.log@ == base + cover_ops(s, r0, j0, cols, t + 1),
                !more ==> self.log@ == base,
                self.undone_to(old(self), self.log@.len() as int),
            decreases (if more { t + 1 } else { 0 }),
        {
            let ghost pre = base + cover_ops(s, r0, j0, cols, t);
            proof {
                assert(seg_ok(s, old(self).hist@, old(self).g(), r0, j0, cols, mark, t));
                lemma_cover_ops_len_mono(s, r0, j0, cols, t + 1, m);
                assert(self.log@ =~= pre + node_ops(s, cols[t], row_hdr(s, r0, j0, t), n as int));
                assert(pre.len() == mark + cover_ops(s, r0, j0, cols, t).len());
                Matrix::lemma_facts_undone(self, old(self), s, cols[t], pre.len() as int, mark + cover_ops(s, r0, j0, cols, t + 1).len());
            }
            let ghost before = *self;
            self.uncover_node(n, Ghost(pre), Ghost(cols[t]), Ghost(s.relem[r0][wrap(j0 + t, m)]));
            proof {
                assert(self.log@ =~= pre);
                assert(before.log@.take(pre.len() as int) =~= old(self).log@.take(pre.len() as int));
                assert(before.hist@.take(pre.len() as int) =~= old(self).hist@.take(pre.len() as int));
                Matrix::lemma_undone_state(&before, old(self), pre.len() as int);
                assert(self.log@ =~= old(self).log@.take(self.log@.len() as int));
                assert(self.hist@ =~= old(self).hist@.take(self.log@.len() as int));
            }
            if n == selected {
                proof {
                    if t > 0 {
                        assert(wrap(j0 + t, m) != j0);
                    }
                    assert(t == 0);
                    assert(self.log@ =~= base);
                }
                more = false;
            } else {
                proof {
                    assert(t != 0);
                    lemma_cover_ops_len_mono(s, r0, j0, cols, t, t + 1);
                    assert(seg_ok(s, old(self).hist@, old(self).g(), r0, j0, cols, mark, t - 1));
                    let cur = self.log@.len() as int;
                    assert(cur == mark + cover_ops(s, r0, j0, cols, t).len());
                    Matrix::lemma_facts_at(s, old(self).hist@, old(self).g(), cols[t - 1], mark + cover_ops(s, r0, j0, cols, t - 1).len(), cur, cur);
                    assert(s.layout(state_at(old(self).hist@, old(self).g(), cur)));
                    assert(self.log@ =~= base + cover_ops(s, r0, j0, cols, (t - 1) + 1));
                    lemma_row_node(s, self.g(), r0, wrap(j0 + t, m));
                    lemma_ring_step(self.g(), s.rring[r0], false, wrap(j0 + t, m));
                    assert(wrap(j0 + t - 1, m) == if wrap(j0 + t, m) > 0 { wrap(j0 + t, m) - 1 } else { m - 1 });
                    t = t - 1;
                }
                n = self.get(n).left;
            }
        }
        proof {
            assert(base.len() == mark);
        }
    }
}

} // verus!
