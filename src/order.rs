//! How the rings of the matrix give the order of Algorithm X: the pivot
//! column and the order of candidate rows.
use crate::cover::{lemma_col_node, lemma_col_rows_distinct, lemma_cols_mono};
use crate::inv::{disjoint_from, increasing_tail, seen_before, Shape};
use crate::node::NodeData;
use crate::spec::{candidates, is_active, is_pivot, pivot, row_sets};
use vstd::prelude::*;

verus! {

/// The rows of the shape are its subsets as sets.
pub proof fn lemma_rows_sets(s: Shape, g: Seq<NodeData>)
    requires
        s.layout(g),
    ensures
        row_sets(s.relem) == s.rows,
{
    reveal(Shape::layout);
    assert forall|r: int| 0 <= r < s.rows.len() implies #[trigger] row_sets(s.relem)[r] == s.rows[r] by {
        assert forall|e: u64| s.rows[r].contains(e) == s.relem[r].to_set().contains(e) by {
            if s.relem[r].contains(e) {
                let j = choose|j: int| 0 <= j < s.relem[r].len() && s.relem[r][j] == e;
                assert(s.rows[r].contains(s.relem[r][j]));
            }
        }
        assert(s.rows[r] =~= s.relem[r].to_set());
    }
    assert(row_sets(s.relem) =~= s.rows);
}

/// An active column is the column of an element with a header, not covered;
/// some column is active exactly when the root's ring holds more than the root.
pub proof fn lemma_active_iff(s: Shape, hr: Seq<int>, g: Seq<NodeData>, k: Set<u64>)
    requires
        s.layout(g),
        s.univ_ok(),
        s.hring_ok(hr, g, k),
    ensures
        forall|e: u64| #[trigger] is_active(s.rows, k, e) <==> (s.hdr_of.contains_key(e) && !k.contains(e)),
        (exists|e: u64| is_active(s.rows, k, e)) <==> hr.len() > 1,
{
    reveal(Shape::layout);
    reveal(Shape::hring_ok);
    assert forall|e: u64| #[trigger] is_active(s.rows, k, e) <==> (s.hdr_of.contains_key(e) && !k.contains(e)) by {
        if is_active(s.rows, k, e) {
            let r = choose|r: int| 0 <= r < s.rows.len() && #[trigger] s.rows[r].contains(e);
            assert(s.relem[r].contains(e));
            let j = choose|j: int| 0 <= j < s.relem[r].len() && s.relem[r][j] == e;
            assert(s.hdr_of.contains_key(s.relem[r][j]));
        }
        if s.hdr_of.contains_key(e) && !k.contains(e) {
            let r = choose|r: int| 0 <= r < s.rows.len() && #[trigger] s.rows[r].contains(e);
        }
    }
    if hr.len() > 1 {
        let e = s.hkey[hr[1]];
        assert(s.hkey.contains_key(hr[1]));
        assert(is_active(s.rows, k, e));
    }
    if exists|e: u64| is_active(s.rows, k, e) {
        let e = choose|e: u64| is_active(s.rows, k, e);
        assert(hr.contains(s.hdr_of[e]));
        if hr.len() <= 1 {
            assert(hr[0] == s.hdr_of[e]);
        }
    }
}

/// The rows of the data nodes of a column, top to bottom.
pub open spec fn col_row_seq(s: Shape, col: Seq<int>) -> Seq<int> {
    Seq::new((col.len() - 1) as nat, |i: int| s.loc[col[i + 1]].0)
}

/// Down a column, rows increase.
pub proof fn lemma_col_rows_increasing(s: Shape, vr: Map<u64, Seq<int>>, g: Seq<NodeData>, e: u64, rs: Set<int>, i1: int, i2: int)
    requires
        s.layout(g),
        s.hdr_of.contains_key(e),
        s.col_ok(vr, g, e, rs),
        1 <= i1 < i2 < vr[e].len(),
    ensures
        s.loc[vr[e][i1]].0 < s.loc[vr[e][i2]].0,
{
    reveal(Shape::layout);
    let col = vr[e];
    lemma_col_node(s, vr, g, e, rs, i1);
    lemma_col_node(s, vr, g, e, rs, i2);
    lemma_col_rows_distinct(s, vr, g, e, rs, i1, i2);
    let l1 = s.loc[col[i1]];
    let l2 = s.loc[col[i2]];
    assert(increasing_tail(col));
    assert(col[i1] < col[i2]);
    if l2.0 < l1.0 {
        assert(s.rring[l2.0][l2.1] < s.rring[l1.0][l1.1]);
    }
}

/// A candidate row has its node in the column, and every data node of the
/// column is in a candidate row.
pub proof fn lemma_col_candidates(s: Shape, vr: Map<u64, Seq<int>>, g: Seq<NodeData>, e: u64, k: Set<u64>)
    requires
        s.layout(g),
        s.hdr_of.contains_key(e),
        s.col_ok(vr, g, e, s.alive(k)),
    ensures
        forall|q: int| 1 <= q < vr[e].len() ==> candidates(s.rows, e, k).contains(#[trigger] s.loc[vr[e][q]].0),
        forall|r: int| #[trigger] candidates(s.rows, e, k).contains(r) ==> exists|q: int| 1 <= q < vr[e].len() && s.loc[vr[e][q]].0 == r,
        col_row_seq(s, vr[e]).to_set() == candidates(s.rows, e, k),
        col_row_seq(s, vr[e]).no_duplicates(),
        g[s.hdr_of[e]].size_or_ix == candidates(s.rows, e, k).len(),
{
    reveal(Shape::layout);
    let col = vr[e];
    let c = candidates(s.rows, e, k);
    let t = col_row_seq(s, col);
    assert forall|q: int| 1 <= q < col.len() implies c.contains(#[trigger] s.loc[col[q]].0) by {
        lemma_col_node(s, vr, g, e, s.alive(k), q);
        let l = s.loc[col[q]];
        assert(s.rows[l.0].contains(s.relem[l.0][l.1]));
    }
    assert forall|r: int| #[trigger] c.contains(r) implies exists|q: int| 1 <= q < col.len() && s.loc[col[q]].0 == r by {
        assert(s.relem[r].contains(e));
        let j = choose|j: int| 0 <= j < s.relem[r].len() && s.relem[r][j] == e;
        assert(col.contains(s.rring[r][j]));
        let q = choose|q: int| 0 <= q < col.len() && col[q] == s.rring[r][j];
        assert(s.data_ok(g, r, j));
        lemma_col_node(s, vr, g, e, s.alive(k), q);
        assert(q != 0);
    }
    assert forall|i: int, j: int| 0 <= i < t.len() && 0 <= j < t.len() && i != j implies t[i] != t[j] by {
        lemma_col_rows_distinct(s, vr, g, e, s.alive(k), i + 1, j + 1);
    }
    assert forall|r: int| t.to_set().contains(r) == c.contains(r) by {
        if c.contains(r) {
            let q = choose|q: int| 1 <= q < col.len() && s.loc[col[q]].0 == r;
            assert(t[q - 1] == r);
        }
        if t.contains(r) {
            let i = choose|i: int| 0 <= i < t.len() && t[i] == r;
            assert(c.contains(s.loc[col[i + 1]].0));
        }
    }
    assert(t.to_set() =~= c);
    t.unique_seq_to_set();
}

/// Seen-first is a strict order.
pub proof fn lemma_seen_asym(subs: Seq<Seq<u64>>, a: u64, b: u64)
    ensures
        !(seen_before(subs, a, b) && seen_before(subs, b, a)),
{
    if seen_before(subs, a, b) && seen_before(subs, b, a) {
    let (r, j) = choose|r: int, j: int|
        0 <= r < subs.len() && 0 <= j < subs[r].len() && #[trigger] subs[r][j] == a && forall|r2: int, j2: int|
            0 <= r2 < subs.len() && 0 <= j2 < subs[r2].len() && #[trigger] subs[r2][j2] == b ==> (r < r2 || (r
                == r2 && j < j2));
    let (r2, j2) = choose|r2: int, j2: int|
        0 <= r2 < subs.len() && 0 <= j2 < subs[r2].len() && #[trigger] subs[r2][j2] == b && forall|r3: int, j3: int|
            0 <= r3 < subs.len() && 0 <= j3 < subs[r3].len() && #[trigger] subs[r3][j3] == a ==> (r2 < r3 || (r2
                == r3 && j2 < j3));
    assert(subs[r2][j2] == b);
    assert(subs[r][j] == a);
    }
}

/// The header that `min_size_col` picks is that of the pivot.
pub proof fn lemma_pivot(s: Shape, vr: Map<u64, Seq<int>>, hr: Seq<int>, g: Seq<NodeData>, k: Set<u64>, i: int)
    requires
        s.layout(g),
        s.univ_ok(),
        s.hring_ok(hr, g, k),
        s.cols_ok(vr, g, k, s.alive(k), Set::empty(), -1, Set::empty()),
        1 <= i < hr.len(),
        forall|j: int| 1 <= j < hr.len() ==> g[hr[i]].size_or_ix <= #[trigger] g[hr[j]].size_or_ix,
        forall|j: int| 1 <= j < i ==> g[hr[i]].size_or_ix < #[trigger] g[hr[j]].size_or_ix,
    ensures
        s.hkey.contains_key(hr[i]),
        pivot(s.relem, k) == s.hkey[hr[i]],
        s.hdr_of[pivot(s.relem, k)] == hr[i],
        is_active(s.rows, k, pivot(s.relem, k)),
{
    reveal(Shape::hring_ok);
    reveal(Shape::layout);
    lemma_rows_sets(s, g);
    lemma_active_iff(s, hr, g, k);
    lemma_cols_mono(s, vr, g, k, k, s.alive(k), Set::empty(), -1, Set::empty());
    let ec = s.hkey[hr[i]];
    assert(s.hkey.contains_key(hr[i]));
    let rows = row_sets(s.relem);
    assert(s.col_rows(ec, s.alive(k), Set::empty(), -1, Set::empty()) =~= s.alive(k));
    lemma_col_candidates(s, vr, g, ec, k);
    assert forall|f: u64| #[trigger] is_active(rows, k, f) && f != ec implies candidates(rows, ec, k).len() < candidates(rows, f, k).len()
        || (candidates(rows, ec, k).len() == candidates(rows, f, k).len() && seen_before(s.relem, ec, f)) by {
        assert(s.col_rows(f, s.alive(k), Set::empty(), -1, Set::empty()) =~= s.alive(k));
        lemma_col_candidates(s, vr, g, f, k);
        assert(hr.contains(s.hdr_of[f]));
        let j = choose|j: int| 0 <= j < hr.len() && hr[j] == s.hdr_of[f];
        assert(j != 0);
        assert(j != i);
        if j < i {
            assert(g[hr[i]].size_or_ix < g[hr[j]].size_or_ix);
        } else {
            assert(hr[i] < hr[j]);
            assert(s.hdr_of[ec] < s.hdr_of[f]);
        }
    }
    assert(is_pivot(s.relem, k, ec));
    let p = pivot(s.relem, k);
    assert(is_pivot(s.relem, k, p));
    if p != ec {
        assert(is_active(rows, k, p));
        if candidates(rows, ec, k).len() == candidates(rows, p, k).len() {
            lemma_seen_asym(s.relem, ec, p);
        }
    }
}

} // verus!
