//! What one step of a cover does to the matrix invariant.
use crate::inv::{disjoint_from, log_ok, static_same, Shape};
use crate::matrix::{dec_at, hdr, is_data, step, step_ok};
use crate::node::NodeData;
use crate::ring::{
    lemma_ring_frame, lemma_ring_step, lemma_unlink_fields, lemma_unlink_ring, nxt, prv, ring,
    same_links, unlink, wrap,
};
use vstd::prelude::*;

verus! {

/// Two row sets that agree, column by column, on the rows that hold the
/// column's element give the same columns.
pub proof fn lemma_cols_equiv(
    s: Shape,
    vr: Map<u64, Seq<int>>,
    g: Seq<NodeData>,
    k: Set<u64>,
    b1: Set<int>,
    gone1: Set<int>,
    rd1: int,
    done1: Set<u64>,
    b2: Set<int>,
    gone2: Set<int>,
    rd2: int,
    done2: Set<u64>,
)
    requires
        s.layout(g),
        s.cols_ok(vr, g, k, b1, gone1, rd1, done1),
        forall|e: u64, r: int|
            s.hdr_of.contains_key(e) && !k.contains(e) && 0 <= r < s.rows.len() && #[trigger] s.rows[r].contains(e)
                ==> (s.col_rows(e, b1, gone1, rd1, done1).contains(r) <==> s.col_rows(
                e,
                b2,
                gone2,
                rd2,
                done2,
            ).contains(r)),
    ensures
        s.cols_ok(vr, g, k, b2, gone2, rd2, done2),
{
    reveal(Shape::cols_ok);
    assert forall|e: u64|
        s.hdr_of.contains_key(e) && !k.contains(e) implies #[trigger] s.col_ok(
        vr,
        g,
        e,
        s.col_rows(e, b2, gone2, rd2, done2),
    ) by {
        s.lemma_col_rows_equiv(vr, g, e, s.col_rows(e, b1, gone1, rd1, done1), s.col_rows(e, b2, gone2, rd2, done2));
    }
}

/// The columns outside a set stay as they are outside a larger one.
pub proof fn lemma_cols_mono(
    s: Shape,
    vr: Map<u64, Seq<int>>,
    g: Seq<NodeData>,
    k: Set<u64>,
    k2: Set<u64>,
    b: Set<int>,
    gone: Set<int>,
    rd: int,
    done: Set<u64>,
)
    requires
        s.cols_ok(vr, g, k, b, gone, rd, done),
        k.subset_of(k2),
    ensures
        s.cols_ok(vr, g, k2, b, gone, rd, done),
        forall|e: u64|
            s.hdr_of.contains_key(e) && !k.contains(e) ==> #[trigger] s.col_ok(
                vr,
                g,
                e,
                s.col_rows(e, b, gone, rd, done),
            ),
{
    reveal(Shape::cols_ok);
}

pub proof fn lemma_log_push(log: Seq<usize>, hist: Seq<Seq<NodeData>>, g: Seq<NodeData>, x: usize)
    requires
        log_ok(log, hist, g),
        step_ok(g, x as int),
    ensures
        log_ok(log.push(x), hist.push(g), step(g, x as int)),
        step(g, x as int).len() == g.len(),
{
    reveal(log_ok);
    let u = unlink(g, x as int, is_data(g, x as int));
    lemma_unlink_fields(g, x as int, is_data(g, x as int));
    let n = log.len() as int;
    let l2 = log.push(x);
    let h2 = hist.push(g);
    assert forall|i: int| 0 <= i < n + 1 implies (#[trigger] h2[i]).len() == step(g, x as int).len()
        && step_ok(h2[i], l2[i] as int) && step(h2[i], l2[i] as int) == (if i + 1 < n + 1 {
        h2[i + 1]
    } else {
        step(g, x as int)
    }) by {
        if i < n {
            assert(hist[i].len() == g.len());
        }
    }
}

/// The facts about a data node that the walks of a cover use.
pub proof fn lemma_row_node(s: Shape, g: Seq<NodeData>, r: int, j: int)
    requires
        s.layout(g),
        0 <= r < s.rows.len(),
        0 <= j < s.rring[r].len(),
    ensures
        s.data_ok(g, r, j),
        s.rring[r].len() == s.relem[r].len(),
        s.relem[r].no_duplicates(),
        ring(g, s.rring[r], false),
        nxt(g[s.rring[r][j]], false) == s.rring[r][wrap(j + 1, s.rring[r].len() as int)],
        s.hdr_of.contains_key(s.relem[r][j]),
        s.rows[r].contains(s.relem[r][j]),
        0 < s.hdr_of[s.relem[r][j]] < g.len(),
        g[s.hdr_of[s.relem[r][j]]].header is None,
        is_data(g, s.rring[r][j]),
        hdr(g, s.rring[r][j]) == s.hdr_of[s.relem[r][j]],
{
    reveal(Shape::layout);
    assert(s.data_ok(g, r, j));
    lemma_ring_step(g, s.rring[r], false, j);
}

/// The facts about a node of `loc`.
pub proof fn lemma_loc(s: Shape, g: Seq<NodeData>, x: int)
    requires
        s.layout(g),
        s.loc.contains_key(x),
    ensures
        0 <= s.loc[x].0 < s.rows.len(),
        0 <= s.loc[x].1 < s.rring[s.loc[x].0].len(),
        s.rring[s.loc[x].0][s.loc[x].1] == x,
        s.data_ok(g, s.loc[x].0, s.loc[x].1),
        g[x].size_or_ix == s.loc[x].0,
{
    reveal(Shape::layout);
    assert(s.data_ok(g, s.loc[x].0, s.loc[x].1));
}

/// Every element of a row is a header's element, and every element outside
/// `k` has its header on the root's ring.
pub proof fn lemma_hring_has(s: Shape, hr: Seq<int>, g: Seq<NodeData>, k: Set<u64>, e: u64)
    requires
        s.layout(g),
        s.hring_ok(hr, g, k),
        s.hdr_of.contains_key(e),
        !k.contains(e),
    ensures
        hr.contains(s.hdr_of[e]),
        0 < s.hdr_of[e] < g.len(),
        ring(g, hr, false),
        hr[0] == 0,
{
    reveal(Shape::layout);
    reveal(Shape::hring_ok);
}

/// The nodes of the root's ring are headers (or the root).
pub proof fn lemma_hring_headers(s: Shape, hr: Seq<int>, g: Seq<NodeData>, k: Set<u64>)
    requires
        s.layout(g),
        s.hring_ok(hr, g, k),
    ensures
        forall|i: int| 0 <= i < hr.len() ==> (#[trigger] g[hr[i]]).header is None,
        ring(g, hr, false),
        hr[0] == 0,
{
    reveal(Shape::layout);
    reveal(Shape::hring_ok);
    assert forall|i: int| 0 <= i < hr.len() implies (#[trigger] g[hr[i]]).header is None by {
        if i > 0 {
            assert(s.hkey.contains_key(hr[i]));
            assert(s.hdr_of.contains_key(s.hkey[hr[i]]));
        }
    }
}

/// Columns do not see a change that leaves vertical links and sizes alone.
pub proof fn lemma_cols_frame_horizontal(
    s: Shape,
    vr: Map<u64, Seq<int>>,
    g: Seq<NodeData>,
    g2: Seq<NodeData>,
    k: Set<u64>,
    b: Set<int>,
    gone: Set<int>,
    rd: int,
    done: Set<u64>,
)
    requires
        s.cols_ok(vr, g, k, b, gone, rd, done),
        g2.len() == g.len(),
        forall|x: int|
            0 <= x < g.len() ==> nxt(#[trigger] g2[x], true) == nxt(g[x], true) && prv(g2[x], true)
                == prv(g[x], true) && g2[x].size_or_ix == g[x].size_or_ix,
    ensures
        s.cols_ok(vr, g2, k, b, gone, rd, done),
{
    reveal(Shape::cols_ok);
    assert forall|e: u64|
        s.hdr_of.contains_key(e) && !k.contains(e) implies #[trigger] s.col_ok(
        vr,
        g2,
        e,
        s.col_rows(e, b, gone, rd, done),
    ) by {
        let rs = s.col_rows(e, b, gone, rd, done);
        assert(s.col_ok(vr, g, e, rs));
        assert(same_links(g, g2, vr[e], true));
        s.lemma_col_frame(vr, g, g2, e, rs);
    }
}

/// The root's ring without the header of `eh` lists the headers outside `k + eh`.
pub proof fn lemma_hring_remove(s: Shape, hr: Seq<int>, g: Seq<NodeData>, g2: Seq<NodeData>, k: Set<u64>, eh: u64, z: int)
    requires
        s.layout(g),
        s.hring_ok(hr, g, k),
        s.hdr_of.contains_key(eh),
        !k.contains(eh),
        0 < z < hr.len(),
        hr[z] == s.hdr_of[eh],
        ring(g2, hr.remove(z), false),
    ensures
        s.hring_ok(hr.remove(z), g2, k.insert(eh)),
{
    reveal(Shape::layout);
    reveal(Shape::hring_ok);
    let t = hr.remove(z);
    let k2 = k.insert(eh);
    let h = hr[z];
    assert forall|i: int|
        1 <= i < t.len() implies s.hkey.contains_key(#[trigger] t[i]) && !k2.contains(s.hkey[t[i]]) by {
        let ii = if i < z { i } else { i + 1 };
        assert(t[i] == hr[ii]);
        assert(s.hkey.contains_key(hr[ii]));
        if s.hkey[t[i]] == eh {
            assert(s.hdr_of[eh] == t[i]);
        }
    }
    assert forall|e: u64|
        s.hdr_of.contains_key(e) && !k2.contains(e) implies t.contains(#[trigger] s.hdr_of[e]) by {
        assert(hr.contains(s.hdr_of[e]));
        let i = choose|i: int| 0 <= i < hr.len() && hr[i] == s.hdr_of[e];
        if s.hdr_of[e] == h {
            assert(s.hkey[s.hdr_of[e]] == e);
        }
        assert(i != z);
        if i < z {
            assert(t[i] == hr[i]);
        } else {
            assert(t[i - 1] == hr[i]);
        }
    }
}

/// Taking the header of `eh` out of the root's ring covers `eh`.
pub proof fn lemma_cover_header(
    s: Shape,
    vr: Map<u64, Seq<int>>,
    hr: Seq<int>,
    g: Seq<NodeData>,
    k: Set<u64>,
    b: Set<int>,
    eh: u64,
    z: int,
)
    requires
        s.layout(g),
        s.hring_ok(hr, g, k),
        s.cols_ok(vr, g, k, b, Set::empty(), -1, Set::empty()),
        s.hdr_of.contains_key(eh),
        !k.contains(eh),
        0 <= z < hr.len(),
        hr[z] == s.hdr_of[eh],
        0 < s.hdr_of[eh],
    ensures
        0 < z,
        step_ok(g, hr[z]),
        !is_data(g, hr[z]),
        step(g, hr[z]).len() == g.len(),
        s.layout(step(g, hr[z])),
        s.hring_ok(hr.remove(z), step(g, hr[z]), k.insert(eh)),
        s.cols_ok(vr, step(g, hr[z]), k.insert(eh), b, Set::empty(), -1, Set::empty()),
        s.col_ok(vr, step(g, hr[z]), eh, b),
{
    lemma_hring_headers(s, hr, g, k);
    let h = hr[z];
    let g2 = step(g, h);
    assert(z != 0);
    lemma_ring_step(g, hr, false, z);
    lemma_unlink_fields(g, h, false);
    lemma_unlink_ring(g, g2, hr, z, false);
    assert(step_ok(g, h));
    let nb = if z + 1 < hr.len() { hr[z + 1] } else { hr[0] };
    assert(g[nb].header is None);
    assert(g[hr[z - 1]].header is None);
    assert(static_same(g, g2));
    s.lemma_layout_frame(g, g2);
    lemma_hring_remove(s, hr, g, g2, k, eh, z);
    lemma_cols_frame_horizontal(s, vr, g, g2, k, b, Set::empty(), -1, Set::empty());
    lemma_cols_mono(s, vr, g2, k, k.insert(eh), b, Set::empty(), -1, Set::empty());
    assert(s.col_rows(eh, b, Set::empty(), -1, Set::empty()) =~= b);
}

/// The column of the element at position `jq` of row `rd` still holds that row's node.
pub proof fn lemma_cell_in_col(
    s: Shape,
    vr: Map<u64, Seq<int>>,
    g: Seq<NodeData>,
    k: Set<u64>,
    b: Set<int>,
    gone: Set<int>,
    rd: int,
    done: Set<u64>,
    jq: int,
)
    requires
        s.layout(g),
        s.cols_ok(vr, g, k, b, gone, rd, done),
        0 <= rd < s.rows.len(),
        0 <= jq < s.rring[rd].len(),
        b.contains(rd),
        !gone.contains(rd),
        !k.contains(s.relem[rd][jq]),
        !done.contains(s.relem[rd][jq]),
    ensures
        vr[s.relem[rd][jq]].contains(s.rring[rd][jq]),
{
    reveal(Shape::layout);
    reveal(Shape::cols_ok);
    let c = s.relem[rd][jq];
    assert(s.data_ok(g, rd, jq));
    assert(s.hdr_of.contains_key(c));
    let rs = s.col_rows(c, b, gone, rd, done);
    assert(s.col_ok(vr, g, c, rs));
    assert(rs.contains(rd));
}

/// Columns other than that of `c` do not see a change made only at the nodes
/// of that column.
pub proof fn lemma_cols_frame_except(
    s: Shape,
    vr: Map<u64, Seq<int>>,
    g: Seq<NodeData>,
    g2: Seq<NodeData>,
    k: Set<u64>,
    b: Set<int>,
    gone: Set<int>,
    rd: int,
    done: Set<u64>,
    c: u64,
    eh: u64,
)
    requires
        s.layout(g),
        s.cols_ok(vr, g, k, b, gone, rd, done),
        s.col_ok(vr, g, eh, b),
        s.hdr_of.contains_key(eh),
        s.hdr_of.contains_key(c),
        !k.contains(c),
        k.contains(eh),
        g2.len() == g.len(),
        forall|x: int|
            0 <= x < g.len() && !vr[c].contains(x) ==> nxt(#[trigger] g2[x], true) == nxt(g[x], true)
                && prv(g2[x], true) == prv(g[x], true) && g2[x].size_or_ix == g[x].size_or_ix,
    ensures
        forall|e: u64|
            s.hdr_of.contains_key(e) && !k.contains(e) && e != c ==> #[trigger] s.col_ok(
                vr,
                g2,
                e,
                s.col_rows(e, b, gone, rd, done),
            ),
        s.col_ok(vr, g2, eh, b),
{
    reveal(Shape::cols_ok);
    let rs = s.col_rows(c, b, gone, rd, done);
    assert(s.col_ok(vr, g, c, rs));
    assert(vr[c].contains(vr[c][0]));
    assert forall|e: u64|
        s.hdr_of.contains_key(e) && !k.contains(e) && e != c implies #[trigger] s.col_ok(
        vr,
        g2,
        e,
        s.col_rows(e, b, gone, rd, done),
    ) by {
        let rse = s.col_rows(e, b, gone, rd, done);
        assert(s.col_ok(vr, g, e, rse));
        assert forall|i: int| 0 <= i < vr[e].len() implies nxt(#[trigger] g2[vr[e][i]], true) == nxt(
            g[vr[e][i]],
            true,
        ) && prv(g2[vr[e][i]], true) == prv(g[vr[e][i]], true) by {
            assert(vr[e].contains(vr[e][i]));
            if vr[c].contains(vr[e][i]) {
                s.lemma_cols_disjoint(vr, g, c, rs, e, rse, vr[e][i]);
            }
        }
        assert(vr[e].contains(vr[e][0]));
        if vr[c].contains(vr[e][0]) {
            s.lemma_cols_disjoint(vr, g, c, rs, e, rse, vr[e][0]);
        }
        s.lemma_col_frame(vr, g, g2, e, rse);
    }
    assert forall|i: int| 0 <= i < vr[eh].len() implies nxt(#[trigger] g2[vr[eh][i]], true) == nxt(
        g[vr[eh][i]],
        true,
    ) && prv(g2[vr[eh][i]], true) == prv(g[vr[eh][i]], true) by {
        assert(vr[eh].contains(vr[eh][i]));
        if vr[c].contains(vr[eh][i]) {
            s.lemma_cols_disjoint(vr, g, c, rs, eh, b, vr[eh][i]);
        }
    }
    assert(vr[eh].contains(vr[eh][0]));
    if vr[c].contains(vr[eh][0]) {
        s.lemma_cols_disjoint(vr, g, c, rs, eh, b, vr[eh][0]);
    }
    s.lemma_col_frame(vr, g, g2, eh, b);
}

/// The column of `c` without the node of row `rd` is the column with row `rd` left out.
pub proof fn lemma_col_remove(
    s: Shape,
    vr: Map<u64, Seq<int>>,
    g: Seq<NodeData>,
    g2: Seq<NodeData>,
    c: u64,
    rs: Set<int>,
    rd: int,
    jq: int,
    z: int,
)
    requires
        s.layout(g),
        s.col_ok(vr, g, c, rs),
        0 <= rd < s.rows.len(),
        0 <= jq < s.rring[rd].len(),
        s.relem[rd][jq] == c,
        0 < z < vr[c].len(),
        vr[c][z] == s.rring[rd][jq],
        ring(g2, vr[c].remove(z), true),
        g2[s.hdr_of[c]].size_or_ix == g[s.hdr_of[c]].size_or_ix - 1,
    ensures
        s.col_ok(vr.insert(c, vr[c].remove(z)), g2, c, rs.remove(rd)),
{
    reveal(Shape::layout);
    let col = vr[c];
    let t = col.remove(z);
    let y = col[z];
    let rs2 = rs.remove(rd);
    assert forall|i: int| 1 <= i < t.len() implies #[trigger] s.in_col(t[i], c, rs2) by {
        let ii = if i < z { i } else { i + 1 };
        assert(t[i] == col[ii]);
        assert(s.in_col(col[ii], c, rs));
        let l = s.loc[col[ii]];
        if l.0 == rd {
            assert(s.relem[rd].no_duplicates());
            assert(l.1 == jq);
            assert(col[ii] == y);
        }
    }
    assert forall|r: int, j: int|
        0 <= r < s.rows.len() && 0 <= j < s.relem[r].len() && s.relem[r][j] == c && rs2.contains(r)
            implies t.contains(#[trigger] s.rring[r][j]) by {
        assert(col.contains(s.rring[r][j]));
        let i = choose|i: int| 0 <= i < col.len() && col[i] == s.rring[r][j];
        assert(s.data_ok(g, r, j));
        assert(s.data_ok(g, rd, jq));
        assert(i != z);
        if i < z {
            assert(t[i] == col[i]);
        } else {
            assert(t[i - 1] == col[i]);
        }
    }
}

/// Putting the three parts of a cover step on a data node together.
pub proof fn lemma_cols_after_cell(
    s: Shape,
    vr: Map<u64, Seq<int>>,
    vr2: Map<u64, Seq<int>>,
    g2: Seq<NodeData>,
    k: Set<u64>,
    b: Set<int>,
    gone: Set<int>,
    rd: int,
    done: Set<u64>,
    c: u64,
)
    requires
        !k.contains(c),
        vr2 == vr.insert(c, vr2[c]),
        forall|e: u64|
            s.hdr_of.contains_key(e) && !k.contains(e) && e != c ==> #[trigger] s.col_ok(
                vr,
                g2,
                e,
                s.col_rows(e, b, gone, rd, done),
            ),
        s.col_ok(vr2, g2, c, s.col_rows(c, b, gone, rd, done).remove(rd)),
    ensures
        s.cols_ok(vr2, g2, k, b, gone, rd, done.insert(c)),
{
    reveal(Shape::cols_ok);
    assert forall|e: u64|
        s.hdr_of.contains_key(e) && !k.contains(e) implies #[trigger] s.col_ok(
        vr2,
        g2,
        e,
        s.col_rows(e, b, gone, rd, done.insert(c)),
    ) by {
        if e == c {
            assert(s.col_rows(e, b, gone, rd, done.insert(c)) =~= s.col_rows(c, b, gone, rd, done).remove(rd));
        } else {
            assert(s.col_rows(e, b, gone, rd, done.insert(c)) =~= s.col_rows(e, b, gone, rd, done));
            assert(s.col_ok(vr, g2, e, s.col_rows(e, b, gone, rd, done)));
            assert(vr.contains_key(e));
            assert(vr2.contains_key(e));
            assert(vr2[e] == vr[e]);
            assert(s.col_seq_ok(vr[e], g2, e, s.col_rows(e, b, gone, rd, done)));
        }
    }
}

/// What a `step` on the data node at position `z > 0` of column ring `col`
/// (whose header is `h`) does to links and sizes.
pub proof fn lemma_step_cell(g: Seq<NodeData>, col: Seq<int>, z: int, h: int)
    requires
        ring(g, col, true),
        0 < z < col.len(),
        col[0] == h,
        is_data(g, col[z]),
        hdr(g, col[z]) == h,
        g[h].header is None,
        g[h].size_or_ix == col.len() - 1,
    ensures
        ({
            let y = col[z];
            let g2 = step(g, y);
            &&& step_ok(g, y)
            &&& g2.len() == g.len()
            &&& ring(g2, col.remove(z), true)
            &&& g2[h].size_or_ix == g[h].size_or_ix - 1
            &&& static_same(g, g2)
            &&& forall|x: int|
                0 <= x < g.len() && !col.contains(x) ==> nxt(#[trigger] g2[x], true) == nxt(g[x], true)
                    && prv(g2[x], true) == prv(g[x], true) && g2[x].size_or_ix == g[x].size_or_ix
            &&& forall|x: int|
                0 <= x < g.len() ==> nxt(#[trigger] g2[x], false) == nxt(g[x], false) && prv(g2[x], false)
                    == prv(g[x], false)
        }),
{
    let y = col[z];
    lemma_ring_step(g, col, true, z);
    let u = unlink(g, y, true);
    lemma_unlink_fields(g, y, true);
    lemma_unlink_ring(g, u, col, z, true);
    assert(step_ok(g, y));
    let g2 = step(g, y);
    assert(g2 == dec_at(u, h));
    let t = col.remove(z);
    assert(same_links(u, g2, t, true));
    lemma_ring_frame(u, g2, t, true);
    assert(col.contains(col[z - 1]));
    assert(col.contains(col[0]));
    let nb = if z + 1 < col.len() { col[z + 1] } else { col[0] };
    assert(col.contains(nb));
}

/// Taking the node at position `jq` of row `rd` out of its column removes
/// the row from that column.
pub proof fn lemma_cover_cell(
    s: Shape,
    vr: Map<u64, Seq<int>>,
    hr: Seq<int>,
    g: Seq<NodeData>,
    k: Set<u64>,
    b: Set<int>,
    gone: Set<int>,
    rd: int,
    done: Set<u64>,
    eh: u64,
    jq: int,
    z: int,
)
    requires
        s.layout(g),
        s.hring_ok(hr, g, k),
        s.cols_ok(vr, g, k, b, gone, rd, done),
        s.col_ok(vr, g, eh, b),
        s.hdr_of.contains_key(eh),
        k.contains(eh),
        0 <= rd < s.rows.len(),
        0 <= jq < s.rring[rd].len(),
        b.contains(rd),
        !gone.contains(rd),
        !k.contains(s.relem[rd][jq]),
        !done.contains(s.relem[rd][jq]),
        0 <= z < vr[s.relem[rd][jq]].len(),
        vr[s.relem[rd][jq]][z] == s.rring[rd][jq],
    ensures
        ({
            let c = s.relem[rd][jq];
            let y = s.rring[rd][jq];
            let g2 = step(g, y);
            let vr2 = vr.insert(c, vr[c].remove(z));
            &&& step_ok(g, y)
            &&& g2.len() == g.len()
            &&& s.layout(g2)
            &&& s.hring_ok(hr, g2, k)
            &&& s.cols_ok(vr2, g2, k, b, gone, rd, done.insert(c))
            &&& s.col_ok(vr2, g2, eh, b)
        }),
{
    let c = s.relem[rd][jq];
    let y = s.rring[rd][jq];
    let col = vr[c];
    let h = s.hdr_of[c];
    lemma_row_node(s, g, rd, jq);
    let rs = s.col_rows(c, b, gone, rd, done);
    lemma_cols_mono(s, vr, g, k, k, b, gone, rd, done);
    assert(s.col_ok(vr, g, c, rs));
    assert(z != 0);
    lemma_step_cell(g, col, z, h);
    let g2 = step(g, y);
    s.lemma_layout_frame(g, g2);
    lemma_hring_frame_vertical(s, hr, g, g2, k);
    let vr2 = vr.insert(c, col.remove(z));
    lemma_col_remove(s, vr, g, g2, c, rs, rd, jq, z);
    lemma_cols_frame_except(s, vr, g, g2, k, b, gone, rd, done, c, eh);
    assert(s.col_rows(c, b, gone, rd, done).remove(rd) =~= rs.remove(rd));
    lemma_cols_after_cell(s, vr, vr2, g2, k, b, gone, rd, done, c);
    assert(vr2[eh] == vr[eh]);
}

/// The root's ring does not see a change that leaves horizontal links alone.
pub proof fn lemma_hring_frame_vertical(s: Shape, hr: Seq<int>, g: Seq<NodeData>, g2: Seq<NodeData>, k: Set<u64>)
    requires
        s.hring_ok(hr, g, k),
        g2.len() == g.len(),
        forall|x: int|
            0 <= x < g.len() ==> nxt(#[trigger] g2[x], false) == nxt(g[x], false) && prv(g2[x], false)
                == prv(g[x], false),
    ensures
        s.hring_ok(hr, g2, k),
{
    reveal(Shape::hring_ok);
    assert(same_links(g, g2, hr, false));
    lemma_ring_frame(g, g2, hr, false);
}

} // verus!

verus! {

/// A row leaves the columns of `done` when its walk has met every one of
/// its elements outside `k`.
pub proof fn lemma_inner_end(
    s: Shape,
    vr: Map<u64, Seq<int>>,
    g: Seq<NodeData>,
    k: Set<u64>,
    b: Set<int>,
    gone: Set<int>,
    rd: int,
    done: Set<u64>,
)
    requires
        s.layout(g),
        s.cols_ok(vr, g, k, b, gone, rd, done),
        forall|e: u64| #[trigger] s.rows[rd].contains(e) && !k.contains(e) ==> done.contains(e),
    ensures
        s.cols_ok(vr, g, k, b, gone.insert(rd), -1, Set::empty()),
{
    lemma_cols_equiv(s, vr, g, k, b, gone, rd, done, b, gone.insert(rd), -1, Set::empty());
}

/// After the walk down the column of `eh`, the rows that held `eh` are gone
/// from every other column.
pub proof fn lemma_middle_end(
    s: Shape,
    vr: Map<u64, Seq<int>>,
    g: Seq<NodeData>,
    ki: Set<u64>,
    eh: u64,
    r0: int,
    gone: Set<int>,
)
    requires
        s.layout(g),
        s.cols_ok(vr, g, ki.insert(eh), s.alive(ki).insert(r0), gone, -1, Set::empty()),
        forall|r: int| #[trigger] gone.contains(r) ==> r != r0 && 0 <= r < s.rows.len() && s.rows[r].contains(eh),
        forall|r: int|
            0 <= r < s.rows.len() && r != r0 && s.alive(ki).contains(r) && #[trigger] s.rows[r].contains(eh)
                ==> gone.contains(r),
    ensures
        s.cols_ok(vr, g, ki.insert(eh), s.alive(ki.insert(eh)).insert(r0), Set::empty(), -1, Set::empty()),
{
    lemma_cols_equiv(
        s,
        vr,
        g,
        ki.insert(eh),
        s.alive(ki).insert(r0),
        gone,
        -1,
        Set::empty(),
        s.alive(ki.insert(eh)).insert(r0),
        Set::empty(),
        -1,
        Set::empty(),
    );
}

/// Once every element of row `r0` is covered, the row holds no active column.
pub proof fn lemma_outer_end(s: Shape, vr: Map<u64, Seq<int>>, g: Seq<NodeData>, k: Set<u64>, r0: int)
    requires
        s.layout(g),
        s.cols_ok(vr, g, k, s.alive(k).insert(r0), Set::empty(), -1, Set::empty()),
        forall|e: u64| #[trigger] s.rows[r0].contains(e) ==> k.contains(e),
    ensures
        s.cols_ok(vr, g, k, s.alive(k), Set::empty(), -1, Set::empty()),
{
    lemma_cols_equiv(s, vr, g, k, s.alive(k).insert(r0), Set::empty(), -1, Set::empty(), s.alive(k), Set::empty(), -1, Set::empty());
}

/// Two nodes at distinct positions of one column belong to distinct rows.
pub proof fn lemma_col_rows_distinct(
    s: Shape,
    vr: Map<u64, Seq<int>>,
    g: Seq<NodeData>,
    e: u64,
    rs: Set<int>,
    i1: int,
    i2: int,
)
    requires
        s.layout(g),
        s.col_ok(vr, g, e, rs),
        1 <= i1 < vr[e].len(),
        1 <= i2 < vr[e].len(),
        i1 != i2,
    ensures
        s.loc[vr[e][i1]].0 != s.loc[vr[e][i2]].0,
{
    reveal(Shape::layout);
    assert(s.in_col(vr[e][i1], e, rs));
    assert(s.in_col(vr[e][i2], e, rs));
    let l1 = s.loc[vr[e][i1]];
    let l2 = s.loc[vr[e][i2]];
    if l1.0 == l2.0 {
        assert(s.relem[l1.0].no_duplicates());
        assert(l1.1 == l2.1);
    }
}

/// What a node of a column tells of its row.
pub proof fn lemma_col_node(
    s: Shape,
    vr: Map<u64, Seq<int>>,
    g: Seq<NodeData>,
    e: u64,
    rs: Set<int>,
    i: int,
)
    requires
        s.layout(g),
        s.col_ok(vr, g, e, rs),
        0 <= i < vr[e].len(),
        s.hdr_of.contains_key(e),
    ensures
        0 <= vr[e][i] < g.len(),
        nxt(g[vr[e][i]], true) == vr[e][wrap(i + 1, vr[e].len() as int)],
        i == 0 <==> vr[e][i] == s.hdr_of[e],
        i > 0 ==> {
            let l = s.loc[vr[e][i]];
            &&& s.in_col(vr[e][i], e, rs)
            &&& 0 <= l.0 < s.rows.len()
            &&& 0 <= l.1 < s.rring[l.0].len()
            &&& s.rring[l.0][l.1] == vr[e][i]
            &&& s.relem[l.0][l.1] == e
            &&& rs.contains(l.0)
        },
{
    reveal(Shape::layout);
    lemma_ring_step(g, vr[e], true, i);
    if i > 0 {
        assert(s.in_col(vr[e][i], e, rs));
        let l = s.loc[vr[e][i]];
        assert(s.data_ok(g, l.0, l.1));
        assert(g[s.hdr_of[e]].header is None);
    }
}

} // verus!
