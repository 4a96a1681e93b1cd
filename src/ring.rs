//! Doubly linked rings over the node sequence, and what unlinking and
//! relinking a node does to them.
use crate::node::NodeData;
use vstd::prelude::*;

verus! {

/// The successor link of a node: `down` on a vertical ring, `right` on a horizontal one.
pub open spec fn nxt(n: NodeData, vert: bool) -> int {
    if vert { n.down as int } else { n.right as int }
}

/// The predecessor link of a node: `up` on a vertical ring, `left` on a horizontal one.
pub open spec fn prv(n: NodeData, vert: bool) -> int {
    if vert { n.up as int } else { n.left as int }
}

/// `s` lists, in link order, the nodes of one closed ring in `g`.
pub open spec fn ring(g: Seq<NodeData>, s: Seq<int>, vert: bool) -> bool {
    &&& s.len() > 0
    &&& s.no_duplicates()
    &&& forall|i: int| 0 <= i < s.len() ==> 0 <= #[trigger] s[i] < g.len()
    &&& forall|i: int|
        0 <= i < s.len() - 1 ==> nxt(#[trigger] g[s[i]], vert) == s[i + 1] && prv(
            g[s[i + 1]],
            vert,
        ) == s[i]
    &&& nxt(g[s.last()], vert) == s[0]
    &&& prv(g[s[0]], vert) == s.last()
}

/// The node that follows position `i` on the ring `s`.
pub open spec fn ring_next(s: Seq<int>, i: int) -> int {
    if i + 1 < s.len() { s[i + 1] } else { s[0] }
}

/// Node `x` with its successor link set to `t`.
pub open spec fn with_nxt(n: NodeData, vert: bool, t: int) -> NodeData {
    if vert { NodeData { down: t as usize, ..n } } else { NodeData { right: t as usize, ..n } }
}

/// Node `x` with its predecessor link set to `t`.
pub open spec fn with_prv(n: NodeData, vert: bool, t: int) -> NodeData {
    if vert { NodeData { up: t as usize, ..n } } else { NodeData { left: t as usize, ..n } }
}

/// Takes `x` out of its ring: its neighbours point past it, its own links stay.
pub open spec fn unlink(g: Seq<NodeData>, x: int, vert: bool) -> Seq<NodeData> {
    let a = prv(g[x], vert);
    let b = nxt(g[x], vert);
    let g1 = g.update(a, with_nxt(g[a], vert, b));
    g1.update(b, with_prv(g1[b], vert, a))
}

/// Puts `x` back between the two nodes that its own links name.
pub open spec fn relink(g: Seq<NodeData>, x: int, vert: bool) -> Seq<NodeData> {
    let a = prv(g[x], vert);
    let b = nxt(g[x], vert);
    let g1 = g.update(a, with_nxt(g[a], vert, x));
    g1.update(b, with_prv(g1[b], vert, x))
}

/// `g` and `h` agree on the links of direction `vert` at every node of `s`.
pub open spec fn same_links(g: Seq<NodeData>, h: Seq<NodeData>, s: Seq<int>, vert: bool) -> bool {
    forall|i: int|
        0 <= i < s.len() ==> nxt(#[trigger] h[s[i]], vert) == nxt(g[s[i]], vert) && prv(
            h[s[i]],
            vert,
        ) == prv(g[s[i]], vert)
}

pub proof fn lemma_ring_frame(g: Seq<NodeData>, h: Seq<NodeData>, s: Seq<int>, vert: bool)
    requires
        ring(g, s, vert),
        h.len() >= g.len(),
        same_links(g, h, s, vert),
    ensures
        ring(h, s, vert),
{
    assert forall|i: int| 0 <= i < s.len() - 1 implies nxt(#[trigger] h[s[i]], vert) == s[i + 1]
        && prv(h[s[i + 1]], vert) == s[i] by {
        assert(nxt(g[s[i]], vert) == s[i + 1]);
    }
}

/// `i` brought back into `0..m`, for `0 <= i < 2 * m`.
pub open spec fn wrap(i: int, m: int) -> int {
    if i < m { i } else { i - m }
}

/// Position `j` is among the `w` positions of a ring of length `m` that
/// follow one another from position `s` on.
pub open spec fn in_arc(s: int, w: int, m: int, j: int) -> bool {
    if s + w <= m {
        s <= j < s + w
    } else {
        (s <= j < m) || (0 <= j < s + w - m)
    }
}

pub proof fn lemma_arc_step(s: int, w: int, m: int)
    requires
        0 <= s < m,
        0 <= w < m,
    ensures
        forall|j: int|
            0 <= j < m ==> (#[trigger] in_arc(s, w + 1, m, j) <==> (in_arc(s, w, m, j) || j == wrap(
                s + w,
                m,
            ))),
        !in_arc(s, w, m, wrap(s + w, m)),
        0 <= wrap(s + w, m) < m,
{
}

/// The `m - 1` positions after `p` are all positions but `p`.
pub proof fn lemma_arc_all_but(p: int, m: int)
    requires
        0 <= p < m,
    ensures
        forall|j: int|
            0 <= j < m ==> (#[trigger] in_arc(wrap(p + 1, m), m - 1, m, j) <==> j != p),
        forall|w: int|
            0 <= w < m - 1 ==> #[trigger] wrap(wrap(p + 1, m) + w, m) != p,
        wrap(wrap(p + 1, m) + (m - 1), m) == p,
{
}

/// A ring has no more nodes than the sequence it lives in.
pub proof fn lemma_ring_len(g: Seq<NodeData>, s: Seq<int>, vert: bool)
    requires
        ring(g, s, vert),
    ensures
        s.len() <= g.len(),
{
    s.unique_seq_to_set();
    let r = vstd::set_lib::set_int_range(0, g.len() as int);
    vstd::set_lib::lemma_int_range(0, g.len() as int);
    assert(s.to_set().subset_of(r));
    vstd::set_lib::lemma_len_subset(s.to_set(), r);
}

/// Following the successor link from position `i` of a ring reaches the next position.
pub proof fn lemma_ring_step(g: Seq<NodeData>, s: Seq<int>, vert: bool, i: int)
    requires
        ring(g, s, vert),
        0 <= i < s.len(),
    ensures
        nxt(g[s[i]], vert) == ring_next(s, i),
        i > 0 ==> prv(g[s[i]], vert) == s[i - 1],
        i == 0 ==> prv(g[s[i]], vert) == s.last(),
{
    if i > 0 {
        assert(nxt(g[s[i - 1]], vert) == s[i]);
    }
}

/// How the successor and predecessor links of `h` differ from those of `g`
/// after `x` was taken out of its ring.
pub open spec fn unlinked_links(g: Seq<NodeData>, h: Seq<NodeData>, x: int, vert: bool) -> bool {
    let a = prv(g[x], vert);
    let b = nxt(g[x], vert);
    &&& h.len() == g.len()
    &&& forall|k: int|
        0 <= k < g.len() ==> nxt(#[trigger] h[k], vert) == (if k == a {
            b
        } else {
            nxt(g[k], vert)
        }) && prv(h[k], vert) == (if k == b {
            a
        } else {
            prv(g[k], vert)
        })
}

/// Everything but the links of direction `vert` is the same in `g` and `h`.
pub open spec fn other_fields_same(g: Seq<NodeData>, h: Seq<NodeData>, vert: bool) -> bool {
    &&& h.len() == g.len()
    &&& forall|k: int|
        0 <= k < g.len() ==> (#[trigger] h[k]).header == g[k].header && h[k].size_or_ix
            == g[k].size_or_ix && prv(h[k], !vert) == prv(g[k], !vert) && nxt(h[k], !vert) == nxt(
            g[k],
            !vert,
        )
}

pub proof fn lemma_unlink_fields(g: Seq<NodeData>, x: int, vert: bool)
    requires
        0 <= x < g.len(),
        0 <= prv(g[x], vert) < g.len(),
        0 <= nxt(g[x], vert) < g.len(),
    ensures
        unlinked_links(g, unlink(g, x, vert), x, vert),
        other_fields_same(g, unlink(g, x, vert), vert),
{
}

/// Unlinking the node at position `j > 0` leaves the ring without it.
#[verifier::rlimit(100)]
pub proof fn lemma_unlink_ring(g: Seq<NodeData>, h: Seq<NodeData>, s: Seq<int>, j: int, vert: bool)
    requires
        ring(g, s, vert),
        0 < j < s.len(),
        unlinked_links(g, h, s[j], vert),
    ensures
        ring(h, s.remove(j), vert),
        prv(g[s[j]], vert) == s[j - 1],
        nxt(g[s[j]], vert) == ring_next(s, j),
        s[j - 1] != s[j],
        ring_next(s, j) != s[j],
{
    lemma_ring_step(g, s, vert, j);
    let x = s[j];
    let a = s[j - 1];
    let b = ring_next(s, j);
    let t = s.remove(j);
    assert(b != x) by {
        if j + 1 < s.len() {
            assert(s[j + 1] != s[j]);
        } else {
            assert(s[0] != s[j]);
        }
    }
    assert forall|i: int| 0 <= i < t.len() - 1 implies nxt(#[trigger] h[t[i]], vert) == t[i + 1]
        && prv(h[t[i + 1]], vert) == t[i] by {
        if i < j - 1 {
            assert(nxt(g[s[i]], vert) == s[i + 1]);
            assert(prv(g[s[i + 1]], vert) == s[i]);
            assert(s[i] != a);
            assert(s[i + 1] != b);
        } else if i == j - 1 {
            assert(t[i] == a);
            assert(t[i + 1] == s[j + 1]);
        } else {
            assert(nxt(g[s[i + 1]], vert) == s[i + 2]);
            assert(prv(g[s[i + 2]], vert) == s[i + 1]);
            assert(s[i + 1] != a);
            assert(s[i + 2] != b);
        }
    }
    assert(t.no_duplicates());
    if j + 1 < s.len() {
        assert(s.last() != a);
        assert(s[0] != b);
        assert(nxt(g[s.last()], vert) == s[0]);
        assert(t.last() == s.last());
    } else {
        assert(t.last() == a);
    }
}

/// A relink right after the unlink of the same node undoes it.
pub proof fn lemma_relink_unlink(g: Seq<NodeData>, x: int, vert: bool)
    requires
        0 <= x < g.len(),
        0 <= prv(g[x], vert) < g.len(),
        0 <= nxt(g[x], vert) < g.len(),
        prv(g[x], vert) != x,
        nxt(g[x], vert) != x,
        nxt(g[prv(g[x], vert)], vert) == x,
        prv(g[nxt(g[x], vert)], vert) == x,
    ensures
        relink(unlink(g, x, vert), x, vert) == g,
{
    let u = unlink(g, x, vert);
    assert(u[x] == g[x]);
    assert(relink(u, x, vert) =~= g);
}

/// Places `x`, a node that points to itself, just before `anchor` on its ring.
pub open spec fn insert_before(g: Seq<NodeData>, anchor: int, x: int, vert: bool) -> Seq<NodeData> {
    let p = prv(g[anchor], vert);
    let g1 = g.update(x, with_prv(with_nxt(g[x], vert, anchor), vert, p));
    let g2 = g1.update(p, with_nxt(g1[p], vert, x));
    g2.update(anchor, with_prv(g2[anchor], vert, x))
}

/// How the links of `h` differ from those of `g` after `x` was placed before `anchor`.
pub open spec fn inserted_links(
    g: Seq<NodeData>,
    h: Seq<NodeData>,
    anchor: int,
    x: int,
    vert: bool,
) -> bool {
    let p = prv(g[anchor], vert);
    &&& h.len() == g.len()
    &&& forall|k: int|
        0 <= k < g.len() ==> nxt(#[trigger] h[k], vert) == (if k == p {
            x
        } else if k == x {
            anchor
        } else {
            nxt(g[k], vert)
        }) && prv(h[k], vert) == (if k == anchor {
            x
        } else if k == x {
            p
        } else {
            prv(g[k], vert)
        })
}

pub proof fn lemma_insert_fields(g: Seq<NodeData>, anchor: int, x: int, vert: bool)
    requires
        0 <= x < g.len(),
        0 <= anchor < g.len(),
        0 <= prv(g[anchor], vert) < g.len(),
        x != anchor,
        x != prv(g[anchor], vert),
        g.len() <= usize::MAX,
    ensures
        inserted_links(g, insert_before(g, anchor, x, vert), anchor, x, vert),
        other_fields_same(g, insert_before(g, anchor, x, vert), vert),
{
    let p = prv(g[anchor], vert);
    let g1 = g.update(x, with_prv(with_nxt(g[x], vert, anchor), vert, p));
    let g2 = g1.update(p, with_nxt(g1[p], vert, x));
    let h = g2.update(anchor, with_prv(g2[anchor], vert, x));
    assert(h == insert_before(g, anchor, x, vert));
    assert forall|k: int| 0 <= k < g.len() implies nxt(#[trigger] h[k], vert) == (if k == p {
        x
    } else if k == x {
        anchor
    } else {
        nxt(g[k], vert)
    }) && prv(h[k], vert) == (if k == anchor {
        x
    } else if k == x {
        p
    } else {
        prv(g[k], vert)
    }) by {
        if k == x {
            assert(h[k] == g1[x]);
        } else if k == anchor {
            assert(h[k] == with_prv(g2[anchor], vert, x));
        } else if k == p {
            assert(h[k] == g2[p]);
        } else {
            assert(h[k] == g[k]);
        }
    }
}

pub proof fn lemma_insert_ring(g: Seq<NodeData>, h: Seq<NodeData>, s: Seq<int>, x: int, vert: bool)
    requires
        ring(g, s, vert),
        0 <= x < g.len(),
        !s.contains(x),
        inserted_links(g, h, s[0], x, vert),
    ensures
        ring(h, s.push(x), vert),
        prv(g[s[0]], vert) == s.last(),
{
    let t = s.push(x);
    assert(s.contains(s.last()));
    assert(s.contains(s[0]));
    assert(t.no_duplicates()) by {
        assert forall|i: int, k: int| 0 <= i < t.len() && 0 <= k < t.len() && i != k implies t[i]
            != t[k] by {
            if i < s.len() && k < s.len() {
            } else if i < s.len() {
                assert(s.contains(s[i]));
            } else if k < s.len() {
                assert(s.contains(s[k]));
            }
        }
    }
    assert forall|i: int| 0 <= i < t.len() - 1 implies nxt(#[trigger] h[t[i]], vert) == t[i + 1]
        && prv(h[t[i + 1]], vert) == t[i] by {
        if i < s.len() - 1 {
            assert(nxt(g[s[i]], vert) == s[i + 1]);
            assert(prv(g[s[i + 1]], vert) == s[i]);
            assert(s.contains(s[i]));
            assert(s.contains(s[i + 1]));
            if s.len() > 1 {
                assert(s[i + 1] != s[0] || i + 1 == 0);
            }
        } else {
            assert(t[i] == s.last());
        }
    }
}

} // verus!
