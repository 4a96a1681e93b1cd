//! All-solutions mode: every exact cover, each once.
use crate::cover::{lemma_col_node, lemma_cols_mono, lemma_loc};
use crate::dlx::lemma_row_elems;
use crate::inv::{disjoint_from, Shape};
use crate::matrix::Matrix;
use crate::node::NodeData;
use crate::ring::{lemma_ring_step, wrap};
use crate::rowset::{members, rowset_contains, rowset_insert, rowset_new, RowSet};
use crate::solver::{lemma_search_done, next_row, Solver};
use crate::order::{lemma_active_iff, lemma_col_candidates, lemma_col_rows_increasing, lemma_pivot, lemma_rows_sets};
use crate::spec::{candidates, lemma_branch_skip, pivot, row_sets, search_branch, search_from, search_order, seq_total};
use crate::spec::{is_exact_cover, is_packing, select, lemma_select_push, union_of};
use vstd::prelude::*;

verus! {

/// The exact covers that hold every row of `chosen`.
pub open spec fn covers_from(rows: Seq<Set<u64>>, chosen: Set<int>) -> Set<Set<int>> {
    Set::new(|t: Set<int>| is_exact_cover(rows, t) && chosen.subset_of(t))
}

/// The row sets that a sequence of row sets holds.
pub open spec fn member_sets(v: Seq<RowSet>) -> Seq<Set<int>> {
    Seq::new(v.len(), |i: int| members(v[i]))
}

/// The row indices on a path.
pub open spec fn path_set(p: Seq<usize>) -> Set<int> {
    Set::new(|x: int| exists|i: int| 0 <= i < p.len() && p[i] as int == x)
}

/// The covers that extend `chosen` by one of the rows of the column nodes `col[1..i]`.
pub open spec fn covers_upto(s: Shape, col: Seq<int>, chosen: Set<int>, i: int) -> Set<Set<int>> {
    Set::new(|t: Set<int>| exists|j: int| 1 <= j < i && #[trigger] covers_from(s.rows, chosen.insert(s.loc[col[j]].0)).contains(t))
}

pub proof fn lemma_concat_no_dup(a: Seq<Set<int>>, b: Seq<Set<int>>)
    requires
        a.no_duplicates(),
        b.no_duplicates(),
        forall|x: Set<int>| a.contains(x) ==> !b.contains(x),
    ensures
        (a + b).no_duplicates(),
        (a + b).to_set() == a.to_set().union(b.to_set()),
{
    let c = a + b;
    assert forall|i: int, j: int| 0 <= i < c.len() && 0 <= j < c.len() && i != j implies c[i] != c[j] by {
        if i < a.len() && j >= a.len() {
            assert(a.contains(c[i]));
            assert(b.contains(c[j]));
            assert(b[j - a.len()] == c[j]);
        } else if j < a.len() && i >= a.len() {
            assert(a.contains(c[j]));
            assert(b[i - a.len()] == c[i]);
        } else if i >= a.len() && j >= a.len() {
            assert(b[i - a.len()] == c[i]);
            assert(b[j - a.len()] == c[j]);
        }
    }
    assert forall|x: Set<int>| c.to_set().contains(x) == a.to_set().union(b.to_set()).contains(x) by {
        if c.contains(x) {
            let i = choose|i: int| 0 <= i < c.len() && c[i] == x;
            if i >= a.len() {
                assert(b[i - a.len()] == x);
            }
        }
        if b.contains(x) {
            let i = choose|i: int| 0 <= i < b.len() && b[i] == x;
            assert(c[i + a.len()] == x);
        }
        if a.contains(x) {
            let i = choose|i: int| 0 <= i < a.len() && a[i] == x;
            assert(c[i] == x);
        }
    }
    assert(c.to_set() =~= a.to_set().union(b.to_set()));
}

/// When the selected rows already cover every element, they are the one
/// exact cover that holds them.
pub proof fn lemma_only_extension(rows: Seq<Set<u64>>, chosen: Set<int>)
    requires
        is_exact_cover(rows, chosen),
    ensures
        covers_from(rows, chosen) == set![chosen],
{
    assert forall|t: Set<int>| covers_from(rows, chosen).contains(t) implies t == chosen by {
        assert forall|x: int| t.contains(x) implies chosen.contains(x) by {
            if !chosen.contains(x) {
                let e = rows[x].choose();
                assert(rows[x] != Set::<u64>::empty());
                assert(rows[x].contains(e)) by {
                    if !rows[x].contains(e) {
                        assert(rows[x] =~= Set::<u64>::empty());
                    }
                }
                assert(union_of(rows, chosen).contains(e));
                let c = choose|c: int| chosen.contains(c) && #[trigger] rows[c].contains(e);
                assert(t.contains(c));
                assert(rows[x].disjoint(rows[c]));
            }
        }
        assert(t =~= chosen);
    }
    assert(covers_from(rows, chosen) =~= set![chosen]);
}

/// Two distinct rows of one column extend `chosen` to disjoint sets of covers.
pub proof fn lemma_covers_disjoint(rows: Seq<Set<u64>>, chosen: Set<int>, d1: int, d2: int, e: u64)
    requires
        d1 != d2,
        rows[d1].contains(e),
        rows[d2].contains(e),
    ensures
        forall|t: Set<int>|
            covers_from(rows, chosen.insert(d1)).contains(t) ==> !covers_from(rows, chosen.insert(d2)).contains(t),
{
    assert forall|t: Set<int>| covers_from(rows, chosen.insert(d1)).contains(t) implies !covers_from(rows, chosen.insert(d2)).contains(t) by {
        if covers_from(rows, chosen.insert(d2)).contains(t) {
            assert(t.contains(d1) && t.contains(d2));
            assert(rows[d1].disjoint(rows[d2]));
        }
    }
}

/// The covers that extend `chosen` are those that extend it by one of the
/// rows of the column of `ec`.
pub proof fn lemma_covers_split(
    s: Shape,
    vr: Map<u64, Seq<int>>,
    g: Seq<NodeData>,
    k: Set<u64>,
    chosen: Set<int>,
    ec: u64,
)
    requires
        s.layout(g),
        s.univ_ok(),
        s.hdr_of.contains_key(ec),
        !k.contains(ec),
        s.col_ok(vr, g, ec, s.alive(k)),
        k == union_of(s.rows, chosen),
    ensures
        covers_from(s.rows, chosen) == covers_upto(s, vr[ec], chosen, vr[ec].len() as int),
{
    reveal(Shape::layout);
    let col = vr[ec];
    let n = col.len() as int;
    assert forall|t: Set<int>| covers_from(s.rows, chosen).contains(t) implies covers_upto(s, col, chosen, n).contains(t) by {
        let r = choose|r: int| 0 <= r < s.rows.len() && #[trigger] s.rows[r].contains(ec);
        assert(union_of(s.rows, t).contains(ec));
        let d = choose|d: int| t.contains(d) && #[trigger] s.rows[d].contains(ec);
        assert(!chosen.contains(d));
        assert(disjoint_from(s.rows[d], k)) by {
            assert forall|e: u64| s.rows[d].contains(e) implies !k.contains(e) by {
                if k.contains(e) {
                    let c = choose|c: int| chosen.contains(c) && #[trigger] s.rows[c].contains(e);
                    assert(t.contains(c));
                    assert(s.rows[c].disjoint(s.rows[d]));
                }
            }
        }
        assert(s.alive(k).contains(d));
        assert(s.relem[d].contains(ec));
        let j = choose|j: int| 0 <= j < s.relem[d].len() && s.relem[d][j] == ec;
        assert(col.contains(s.rring[d][j]));
        let i = choose|i: int| 0 <= i < n && col[i] == s.rring[d][j];
        assert(s.data_ok(g, d, j));
        assert(g[s.hdr_of[ec]].header is None);
        assert(i != 0);
        assert(s.loc[col[i]].0 == d);
        assert(covers_from(s.rows, chosen.insert(d)).contains(t));
    }
    assert forall|t: Set<int>| covers_upto(s, col, chosen, n).contains(t) implies covers_from(s.rows, chosen).contains(t) by {
        let j = choose|j: int| 1 <= j < n && #[trigger] covers_from(s.rows, chosen.insert(s.loc[col[j]].0)).contains(t);
    }
    assert(covers_from(s.rows, chosen) =~= covers_upto(s, col, chosen, n));
}

/// A row set that holds the rows of a path.
fn rowset_of(path: &Vec<usize>) -> (r: RowSet)
    requires
        forall|i: int| 0 <= i < path@.len() ==> path@[i] < usize::MAX,
    ensures
        members(r) == path_set(path@),
{
    let mut r = rowset_new();
    let mut i: usize = 0;
    while i < path.len()
        invariant
            0 <= i <= path@.len(),
            forall|q: int| 0 <= q < path@.len() ==> path@[q] < usize::MAX,
            members(r) == path_set(path@.take(i as int)),
        decreases path@.len() - i,
    {
        rowset_insert(&mut r, path[i]);
        proof {
            assert(path_set(path@.take(i + 1)) =~= path_set(path@.take(i as int)).insert(path@[i as int] as int)) by {
                assert forall|x: int| path_set(path@.take(i + 1)).contains(x) implies path_set(path@.take(i as int)).insert(path@[i as int] as int).contains(x) by {
                    let q = choose|q: int| 0 <= q < i + 1 && #[trigger] path@.take(i + 1)[q] as int == x;
                    if q < i {
                        assert(path@.take(i as int)[q] == path@[q]);
                    }
                }
                assert forall|x: int| path_set(path@.take(i as int)).insert(path@[i as int] as int).contains(x) implies path_set(path@.take(i + 1)).contains(x) by {
                    if x == path@[i as int] as int {
                        assert(path@.take(i + 1)[i as int] == path@[i as int]);
                    } else {
                        let q = choose|q: int| 0 <= q < i && #[trigger] path@.take(i as int)[q] as int == x;
                        assert(path@.take(i + 1)[q] == path@[q]);
                    }
                }
            }
        }
        i += 1;
    }
    proof {
        assert(path@.take(i as int) =~= path@);
    }
    r
}

impl Matrix {
    /// Algorithm X in all-solutions mode from the state where the rows of
    /// `chosen` (the rows of `path`) are selected: appends to `out` every
    /// exact cover that extends `chosen`, each once, and leaves the matrix
    /// and `path` as they were.
    #[verifier::rlimit(100)]
    pub fn search_all(&mut self, path: &mut Vec<usize>, Ghost(chosen): Ghost<Set<int>>, out: &mut Vec<RowSet>, Ghost(fuel): Ghost<nat>)
        requires
            old(self).solving(chosen),
            path_set(old(path)@) == chosen,
            old(self).hring@.len() <= fuel,
        ensures
            member_sets(final(out)@).skip(old(out)@.len() as int) == search_from(old(self).shape@.relem, old(self).covered@, chosen, fuel),
            final(self).same_state(old(self)),
            final(path)@ == old(path)@,
            final(out)@.len() >= old(out)@.len(),
            final(out)@.take(old(out)@.len() as int) == old(out)@,
            member_sets(final(out)@).skip(old(out)@.len() as int).no_duplicates(),
            member_sets(final(out)@).skip(old(out)@.len() as int).to_set() == covers_from(old(self).shape@.rows, chosen),
        decreases old(self).hring@.len(),
    {
        let ghost s = self.shape@;
        let ghost k = self.covered@;
        let ghost hr = self.hring@;
        let ghost n0 = out@.len() as int;
        let ghost n = s.rows.len() as int;
        proof {
            assert forall|q: int| 0 <= q < path@.len() implies path@[q] < usize::MAX by {
                assert(path_set(path@).contains(path@[q] as int));
            }
            lemma_rows_sets(s, self.g());
            lemma_active_iff(s, hr, self.g(), k);
            reveal(Shape::hring_ok);
        }
        if self.is_solved() {
            proof {
                lemma_search_done(s, hr, self.g(), k, chosen);
                lemma_only_extension(s.rows, chosen);
            }
            let b = rowset_of(path);
            out.push(b);
            proof {
                let new = member_sets(out@).skip(n0);
                assert(new =~= seq![chosen]);
                assert(search_from(s.relem, k, chosen, fuel) == seq![chosen]);
                assert(new.to_set() =~= set![chosen]) by {
                    assert(new[0] == chosen);
                    assert(new.contains(chosen));
                }
                assert(out@.take(n0) =~= old(out)@);
            }
            return;
        }
        let c = self.min_size_col().unwrap();
        let ghost ic = choose|i: int|
            1 <= i < self.hring@.len() && self.hring@[i] == c && (forall|j: int|
                1 <= j < self.hring@.len() ==> self.size_at(c as int) <= #[trigger] self.size_at(
                    self.hring@[j],
                )) && (forall|j: int|
                1 <= j < i ==> self.size_at(c as int) < #[trigger] self.size_at(self.hring@[j]));
        let ghost ec = s.hkey[c as int];
        let ghost col = self.vring@[ec];
        let ghost cl = col.len() as int;
        let ghost snapshot = *self;
        let ghost al = s.alive(k);
        let ghost rows = s.rows;
        proof {
            reveal(Shape::hring_ok);
            reveal(Shape::layout);
            assert(s.hkey.contains_key(hr[ic]));
            lemma_cols_mono(s, self.vring@, self.g(), k, k, al, Set::empty(), -1, Set::empty());
            assert(s.col_rows(ec, al, Set::empty(), -1, Set::empty()) =~= al);
            assert(s.col_ok(self.vring@, self.g(), ec, al));
            lemma_col_node(s, self.vring@, self.g(), ec, al, 0);
            assert(member_sets(out@).skip(n0) =~= Seq::<Set<int>>::empty());
            assert(covers_upto(s, col, chosen, 1) =~= Set::<Set<int>>::empty());
            assert(out@.take(n0) =~= out@);
            assert forall|j: int| 1 <= j < hr.len() implies self.g()[hr[ic]].size_or_ix <= #[trigger] self.g()[hr[j]].size_or_ix by {
                assert(self.size_at(c as int) <= self.size_at(hr[j]));
            }
            assert forall|j: int| 1 <= j < ic implies self.g()[hr[ic]].size_or_ix < #[trigger] self.g()[hr[j]].size_or_ix by {
                assert(self.size_at(c as int) < self.size_at(hr[j]));
            }
            lemma_pivot(s, self.vring@, hr, self.g(), k, ic);
            assert(search_from(s.relem, k, chosen, fuel) == search_branch(s.relem, k, chosen, fuel, ec, n));
            lemma_col_candidates(s, self.vring@, self.g(), ec, k);
            assert forall|j: int| 0 <= j < next_row(s, col, 1) implies !#[trigger] candidates(s.rows, ec, k).contains(j) by {
                if candidates(s.rows, ec, k).contains(j) {
                    let q = choose|q: int| 1 <= q < cl && s.loc[col[q]].0 == j;
                    if q > 1 {
                        lemma_col_rows_increasing(s, self.vring@, self.g(), ec, al, 1, q);
                    }
                }
            }
            lemma_branch_skip(s.relem, k, chosen, fuel, ec, 0, next_row(s, col, 1));
        }
        let mut x = self.get(c).down;
        let ghost mut i: int = 1;
        while x != c
            invariant
                self.same_state(&snapshot),
                snapshot.solving(chosen),
                snapshot == *old(self),
                s == self.shape@,
                rows == s.rows,
                k == self.covered@,
                al == s.alive(k),
                path@ == old(path)@,
                path_set(path@) == chosen,
                s.hdr_of.contains_key(ec),
                !k.contains(ec),
                hr == self.hring@,
                hr.len() <= fuel,
                hr.len() > 1,
                n == s.rows.len(),
                row_sets(s.relem) == s.rows,
                ec == pivot(s.relem, k),
                search_from(s.relem, k, chosen, fuel) == search_branch(s.relem, k, chosen, fuel, ec, n),
                member_sets(out@).skip(n0) == search_branch(s.relem, k, chosen, fuel, ec, next_row(s, col, i)),
                s.hdr_of[ec] == c,
                col == self.vring@[ec],
                cl == col.len(),
                s.col_ok(self.vring@, self.g(), ec, al),
                1 <= i <= cl,
                x == col[wrap(i, cl)],
                out@.len() >= n0,
                n0 == old(out)@.len(),
                out@.take(n0) == old(out)@,
                member_sets(out@).skip(n0).no_duplicates(),
                member_sets(out@).skip(n0).to_set() == covers_upto(s, col, chosen, i),
            decreases cl - i,
        {
            proof {
                if i == cl {
                    assert(x == c);
                }
                lemma_col_node(s, self.vring@, self.g(), ec, al, i);
                lemma_loc(s, self.g(), x as int);
            }
            let row = self.get(x).size_or_ix;
            let ghost ri = row as int;
            let ghost before = *self;
            let ghost out_before = out@;
            proof {
                assert(s.rows[ri].contains(ec)) by {
                    lemma_row_elems(s, self.g(), ri);
                }
                assert(!chosen.contains(ri)) by {
                    if chosen.contains(ri) {
                        assert(union_of(s.rows, chosen).contains(ec));
                    }
                }
                assert(disjoint_from(s.rows[ri], k));
                assert(is_packing(s.rows, chosen.insert(ri))) by {
                    assert(s.rows[ri] != Set::<u64>::empty()) by {
                        assert(!Set::<u64>::empty().contains(ec));
                    }
                    assert forall|a: int, b: int|
                        #[trigger] chosen.insert(ri).contains(a) && #[trigger] chosen.insert(ri).contains(b) && a != b
                            implies s.rows[a].disjoint(s.rows[b]) by {
                        if a == ri || b == ri {
                            let o = if a == ri { b } else { a };
                            assert forall|e: u64| s.rows[o].contains(e) implies !s.rows[ri].contains(e) by {
                                assert(union_of(s.rows, chosen).contains(e));
                            }
                        }
                    }
                }
                assert(union_of(s.rows, chosen.insert(ri)) =~= k.union(s.rows[ri]));
            }
            path.push(row);
            proof {
                assert(path_set(path@) =~= chosen.insert(ri)) by {
                    assert forall|y: int| path_set(path@).contains(y) implies chosen.insert(ri).contains(y) by {
                        let q = choose|q: int| 0 <= q < path@.len() && #[trigger] path@[q] as int == y;
                        if q < path@.len() - 1 {
                            assert(path_set(old(path)@).contains(y));
                        }
                    }
                    assert forall|y: int| chosen.insert(ri).contains(y) implies path_set(path@).contains(y) by {
                        if y == ri {
                            assert(path@[path@.len() - 1] == row);
                        } else {
                            let q = choose|q: int| 0 <= q < old(path)@.len() && #[trigger] old(path)@[q] as int == y;
                            assert(path@[q] == old(path)@[q]);
                        }
                    }
                }
            }
            let ghost mark = self.log@.len() as int;
            let cols = self.cover(x);
            let ghost covered_state = *self;
            proof {
                lemma_col_candidates(s, before.vring@, before.g(), ec, k);
                assert(candidates(s.rows, ec, k).contains(ri));
                assert(row_sets(s.relem)[ri] == s.rows[ri]);
                assert(candidates(row_sets(s.relem), ec, k).contains(ri));
                assert(fuel > 0);
                assert(search_branch(s.relem, k, chosen, fuel, ec, ri + 1) == search_branch(s.relem, k, chosen, fuel, ec, ri)
                    + search_from(s.relem, k.union(s.rows[ri]), chosen.insert(ri), (fuel - 1) as nat));
            }
            self.search_all(path, Ghost(chosen.insert(ri)), out, Ghost((fuel - 1) as nat));
            proof {
                assert(self.uncover_ready(x as int, cols@, mark)) by {
                    assert(covered_state.uncover_ready(x as int, cols@, mark));
                }
            }
            self.uncover(x, cols, Ghost(mark));
            proof {
                self.vring = Ghost(before.vring@);
                self.hring = Ghost(before.hring@);
                self.covered = Ghost(before.covered@);
                assert(self.log@ =~= before.log@);
                assert(self.hist@ =~= before.hist@);
            }
            path.pop();
            proof {
                assert(path@ =~= old(path)@);
                let nb = out_before.len() as int;
                let a = member_sets(out_before).skip(n0);
                let b = member_sets(out@).skip(nb);
                assert(member_sets(out@).skip(n0) =~= a + b) by {
                    assert forall|q: int| 0 <= q < nb implies out@[q] == out_before[q] by {
                        assert(out@.take(nb)[q] == out_before[q]);
                    }
                }
                assert forall|t: Set<int>| a.contains(t) implies !b.contains(t) by {
                    assert(a.to_set().contains(t));
                    let j = choose|j: int| 1 <= j < i && #[trigger] covers_from(s.rows, chosen.insert(s.loc[col[j]].0)).contains(t);
                    lemma_col_node(s, self.vring@, self.g(), ec, al, j);
                    crate::cover::lemma_col_rows_distinct(s, self.vring@, self.g(), ec, al, i, j);
                    lemma_row_elems(s, self.g(), s.loc[col[j]].0);
                    lemma_covers_disjoint(s.rows, chosen, s.loc[col[j]].0, ri, ec);
                    assert(b.to_set().contains(t) == b.contains(t));
                }
                lemma_concat_no_dup(a, b);
                assert(i < cl);
                assert(a + b == search_branch(s.relem, k, chosen, fuel, ec, ri + 1));
                assert forall|j: int| ri + 1 <= j < next_row(s, col, i + 1) implies !#[trigger] candidates(s.rows, ec, k).contains(j) by {
                    if candidates(s.rows, ec, k).contains(j) {
                        let q = choose|q: int| 1 <= q < cl && s.loc[col[q]].0 == j;
                        if q <= i {
                            if q < i {
                                lemma_col_rows_increasing(s, before.vring@, before.g(), ec, al, q, i);
                            }
                        } else if q > i + 1 {
                            lemma_col_rows_increasing(s, before.vring@, before.g(), ec, al, i + 1, q);
                        }
                    }
                }
                if i + 1 < cl {
                    lemma_col_rows_increasing(s, before.vring@, before.g(), ec, al, i, i + 1);
                }
                lemma_branch_skip(s.relem, k, chosen, fuel, ec, ri + 1, next_row(s, col, i + 1));
                assert(covers_upto(s, col, chosen, i + 1) =~= covers_upto(s, col, chosen, i).union(covers_from(s.rows, chosen.insert(ri)))) by {
                    assert forall|t: Set<int>| covers_upto(s, col, chosen, i + 1).contains(t) implies covers_upto(s, col, chosen, i).union(covers_from(s.rows, chosen.insert(ri))).contains(t) by {
                        let j = choose|j: int| 1 <= j < i + 1 && #[trigger] covers_from(s.rows, chosen.insert(s.loc[col[j]].0)).contains(t);
                        if j < i {
                            assert(covers_upto(s, col, chosen, i).contains(t));
                        }
                    }
                    assert forall|t: Set<int>| covers_upto(s, col, chosen, i).union(covers_from(s.rows, chosen.insert(ri))).contains(t) implies covers_upto(s, col, chosen, i + 1).contains(t) by {
                        if covers_upto(s, col, chosen, i).contains(t) {
                            let j = choose|j: int| 1 <= j < i && #[trigger] covers_from(s.rows, chosen.insert(s.loc[col[j]].0)).contains(t);
                            assert(covers_from(s.rows, chosen.insert(s.loc[col[j]].0)).contains(t));
                        } else {
                            assert(covers_from(s.rows, chosen.insert(s.loc[col[i]].0)).contains(t));
                        }
                    }
                }
                assert(out@.take(n0) =~= old(out)@) by {
                    assert forall|q: int| 0 <= q < n0 implies out@[q] == old(out)@[q] by {
                        assert(out@.take(nb)[q] == out_before[q]);
                        assert(out_before.take(n0)[q] == old(out)@[q]);
                    }
                }
                i = i + 1;
                lemma_col_node(s, self.vring@, self.g(), ec, al, i - 1);
            }
            x = self.get(x).down;
        }
        proof {
            if i < cl {
                assert(col[i] != col[0]);
            }
            lemma_covers_split(s, self.vring@, self.g(), k, chosen, ec);
        }
    }
}

/// `v` holds, one for one, clones of the labels of `s`.
pub open spec fn clones_of<L: Clone>(s: Seq<L>, v: Seq<L>) -> bool {
    &&& v.len() == s.len()
    &&& forall|i: int| 0 <= i < s.len() ==> cloned(#[trigger] s[i], v[i])
}

/// Clones, in their order, the labels whose positions `sel` holds.
fn clone_selected<L: Clone>(labels: &Vec<L>, sel: &RowSet) -> (r: Vec<L>)
    ensures
        clones_of(select(labels@, members(*sel)), r@),
{
    let ghost ss = members(*sel);
    let mut out: Vec<L> = Vec::new();
    let mut i: usize = 0;
    proof {
        assert(labels@.take(0) =~= Seq::<L>::empty());
    }
    while i < labels.len()
        invariant
            0 <= i <= labels@.len(),
            ss == members(*sel),
            clones_of(select(labels@.take(i as int), ss), out@),
        decreases labels@.len() - i,
    {
        proof {
            assert(labels@.take(i + 1) =~= labels@.take(i as int).push(labels@[i as int]));
            lemma_select_push(labels@.take(i as int), labels@[i as int], ss);
        }
        if rowset_contains(sel, i) {
            let l = labels[i].clone();
            out.push(l);
        }
        i += 1;
    }
    proof {
        assert(labels@.take(i as int) =~= labels@);
    }
    out
}

/// The exact covers of a problem, handed out one at a time as label lists.
/// The covers are all found when the value is made (each as the set of its
/// row indices); `next` clones the labels of one of them.
pub struct Solutions<L> {
    labels: Vec<L>,
    covers: Vec<RowSet>,
    pos: usize,
}

impl<L: Clone> Solutions<L> {
    /// The label of each row.
    pub closed spec fn labels(&self) -> Seq<L> {
        self.labels@
    }

    /// The exact covers, as row sets, in the order in which they come out.
    pub closed spec fn covers(&self) -> Seq<Set<int>> {
        member_sets(self.covers@)
    }

    /// How many covers have come out.
    pub closed spec fn position(&self) -> int {
        self.pos as int
    }

    /// No more covers come out than there are.
    pub closed spec fn inv(&self) -> bool {
        self.pos <= self.covers@.len()
    }

    /// The labels of the next exact cover, in row order; `None` once every
    /// cover has come out.
    pub fn next(&mut self) -> (r: Option<Vec<L>>)
        requires
            old(self).inv(),
        ensures
            final(self).inv(),
            final(self).labels() == old(self).labels(),
            final(self).covers() == old(self).covers(),
            old(self).position() < old(self).covers().len() ==> final(self).position() == old(self).position() + 1
                && r is Some && clones_of(
                select(old(self).labels(), old(self).covers()[old(self).position()]),
                r->0@,
            ),
            old(self).position() >= old(self).covers().len() ==> r is None && final(self).position()
                == old(self).position(),
    {
        if self.pos < self.covers.len() {
            let v = clone_selected(&self.labels, &self.covers[self.pos]);
            self.pos = self.pos + 1;
            Some(v)
        } else {
            None
        }
    }
}

impl<L: Clone> Solver<L> {
    /// Every exact cover of the problem, each once, in the order in which
    /// Algorithm X meets them (`search_order`).
    pub fn solutions(self) -> (r: Solutions<L>)
        requires
            self.inv(),
        ensures
            r.inv(),
            r.labels() == self.labels(),
            r.position() == 0,
            r.covers().no_duplicates(),
            r.covers().to_set() == Set::new(|t: Set<int>| is_exact_cover(self.rows(), t)),
            r.covers() == search_order(self.subsets()),
    {
        let ghost rows = self.rows();
        let ghost subs = self.subsets();
        let (mut matrix, labels) = self.into_parts();
        let mut path: Vec<usize> = Vec::new();
        let mut covers: Vec<RowSet> = Vec::new();
        proof {
            assert(path_set(path@) =~= Set::<int>::empty());
        }
        proof {
            reveal(Shape::hring_ok);
            crate::ring::lemma_ring_len(matrix.g(), matrix.hring@, false);
            assert(matrix.covered@ =~= Set::<u64>::empty());
        }
        matrix.search_all(&mut path, Ghost(Set::empty()), &mut covers, Ghost((2 * seq_total(subs) + 2) as nat));
        proof {
            assert(member_sets(covers@).skip(0) =~= member_sets(covers@));
            assert(covers_from(rows, Set::empty()) =~= Set::new(|t: Set<int>| is_exact_cover(rows, t)));
        }
        Solutions { labels, covers, pos: 0 }
    }
}

} // verus!
