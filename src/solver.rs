//! Algorithm X: the search for an exact cover over the dancing-links matrix.
use crate::cover::{lemma_col_node, lemma_cols_mono, lemma_loc};
use crate::dlx::lemma_row_elems;
use crate::inv::{disjoint_from, Shape};
use crate::matrix::Matrix;
use crate::problem::Problem;
use crate::order::{lemma_active_iff, lemma_col_candidates, lemma_col_rows_increasing, lemma_pivot, lemma_rows_sets};
use crate::spec::{seq_total, candidates, lemma_branch_prefix, lemma_branch_skip, pivot, row_sets, search_branch, search_from, search_order};
use crate::rowset::{rowset_contains, rowset_new};
use crate::spec::{has_exact_cover, reverse_vec, reversed, select, lemma_select_push};
use crate::node::NodeData;
use crate::ring::{lemma_ring_step, ring, wrap};
use crate::rowset::{members, rowset_insert, rowset_remove, RowSet};
use crate::spec::{is_exact_cover, is_packing, union_of};
use vstd::prelude::*;

verus! {

/// With no active column left, the selected rows are an exact cover.
pub proof fn lemma_search_done(s: Shape, hr: Seq<int>, g: Seq<NodeData>, k: Set<u64>, chosen: Set<int>)
    requires
        s.layout(g),
        s.hring_ok(hr, g, k),
        hr.len() == 1,
        is_packing(s.rows, chosen),
        k == union_of(s.rows, chosen),
    ensures
        is_exact_cover(s.rows, chosen),
{
    reveal(Shape::layout);
    reveal(Shape::hring_ok);
    assert forall|r: int, e: u64|
        0 <= r < s.rows.len() && #[trigger] s.rows[r].contains(e) implies union_of(s.rows, chosen).contains(e) by {
        assert(s.relem[r].contains(e));
        let j = choose|j: int| 0 <= j < s.relem[r].len() && s.relem[r][j] == e;
        assert(s.hdr_of.contains_key(s.relem[r][j]));
        if !k.contains(e) {
            assert(hr.contains(s.hdr_of[e]));
        }
    }
}

/// Every exact cover that extends `chosen` picks one row that holds `ec`,
/// and each such row is in the column of `ec`.
pub proof fn lemma_search_complete(
    s: Shape,
    vr: Map<u64, Seq<int>>,
    g: Seq<NodeData>,
    k: Set<u64>,
    chosen: Set<int>,
    ec: u64,
)
    requires
        s.layout(g),
        s.univ_ok(),
        s.hdr_of.contains_key(ec),
        !k.contains(ec),
        s.col_ok(vr, g, ec, s.alive(k)),
        k == union_of(s.rows, chosen),
        forall|i: int|
            1 <= i < vr[ec].len() ==> forall|t: Set<int>|
                is_exact_cover(s.rows, t) ==> !(#[trigger] chosen.insert(s.loc[vr[ec][i]].0)).subset_of(t),
    ensures
        forall|t: Set<int>| is_exact_cover(s.rows, t) ==> !chosen.subset_of(t),
{
    reveal(Shape::layout);
    assert forall|t: Set<int>| is_exact_cover(s.rows, t) implies !chosen.subset_of(t) by {
        if chosen.subset_of(t) {
            let r = choose|r: int| 0 <= r < s.rows.len() && #[trigger] s.rows[r].contains(ec);
            assert(union_of(s.rows, t).contains(ec));
            let d = choose|d: int| t.contains(d) && #[trigger] s.rows[d].contains(ec);
            assert(!chosen.contains(d));
            assert(disjoint_from(s.rows[d], k)) by {
                assert forall|e: u64| s.rows[d].contains(e) implies !k.contains(e) by {
                    if k.contains(e) {
                        let c = choose|c: int| chosen.contains(c) && #[trigger] s.rows[c].contains(e);
                        assert(t.contains(c));
                        assert(s.rows[c].disjoint(s.rows[d]));
                    }
                }
            }
            assert(s.alive(k).contains(d));
            assert(s.relem[d].contains(ec));
            let j = choose|j: int| 0 <= j < s.relem[d].len() && s.relem[d][j] == ec;
            assert(vr[ec].contains(s.rring[d][j]));
            let i = choose|i: int| 0 <= i < vr[ec].len() && vr[ec][i] == s.rring[d][j];
            assert(s.data_ok(g, d, j));
            assert(g[s.hdr_of[ec]].header is None);
            assert(i != 0);
            assert(s.loc[vr[ec][i]].0 == d);
            assert(chosen.insert(d).subset_of(t));
        }
    }
}

/// The row of the node at position `i` of column ring `col`; past the
/// bottom, the number of rows.
pub open spec fn next_row(s: Shape, col: Seq<int>, i: int) -> int {
    if i < col.len() {
        s.loc[col[i]].0
    } else {
        s.rows.len() as int
    }
}

impl Matrix {
    /// The state of the search with the rows of `chosen` selected.
    pub open spec fn solving(&self, chosen: Set<int>) -> bool {
        &&& self.wf()
        &&& self.shape@.univ_ok()
        &&& self.shape@.rows.len() < usize::MAX
        &&& is_packing(self.shape@.rows, chosen)
        &&& self.covered@ == union_of(self.shape@.rows, chosen)
    }

    /// `self` is in the state `o` was in.
    pub open spec fn same_state(&self, o: &Matrix) -> bool {
        &&& self.g() == o.g()
        &&& self.log@ == o.log@
        &&& self.hist@ == o.hist@
        &&& self.shape == o.shape
        &&& self.vring == o.vring
        &&& self.hring == o.hring
        &&& self.covered == o.covered
    }

    /// The size of the column whose header is `h`.
    pub open spec fn size_at(&self, h: int) -> int {
        self.g()[h].size_or_ix as int
    }

    /// No column is active: the root's ring holds the root alone.
    pub fn is_solved(&self) -> (r: bool)
        requires
            self.wf(),
        ensures
            r == (self.hring@.len() == 1),
    {
        let ghost hr = self.hring@;
        proof {
            crate::cover::lemma_hring_headers(self.shape@, hr, self.g(), self.covered@);
            lemma_ring_step(self.g(), hr, false, 0);
            if hr.len() > 1 {
                assert(hr[1] != hr[0]);
            }
        }
        self.get(0).right == 0
    }

    /// The active column of least size; of several, the first on the root's ring.
    pub fn min_size_col(&self) -> (r: Option<usize>)
        requires
            self.wf(),
        ensures
            r is None <==> self.hring@.len() == 1,
            r matches Some(c) ==> exists|i: int|
                1 <= i < self.hring@.len() && self.hring@[i] == c && (forall|j: int|
                    1 <= j < self.hring@.len() ==> self.size_at(c as int) <= #[trigger] self.size_at(
                        self.hring@[j],
                    )) && (forall|j: int|
                    1 <= j < i ==> self.size_at(c as int) < #[trigger] self.size_at(self.hring@[j])),
    {
        let ghost hr = self.hring@;
        let ghost n = hr.len() as int;
        proof {
            crate::cover::lemma_hring_headers(self.shape@, hr, self.g(), self.covered@);
            lemma_ring_step(self.g(), hr, false, 0);
        }
        let mut h = self.get(0).right;
        let mut best: Option<usize> = None;
        let mut best_size: usize = 0;
        let ghost mut i: int = 1;
        let ghost mut bi: int = 0;
        while h != 0
            invariant
                hr == self.hring@,
                n == hr.len(),
                ring(self.g(), hr, false),
                hr[0] == 0,
                1 <= i <= n,
                h == hr[wrap(i, n)],
                best is None <==> i == 1,
                best matches Some(c) ==> {
                    &&& 1 <= bi < i
                    &&& hr[bi] == c
                    &&& best_size == self.size_at(c as int)
                    &&& forall|j: int| 1 <= j < i ==> self.size_at(c as int) <= #[trigger] self.size_at(hr[j])
                    &&& forall|j: int| 1 <= j < bi ==> self.size_at(c as int) < #[trigger] self.size_at(hr[j])
                },
            decreases n - i,
        {
            proof {
                if i == n {
                    assert(h == 0);
                }
                assert(hr[i] != 0);
                lemma_ring_step(self.g(), hr, false, i);
            }
            let size = self.get(h).size_or_ix;
            match best {
                Some(_) => {
                    if size < best_size {
                        best = Some(h);
                        best_size = size;
                        proof {
                            bi = i;
                        }
                    }
                },
                None => {
                    best = Some(h);
                    best_size = size;
                    proof {
                        bi = i;
                    }
                },
            }
            proof {
                i = i + 1;
            }
            h = self.get(h).right;
        }
        proof {
            if i < n {
                assert(hr[i] != hr[0]);
            }
        }
        best
    }
}

impl Matrix {
    /// Algorithm X from the state where the rows of `chosen` are selected:
    /// picks the active column of least size and tries its rows top to
    /// bottom, each covered, searched and uncovered in turn. Stops at the
    /// first exact cover, leaving its rows in `sel`; when there is none,
    /// leaves the matrix and `sel` as they were.
    pub fn search(&mut self, sel: &mut RowSet, Ghost(chosen): Ghost<Set<int>>, Ghost(fuel): Ghost<nat>) -> (found: bool)
        requires
            old(self).solving(chosen),
            members(*old(sel)) == chosen,
            old(self).hring@.len() <= fuel,
        ensures
            final(self).shape == old(self).shape,
            final(self).g().len() == old(self).g().len(),
            found == (search_from(old(self).shape@.relem, old(self).covered@, chosen, fuel).len() > 0),
            found ==> members(*final(sel)) == search_from(old(self).shape@.relem, old(self).covered@, chosen, fuel)[0],
            found ==> is_exact_cover(old(self).shape@.rows, members(*final(sel)))
                && chosen.subset_of(members(*final(sel))),
            !found ==> (forall|t: Set<int>|
                is_exact_cover(old(self).shape@.rows, t) ==> !chosen.subset_of(t)),
            !found ==> members(*final(sel)) == chosen && final(self).same_state(old(self)),
        decreases old(self).hring@.len(),
    {
        let ghost s = self.shape@;
        let ghost k = self.covered@;
        let ghost hr = self.hring@;
        let ghost n = s.rows.len() as int;
        proof {
            lemma_rows_sets(s, self.g());
            lemma_active_iff(s, hr, self.g(), k);
            reveal(Shape::hring_ok);
        }
        if self.is_solved() {
            proof {
                lemma_search_done(s, hr, self.g(), k, chosen);
                assert(chosen.subset_of(chosen));
                assert(search_from(s.relem, k, chosen, fuel) == seq![chosen]);
            }
            return true;
        }
        let c = self.min_size_col().unwrap();
        let ghost ic = choose|i: int|
            1 <= i < self.hring@.len() && self.hring@[i] == c && (forall|j: int|
                1 <= j < self.hring@.len() ==> self.size_at(c as int) <= #[trigger] self.size_at(
                    self.hring@[j],
                )) && (forall|j: int|
                1 <= j < i ==> self.size_at(c as int) < #[trigger] self.size_at(self.hring@[j]));
        let ghost ec = s.hkey[c as int];
        let ghost col = self.vring@[ec];
        let ghost cl = col.len() as int;
        let ghost snapshot = *self;
        let ghost al = s.alive(k);
        proof {
            reveal(Shape::hring_ok);
            reveal(Shape::layout);
            assert(s.hkey.contains_key(hr[ic]));
            lemma_cols_mono(s, self.vring@, self.g(), k, k, al, Set::empty(), -1, Set::empty());
            assert(s.col_rows(ec, al, Set::empty(), -1, Set::empty()) =~= al);
            assert(s.col_ok(self.vring@, self.g(), ec, al));
            lemma_col_node(s, self.vring@, self.g(), ec, al, 0);
            assert forall|j: int| 1 <= j < hr.len() implies self.g()[hr[ic]].size_or_ix <= #[trigger] self.g()[hr[j]].size_or_ix by {
                assert(self.size_at(c as int) <= self.size_at(hr[j]));
            }
            assert forall|j: int| 1 <= j < ic implies self.g()[hr[ic]].size_or_ix < #[trigger] self.g()[hr[j]].size_or_ix by {
                assert(self.size_at(c as int) < self.size_at(hr[j]));
            }
            lemma_pivot(s, self.vring@, hr, self.g(), k, ic);
            assert(search_from(s.relem, k, chosen, fuel) == search_branch(s.relem, k, chosen, fuel, ec, n));
            lemma_col_candidates(s, self.vring@, self.g(), ec, k);
            assert forall|j: int| 0 <= j < next_row(s, col, 1) implies !#[trigger] candidates(s.rows, ec, k).contains(j) by {
                if candidates(s.rows, ec, k).contains(j) {
                    let q = choose|q: int| 1 <= q < cl && s.loc[col[q]].0 == j;
                    if q > 1 {
                        lemma_col_rows_increasing(s, self.vring@, self.g(), ec, al, 1, q);
                    }
                }
            }
            lemma_branch_skip(s.relem, k, chosen, fuel, ec, 0, next_row(s, col, 1));
        }
        let mut x = self.get(c).down;
        let ghost mut i: int = 1;
        while x != c
            invariant
                self.same_state(&snapshot),
                snapshot.solving(chosen),
                snapshot == *old(self),
                s == self.shape@,
                k == self.covered@,
                al == s.alive(k),
                members(*sel) == chosen,
                s.hdr_of.contains_key(ec),
                !k.contains(ec),
                s.hdr_of[ec] == c,
                col == self.vring@[ec],
                cl == col.len(),
                s.col_ok(self.vring@, self.g(), ec, al),
                1 <= i <= cl,
                x == col[wrap(i, cl)],
                forall|j: int|
                    1 <= j < i ==> forall|t: Set<int>|
                        is_exact_cover(s.rows, t) ==> !(#[trigger] chosen.insert(s.loc[col[j]].0)).subset_of(t),
                hr == self.hring@,
                hr.len() <= fuel,
                hr.len() > 1,
                n == s.rows.len(),
                row_sets(s.relem) == s.rows,
                ec == pivot(s.relem, k),
                search_from(s.relem, k, chosen, fuel) == search_branch(s.relem, k, chosen, fuel, ec, n),
                search_branch(s.relem, k, chosen, fuel, ec, next_row(s, col, i)) == Seq::<Set<int>>::empty(),
            decreases cl - i,
        {
            proof {
                if i == cl {
                    assert(x == c);
                }
                lemma_col_node(s, self.vring@, self.g(), ec, al, i);
                lemma_loc(s, self.g(), x as int);
            }
            let row = self.get(x).size_or_ix;
            let ghost ri = row as int;
            let ghost before = *self;
            proof {
                let l = s.loc[x as int];
                assert(s.rows[ri].contains(ec)) by {
                    lemma_row_elems(s, self.g(), ri);
                }
                assert(!chosen.contains(ri)) by {
                    if chosen.contains(ri) {
                        assert(union_of(s.rows, chosen).contains(ec));
                    }
                }
                assert(disjoint_from(s.rows[ri], k));
                assert(is_packing(s.rows, chosen.insert(ri))) by {
                    assert(s.rows[ri] != Set::<u64>::empty()) by {
                        assert(!Set::<u64>::empty().contains(ec));
                    }
                    assert forall|a: int, b: int|
                        #[trigger] chosen.insert(ri).contains(a) && #[trigger] chosen.insert(ri).contains(b) && a != b
                            implies s.rows[a].disjoint(s.rows[b]) by {
                        if a == ri || b == ri {
                            let o = if a == ri { b } else { a };
                            assert forall|e: u64| s.rows[o].contains(e) implies !s.rows[ri].contains(e) by {
                                assert(union_of(s.rows, chosen).contains(e));
                            }
                        }
                    }
                }
                assert(union_of(s.rows, chosen.insert(ri)) =~= k.union(s.rows[ri]));
            }
            proof {
                lemma_col_candidates(s, self.vring@, self.g(), ec, k);
                assert(candidates(s.rows, ec, k).contains(ri));
                assert(row_sets(s.relem)[ri] == s.rows[ri]);
                assert(candidates(row_sets(s.relem), ec, k).contains(ri));
                assert(fuel > 0);
                assert(search_branch(s.relem, k, chosen, fuel, ec, ri + 1) == search_branch(s.relem, k, chosen, fuel, ec, ri)
                    + search_from(s.relem, k.union(s.rows[ri]), chosen.insert(ri), (fuel - 1) as nat));
                lemma_branch_prefix(s.relem, k, chosen, fuel, ec, ri + 1, n);
            }
            rowset_insert(sel, row);
            let ghost mark = self.log@.len() as int;
            let cols = self.cover(x);
            let ghost covered_state = *self;
            let found = self.search(sel, Ghost(chosen.insert(ri)), Ghost((fuel - 1) as nat));
            if found {
                proof {
                    let child = search_from(s.relem, k.union(s.rows[ri]), chosen.insert(ri), (fuel - 1) as nat);
                    assert(search_branch(s.relem, k, chosen, fuel, ec, ri + 1) =~= child);
                    assert(search_branch(s.relem, k, chosen, fuel, ec, n)[0] == child[0]);
                }
                return true;
            }
            proof {
                assert(self.uncover_ready(x as int, cols@, mark)) by {
                    assert(covered_state.uncover_ready(x as int, cols@, mark));
                }
            }
            self.uncover(x, cols, Ghost(mark));
            proof {
                self.vring = Ghost(before.vring@);
                self.hring = Ghost(before.hring@);
                self.covered = Ghost(before.covered@);
                assert(self.log@ =~= before.log@);
                assert(self.hist@ =~= before.hist@);
            }
            rowset_remove(sel, row);
            proof {
                assert(members(*sel) =~= chosen);
                assert(search_branch(s.relem, k, chosen, fuel, ec, ri + 1) =~= Seq::<Set<int>>::empty());
                assert forall|j: int| ri + 1 <= j < next_row(s, col, i + 1) implies !#[trigger] candidates(s.rows, ec, k).contains(j) by {
                    if candidates(s.rows, ec, k).contains(j) {
                        let q = choose|q: int| 1 <= q < cl && s.loc[col[q]].0 == j;
                        if q <= i {
                            if q < i {
                                lemma_col_rows_increasing(s, self.vring@, self.g(), ec, al, q, i);
                            }
                        } else if q > i + 1 {
                            lemma_col_rows_increasing(s, self.vring@, self.g(), ec, al, i + 1, q);
                        }
                    }
                }
                if i + 1 < cl {
                    lemma_col_rows_increasing(s, self.vring@, self.g(), ec, al, i, i + 1);
                }
                lemma_branch_skip(s.relem, k, chosen, fuel, ec, ri + 1, next_row(s, col, i + 1));
                i = i + 1;
                lemma_col_node(s, self.vring@, self.g(), ec, al, i - 1);
            }
            x = self.get(x).down;
        }
        proof {
            if i < cl {
                assert(col[i] != col[0]);
            }
            lemma_search_complete(s, self.vring@, self.g(), k, chosen, ec);
        }
        false
    }
}

/// Keeps, in their order, the labels whose positions `sel` holds.
fn keep_selected<L>(labels: Vec<L>, sel: &RowSet) -> (r: Vec<L>)
    ensures
        r@ == select(labels@, members(*sel)),
{
    let ghost l0 = labels@;
    let ghost ss = members(*sel);
    let mut labels = labels;
    let mut kept: Vec<L> = Vec::new();
    while labels.len() > 0
        invariant
            labels@ == l0.take(labels@.len() as int),
            labels@.len() <= l0.len(),
            select(l0, ss) == select(labels@, ss) + reversed(kept@),
            ss == members(*sel),
        decreases labels@.len(),
    {
        let ghost before = labels@;
        let l = labels.pop().unwrap();
        proof {
            assert(before =~= labels@.push(l));
            lemma_select_push(labels@, l, ss);
            assert forall|j: int| 0 <= j < labels@.len() implies labels@[j] == l0[j] by {
                assert(labels@[j] == before[j]);
            }
            assert(labels@ =~= l0.take(labels@.len() as int));
        }
        if rowset_contains(sel, labels.len()) {
            proof {
                assert(reversed(kept@.push(l)) =~= seq![l] + reversed(kept@));
                assert(select(labels@, ss).push(l) + reversed(kept@) =~= select(labels@, ss) + (seq![l] + reversed(kept@)));
            }
            kept.push(l);
        }
    }
    proof {
        assert(l0.take(l0.len() as int) =~= l0);
        assert(select(labels@, ss) == Seq::<L>::empty());
        assert(select(l0, ss) =~= reversed(kept@));
    }
    reverse_vec(kept)
}

/// The search engine over a finished problem: the matrix and the labels of its rows.
pub struct Solver<L> {
    matrix: Matrix,
    labels: Vec<L>,
}

impl<L> Solver<L> {
    /// The subset of each row.
    pub closed spec fn rows(&self) -> Seq<Set<u64>> {
        self.matrix.shape@.rows
    }

    /// The label of each row.
    pub closed spec fn labels(&self) -> Seq<L> {
        self.labels@
    }

    /// The subset of each row, as given.
    pub closed spec fn subsets(&self) -> Seq<Seq<u64>> {
        self.matrix.shape@.relem
    }

    /// The solver's invariant: the matrix is intact and nothing is selected.
    pub closed spec fn inv(&self) -> bool {
        &&& self.matrix.solving(Set::empty())
        &&& self.labels@.len() == self.matrix.shape@.rows.len()
        &&& self.matrix.g().len() <= 1 + 2 * seq_total(self.matrix.shape@.relem)
    }

    /// The matrix, ready for a search, and the labels.
    pub fn into_parts(self) -> (r: (Matrix, Vec<L>))
        requires
            self.inv(),
        ensures
            r.0.solving(Set::empty()),
            r.0.shape@.rows == self.rows(),
            r.0.shape@.relem == self.subsets(),
            r.0.g().len() <= 1 + 2 * seq_total(self.subsets()),
            r.1@ == self.labels(),
    {
        let Solver { matrix, labels } = self;
        (matrix, labels)
    }

    /// Takes over the matrix and the labels of a problem.
    pub fn new(problem: Problem<L>) -> (r: Self)
        requires
            problem.inv(),
            problem.labels().len() < usize::MAX,
        ensures
            r.inv(),
            r.rows() == problem.rows(),
            r.subsets() == problem.subsets(),
            r.labels() == problem.labels(),
    {
        proof {
            problem.lemma_inv();
        }
        let Problem { matrix, labels, .. } = problem;
        proof {
            assert(union_of(matrix.shape@.rows, Set::empty()) =~= Set::<u64>::empty());
        }
        Solver { matrix, labels }
    }

    /// The labels of the rows of the first exact cover that Algorithm X
    /// meets, in row order, or `None` when the rows have no exact cover.
    pub fn solve(self) -> (r: Option<Vec<L>>)
        requires
            self.inv(),
        ensures
            r is None <==> search_order(self.subsets()).len() == 0,
            r matches Some(v) ==> v@ == select(self.labels(), search_order(self.subsets())[0]),
            match r {
                Some(v) => exists|sel: Set<int>|
                    is_exact_cover(self.rows(), sel) && v@ == select(self.labels(), sel),
                None => !has_exact_cover(self.rows()),
            },
    {
        let ghost rows = self.rows();
        let ghost subs = self.subsets();
        let Solver { mut matrix, labels } = self;
        let mut sel = rowset_new();
        proof {
            reveal(Shape::hring_ok);
            crate::ring::lemma_ring_len(matrix.g(), matrix.hring@, false);
            assert(matrix.covered@ =~= Set::<u64>::empty());
        }
        if matrix.search(&mut sel, Ghost(Set::empty()), Ghost((2 * seq_total(subs) + 2) as nat)) {
            Some(keep_selected(labels, &sel))
        } else {
            proof {
                assert forall|t: Set<int>| !is_exact_cover(rows, t) by {
                    assert(Set::<int>::empty().subset_of(t));
                }
            }
            None
        }
    }
}

} // verus!
