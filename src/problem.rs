//! Building an exact cover problem, one labelled subset at a time.
use crate::arena::new_pool;
use crate::arena::pool_alloc;
use crate::grow::{lemma_open_row, shape_with_row};
use crate::inv::{log_ok, Shape};
use crate::keymap::{key_map_get, key_map_insert, KeyMap};
use crate::matrix::Matrix;
use crate::node::NodeData;
use crate::ring::ring;
use crate::spec::seq_total;
use vstd::prelude::*;

verus! {

/// An exact cover problem: labelled subsets of a universe of `u64`
/// elements, held as the rows of a dancing-links matrix.
pub struct Problem<L> {
    pub(crate) headers: KeyMap,
    pub(crate) matrix: Matrix,
    pub(crate) labels: Vec<L>,
}

impl<L> Problem<L> {
    /// The subset of each row, in the order in which they were added.
    pub closed spec fn rows(&self) -> Seq<Set<u64>> {
        self.matrix.shape@.rows
    }

    /// The label of each row.
    pub closed spec fn labels(&self) -> Seq<L> {
        self.labels@
    }

    /// The nodes of the matrix, by index; node 0 is the root.
    pub closed spec fn nodes(&self) -> Seq<NodeData> {
        self.matrix.g()
    }

    /// The root's ring, root first: the column headers in the order in
    /// which their elements were first seen.
    pub closed spec fn columns(&self) -> Seq<int> {
        self.matrix.hring@
    }

    /// The column ring of element `e`, header first, rows top to bottom.
    pub closed spec fn column(&self, e: u64) -> Seq<int> {
        self.matrix.vring@[e]
    }

    /// Element `e` has a column.
    pub closed spec fn has_column(&self, e: u64) -> bool {
        self.matrix.shape@.hdr_of.contains_key(e)
    }

    /// The subset of each row, as given: its elements in the order given.
    pub closed spec fn subsets(&self) -> Seq<Seq<u64>> {
        self.matrix.shape@.relem
    }

    /// The number of nodes of the matrix: the root, one header per element
    /// and one data node per element of each row.
    pub closed spec fn node_count(&self) -> nat {
        self.matrix.g().len()
    }

    /// The problem's invariant.
    pub closed spec fn inv(&self) -> bool {
        &&& self.matrix.building()
        &&& self.matrix.shape@.univ_ok()
        &&& self.matrix.g().len() <= 1 + 2 * seq_total(self.matrix.shape@.relem)
        &&& self.labels@.len() == self.matrix.shape@.rows.len()
        &&& forall|e: u64|
            #![trigger self.headers@.contains_key(e)]
            #![trigger self.matrix.shape@.hdr_of.contains_key(e)]
            self.headers@.contains_key(e) <==> self.matrix.shape@.hdr_of.contains_key(e)
        &&& forall|e: u64|
            self.headers@.contains_key(e) ==> #[trigger] self.headers@[e] as int
                == self.matrix.shape@.hdr_of[e]
    }

    /// What the invariant says of the matrix.
    pub(crate) proof fn lemma_inv(&self)
        requires
            self.inv(),
        ensures
            self.matrix.building(),
            self.matrix.shape@.univ_ok(),
            self.labels@.len() == self.matrix.shape@.rows.len(),
            self.rows() == self.matrix.shape@.rows,
            self.labels() == self.labels@,
            self.subsets() == self.matrix.shape@.relem,
            self.matrix.g().len() <= 1 + 2 * seq_total(self.matrix.shape@.relem),
    {
    }

    /// A problem with no subset: a matrix that holds only its root.
    pub fn new() -> (r: Self)
        ensures
            r.inv(),
            r.rows().len() == 0,
            r.subsets().len() == 0,
            r.labels().len() == 0,
            r.node_count() == 1,
            r.nodes() == seq![NodeData::spec_self_loop(0, None, 0)],
            r.columns() == seq![0int],
    {
        let mut pool = new_pool();
        let root = pool_alloc(&mut pool, NodeData::self_loop(0, None, 0));
        let ghost hr0 = seq![0int];
        let matrix = Matrix {
            pool,
            log: Ghost(Seq::empty()),
            shape: Ghost(
                Shape {
                    rows: Seq::empty(),
                    hdr_of: Map::empty(),
                    hkey: Map::empty(),
                    rring: Seq::empty(),
                    relem: Seq::empty(),
                    loc: Map::empty(),
                },
            ),
            vring: Ghost(Map::empty()),
            hring: Ghost(hr0),
            covered: Ghost(Set::empty()),
            hist: Ghost(Seq::empty()),
        };
        proof {
            reveal(Shape::layout);
            reveal(Shape::cols_ok);
            reveal(Shape::hring_ok);
            reveal(log_ok);
            assert(ring(matrix.g(), seq![0int], false));
        }
        Problem { headers: KeyMap::default(), matrix, labels: Vec::new() }
    }

    /// Adds a subset with its label as the next row.
    pub fn add_subset(&mut self, label: L, subset: Vec<u64>)
        requires
            old(self).inv(),
            subset@.no_duplicates(),
            old(self).node_count() + 2 * subset@.len() + 2 < usize::MAX,
            old(self).labels().len() + 1 < usize::MAX,
        ensures
            final(self).inv(),
            final(self).rows() == old(self).rows().push(subset@.to_set()),
            final(self).subsets() == old(self).subsets().push(subset@),
            subset@.len() == 0 ==> final(self).nodes() == old(self).nodes() && final(self).columns()
                == old(self).columns(),
            final(self).columns().len() >= old(self).columns().len(),
            final(self).columns().take(old(self).columns().len() as int) == old(self).columns(),
            forall|e: u64|
                old(self).has_column(e) && !subset@.contains(e) ==> #[trigger] final(self).column(e)
                    == old(self).column(e),
            forall|e: u64|
                old(self).has_column(e) && subset@.contains(e) ==> #[trigger] final(self).column(e).drop_last()
                    == old(self).column(e),
            final(self).labels() == old(self).labels().push(label),
            final(self).node_count() <= old(self).node_count() + 2 * subset@.len(),
    {
        let ghost rows0 = self.matrix.shape@.rows;
        let ghost relem0 = self.matrix.shape@.relem;
        let ghost hr0 = self.matrix.hring@;
        let ghost vr0 = self.matrix.vring@;
        let ghost dom0 = self.matrix.shape@.hdr_of;
        let ghost g_start = self.matrix.g();
        let ghost n0 = self.matrix.g().len();
        let r = self.labels.len();
        self.labels.push(label);
        proof {
            reveal(Shape::layout);
        }
        proof {
            lemma_open_row(self.matrix.shape@, self.matrix.vring@, self.matrix.hring@, self.matrix.g());
            let s0 = self.matrix.shape@;
            assert forall|f: u64| #[trigger] shape_with_row(s0).hdr_of.contains_key(f) implies exists|q: int|
                0 <= q < shape_with_row(s0).rows.len() && #[trigger] shape_with_row(s0).rows[q].contains(f) by {
                let q = choose|q: int| 0 <= q < s0.rows.len() && #[trigger] s0.rows[q].contains(f);
                assert(shape_with_row(s0).rows[q] == s0.rows[q]);
            }
            self.matrix.shape = Ghost(shape_with_row(self.matrix.shape@));
            assert(subset@.take(0) =~= Seq::<u64>::empty());
            assert(subset@.take(0).to_set() =~= Set::<u64>::empty());
            assert(relem0.push(subset@.take(0)).drop_last() =~= relem0);
            assert(seq_total(relem0.push(subset@.take(0))) == seq_total(relem0) + subset@.take(0).len());
            reveal(Shape::layout);
        }
        let mut row_head: Option<usize> = None;
        let mut k: usize = 0;
        while k < subset.len()
            invariant
                self.inv(),
                0 <= k <= subset@.len(),
                r + 1 == self.matrix.shape@.rows.len(),
                self.matrix.shape@.rring.len() == self.matrix.shape@.rows.len(),
                self.matrix.shape@.relem.len() == self.matrix.shape@.rows.len(),
                self.matrix.shape@.rows == rows0.push(subset@.take(k as int).to_set()),
                self.matrix.shape@.relem[r as int] == subset@.take(k as int),
                self.matrix.shape@.relem == relem0.push(subset@.take(k as int)),
                n0 <= 1 + 2 * seq_total(relem0),
                seq_total(relem0.push(subset@.take(k as int))) == seq_total(relem0) + k,
                k == 0 ==> self.matrix.g() == g_start && self.matrix.hring@ == hr0,
                self.matrix.hring@.len() >= hr0.len(),
                self.matrix.hring@.take(hr0.len() as int) == hr0,
                forall|f: u64| dom0.contains_key(f) ==> self.matrix.shape@.hdr_of.contains_key(f),
                forall|f: u64|
                    dom0.contains_key(f) && !subset@.take(k as int).contains(f) ==> #[trigger] self.matrix.vring@[f] == vr0[f],
                forall|f: u64|
                    dom0.contains_key(f) && subset@.take(k as int).contains(f) ==> #[trigger] self.matrix.vring@[f].drop_last()
                        == vr0[f],
                self.matrix.shape@.rring[r as int].len() == k,
                row_head == (if k == 0 {
                    None
                } else {
                    Some(self.matrix.shape@.rring[r as int][0] as usize)
                }),
                self.matrix.g().len() <= n0 + 2 * k,
                self.labels@ == old(self).labels@.push(label),
                subset@.no_duplicates(),
                n0 + 2 * subset@.len() + 2 < usize::MAX,
            decreases subset.len() - k,
        {
            let e = subset[k];
            let ghost old_shape_k = self.matrix.shape@;
            proof {
                assert(!subset@.take(k as int).contains(e)) by {
                    if subset@.take(k as int).contains(e) {
                        let j = choose|j: int| 0 <= j < k && subset@.take(k as int)[j] == e;
                        assert(subset@[j] == subset@[k as int]);
                    }
                }
            }
            let ghost m_before = self.matrix;
            let ghost mut mid_hring = m_before.hring@;
            let ghost mut mid_vring = m_before.vring@;
            let h = match key_map_get(&self.headers, e) {
                Some(h) => h,
                None => {
                    let h = self.matrix.add_column(e);
                    proof {
                        mid_hring = m_before.hring@.push(h as int);
                        mid_vring = m_before.vring@.insert(e, seq![h as int]);
                    }
                    key_map_insert(&mut self.headers, e, h);
                    h
                },
            };
            proof {
                assert(self.matrix.hring@ == mid_hring);
                assert(self.matrix.vring@ == mid_vring);
            }
            let x = self.matrix.add_cell(h, r, row_head, Ghost(e));
            proof {
                let s1 = self.matrix.shape@;
                assert forall|f: u64| #[trigger] s1.hdr_of.contains_key(f) implies exists|q: int|
                    0 <= q < s1.rows.len() && #[trigger] s1.rows[q].contains(f) by {
                    if f == e {
                        assert(s1.rows[r as int].contains(e));
                    } else {
                        assert(old_shape_k.hdr_of.contains_key(f));
                        let q = choose|q: int| 0 <= q < old_shape_k.rows.len() && #[trigger] old_shape_k.rows[q].contains(f);
                        assert(s1.rows[q].contains(f));
                    }
                }
            }
            if k == 0 {
                row_head = Some(x);
            }
            proof {
                assert(subset@.take(k + 1) =~= subset@.take(k as int).push(e));
                subset@.take(k as int).lemma_push_to_set_commute(e);
                assert(subset@.take(k + 1)[k as int] == e);
                assert(subset@.take(k + 1).contains(e));
                assert(mid_hring == m_before.hring@ || mid_hring == m_before.hring@.push(h as int));
                assert forall|q: int| 0 <= q < hr0.len() implies self.matrix.hring@[q] == hr0[q] by {
                    assert(m_before.hring@.take(hr0.len() as int)[q] == hr0[q]);
                }
                assert(self.matrix.hring@.take(hr0.len() as int) =~= hr0);
                assert forall|f: u64|
                    dom0.contains_key(f) && !subset@.take(k + 1).contains(f) implies #[trigger] self.matrix.vring@[f] == vr0[f] by {
                    assert(f != e);
                    assert(mid_vring[f] == m_before.vring@[f]);
                    assert(!subset@.take(k as int).contains(f)) by {
                        if subset@.take(k as int).contains(f) {
                            let j = choose|j: int| 0 <= j < k && #[trigger] subset@.take(k as int)[j] == f;
                            assert(subset@.take(k + 1)[j] == f);
                        }
                    }
                }
                assert forall|f: u64|
                    dom0.contains_key(f) && subset@.take(k + 1).contains(f) implies #[trigger] self.matrix.vring@[f].drop_last() == vr0[f] by {
                    if f == e {
                        assert(m_before.shape@.hdr_of.contains_key(e));
                        assert(m_before.vring@[e] == vr0[e]);
                        assert(self.matrix.vring@[e].drop_last() =~= vr0[e]);
                    } else {
                        let j = choose|j: int| 0 <= j < k + 1 && #[trigger] subset@.take(k + 1)[j] == f;
                        assert(j != k);
                        assert(subset@.take(k as int)[j] == f);
                    }
                }
                assert(self.matrix.shape@.rows =~= rows0.push(subset@.take(k + 1).to_set()));
                assert(self.matrix.shape@.relem =~= relem0.push(subset@.take(k + 1)));
                assert(relem0.push(subset@.take(k + 1)).drop_last() =~= relem0);
            }
            k += 1;
        }
        proof {
            assert(subset@.take(k as int) =~= subset@);
            assert(relem0.push(subset@).drop_last() =~= relem0);
            if subset@.len() == 0 {
                assert(k == 0);
            }
            assert(seq_total(relem0.push(subset@)) == seq_total(relem0) + subset@.len());
        }
    }
}

} // verus!
