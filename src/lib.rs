//! Exact cover by Knuth's Algorithm X over a dancing-links matrix.
//!
//! A problem is a sequence of labelled subsets of a universe of `u64`
//! elements. `solve` returns the labels of a subfamily that partitions the
//! universe (every element of every subset lies in exactly one chosen
//! subset), or `None` when there is none.
use vstd::prelude::*;

pub mod arena;
pub mod cover;
pub mod dlx;
pub mod enumerate;
pub mod grow;
pub mod inv;
pub mod keymap;
pub mod laws;
pub mod matrix;
pub mod node;
pub mod order;
pub mod problem;
pub mod ring;
pub mod rowset;
pub mod solver;
pub mod spec;
pub mod sudoku;

pub use problem::Problem;
pub use enumerate::Solutions;
pub use solver::Solver;

verus! {

use crate::spec::{has_exact_cover, is_exact_cover, reverse_vec, reversed, search_order, select};

/// The subset of each pair, as a set.
pub open spec fn rows_of<L>(s: Seq<(L, Vec<u64>)>) -> Seq<Set<u64>> {
    Seq::new(s.len(), |i: int| s[i].1@.to_set())
}

/// The subset of each pair, its elements in the order given.
pub open spec fn subsets_of<L>(s: Seq<(L, Vec<u64>)>) -> Seq<Seq<u64>> {
    Seq::new(s.len(), |i: int| s[i].1@)
}

/// The label of each pair.
pub open spec fn labels_of<L>(s: Seq<(L, Vec<u64>)>) -> Seq<L> {
    Seq::new(s.len(), |i: int| s[i].0)
}

/// The number of elements over all subsets.
pub open spec fn total_len<L>(s: Seq<(L, Vec<u64>)>) -> nat
    decreases s.len(),
{
    if s.len() == 0 {
        0
    } else {
        total_len(s.drop_last()) + s.last().1@.len()
    }
}

proof fn lemma_total_len_take<L>(s: Seq<(L, Vec<u64>)>, i: int)
    requires
        0 <= i < s.len(),
    ensures
        total_len(s.take(i + 1)) == total_len(s.take(i)) + s[i].1@.len(),
        total_len(s.take(i + 1)) <= total_len(s),
    decreases s.len(),
{
    assert(s.take(i + 1).drop_last() =~= s.take(i));
    if i + 1 < s.len() {
        lemma_total_len_take(s.drop_last(), i);
        assert(s.drop_last().take(i + 1) =~= s.take(i + 1));
        assert(s.drop_last().take(i) =~= s.take(i));
    } else {
        assert(s.take(i + 1) =~= s);
    }
}

/// The problem whose rows are the subsets, in order, with their labels.
/// Each subset lists its elements once.
pub fn problem_of<L>(subsets: Vec<(L, Vec<u64>)>) -> (p: Problem<L>)
    requires
        forall|i: int| 0 <= i < subsets@.len() ==> (#[trigger] subsets@[i]).1@.no_duplicates(),
        2 * total_len(subsets@) + 3 < usize::MAX,
        subsets@.len() + 1 < usize::MAX,
    ensures
        p.inv(),
        p.rows() == rows_of(subsets@),
        p.subsets() == subsets_of(subsets@),
        p.labels() == labels_of(subsets@),
{
    let ghost s0 = subsets@;
    let n = subsets.len();
    let mut rest = reverse_vec(subsets);
    let mut problem = Problem::new();
    let mut i: usize = 0;
    while i < n
        invariant
            n == s0.len(),
            0 <= i <= n,
            rest@ == reversed(s0).take(n - i),
            problem.inv(),
            problem.rows() == rows_of(s0).take(i as int),
            problem.subsets() == subsets_of(s0).take(i as int),
            problem.labels() == labels_of(s0).take(i as int),
            problem.node_count() <= 1 + 2 * total_len(s0.take(i as int)),
            forall|j: int| 0 <= j < s0.len() ==> (#[trigger] s0[j]).1@.no_duplicates(),
            2 * total_len(s0) + 3 < usize::MAX,
            n + 1 < usize::MAX,
        decreases n - i,
    {
        let (label, subset) = rest.pop().unwrap();
        proof {
            assert(reversed(s0)[n - i - 1] == s0[i as int]);
            assert(rest@ =~= reversed(s0).take(n - i - 1));
            lemma_total_len_take(s0, i as int);
        }
        problem.add_subset(label, subset);
        proof {
            assert(rows_of(s0).take(i as int).push(s0[i as int].1@.to_set()) =~= rows_of(s0).take(i + 1));
            assert(subsets_of(s0).take(i as int).push(s0[i as int].1@) =~= subsets_of(s0).take(i + 1));
            assert(labels_of(s0).take(i as int).push(s0[i as int].0) =~= labels_of(s0).take(i + 1));
        }
        i += 1;
    }
    proof {
        assert(rows_of(s0).take(n as int) =~= rows_of(s0));
        assert(subsets_of(s0).take(n as int) =~= subsets_of(s0));
        assert(labels_of(s0).take(n as int) =~= labels_of(s0));
    }
    problem
}

/// Solves the exact cover problem given by labelled subsets: the labels of
/// the first exact cover that Algorithm X meets (`search_order`), in the
/// order of the subsets, or `None` when there is no exact cover. Each subset
/// lists its elements once.
pub fn solve<L>(subsets: Vec<(L, Vec<u64>)>) -> (r: Option<Vec<L>>)
    requires
        forall|i: int| 0 <= i < subsets@.len() ==> (#[trigger] subsets@[i]).1@.no_duplicates(),
        2 * total_len(subsets@) + 3 < usize::MAX,
        subsets@.len() + 1 < usize::MAX,
    ensures
        r is None <==> search_order(subsets_of(subsets@)).len() == 0,
        r matches Some(v) ==> v@ == select(labels_of(subsets@), search_order(subsets_of(subsets@))[0]),
        match r {
            Some(v) => exists|sel: Set<int>|
                is_exact_cover(rows_of(subsets@), sel) && v@ == select(labels_of(subsets@), sel),
            None => !has_exact_cover(rows_of(subsets@)),
        },
{
    Solver::new(problem_of(subsets)).solve()
}

/// Every exact cover of the problem given by labelled subsets, each once,
/// in the order in which Algorithm X meets them (`search_order`), handed
/// out as label lists in the order of the subsets. Each subset lists
/// its elements once.
pub fn solutions<L: Clone>(subsets: Vec<(L, Vec<u64>)>) -> (r: Solutions<L>)
    requires
        forall|i: int| 0 <= i < subsets@.len() ==> (#[trigger] subsets@[i]).1@.no_duplicates(),
        2 * total_len(subsets@) + 3 < usize::MAX,
        subsets@.len() + 1 < usize::MAX,
    ensures
        r.inv(),
        r.labels() == labels_of(subsets@),
        r.position() == 0,
        r.covers().no_duplicates(),
        r.covers().to_set() == Set::new(|t: Set<int>| is_exact_cover(rows_of(subsets@), t)),
        r.covers() == search_order(subsets_of(subsets@)),
{
    Solver::new(problem_of(subsets)).solutions()
}

} // verus!
