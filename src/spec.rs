//! What an exact cover is.
use crate::inv::{disjoint_from, seen_before};
use vstd::prelude::*;

verus! {

/// The elements that the rows of `sel` hold.
pub open spec fn union_of(rows: Seq<Set<u64>>, sel: Set<int>) -> Set<u64> {
    Set::new(|e: u64| exists|i: int| sel.contains(i) && #[trigger] rows[i].contains(e))
}

/// `sel` names rows of `rows`, none of them empty, no two of them sharing an element.
pub open spec fn is_packing(rows: Seq<Set<u64>>, sel: Set<int>) -> bool {
    &&& forall|i: int| #[trigger] sel.contains(i) ==> 0 <= i < rows.len() && rows[i] != Set::<u64>::empty()
    &&& forall|i: int, j: int|
        #[trigger] sel.contains(i) && #[trigger] sel.contains(j) && i != j ==> rows[i].disjoint(rows[j])
}

/// The rows of `sel` partition the universe: they are a packing, and every
/// element of every row lies in one of them.
pub open spec fn is_exact_cover(rows: Seq<Set<u64>>, sel: Set<int>) -> bool {
    &&& is_packing(rows, sel)
    &&& forall|r: int, e: u64|
        0 <= r < rows.len() && #[trigger] rows[r].contains(e) ==> union_of(rows, sel).contains(e)
}

/// Some set of rows is an exact cover.
pub open spec fn has_exact_cover(rows: Seq<Set<u64>>) -> bool {
    exists|sel: Set<int>| is_exact_cover(rows, sel)
}

/// The labels whose positions are in `sel`, in their order.
pub open spec fn select<L>(labels: Seq<L>, sel: Set<int>) -> Seq<L>
    decreases labels.len(),
{
    if labels.len() == 0 {
        Seq::empty()
    } else {
        let rest = select(labels.drop_last(), sel);
        if sel.contains(labels.len() - 1) {
            rest.push(labels.last())
        } else {
            rest
        }
    }
}

/// `s` read back to front.
pub open spec fn reversed<T>(s: Seq<T>) -> Seq<T> {
    Seq::new(s.len(), |j: int| s[s.len() - 1 - j])
}

/// Moves the items of `v` into a new vector in the opposite order.
pub fn reverse_vec<T>(v: Vec<T>) -> (r: Vec<T>)
    ensures
        r@ == reversed(v@),
{
    let ghost v0 = v@;
    let mut v = v;
    let mut r: Vec<T> = Vec::new();
    while v.len() > 0
        invariant
            v@ == v0.take(v@.len() as int),
            v@.len() + r@.len() == v0.len(),
            forall|j: int| 0 <= j < r@.len() ==> #[trigger] r@[j] == v0[v0.len() - 1 - j],
        decreases v@.len(),
    {
        let x = v.pop().unwrap();
        r.push(x);
        proof {
            assert(v@ =~= v0.take(v@.len() as int));
        }
    }
    proof {
        assert(r@ =~= reversed(v0));
    }
    r
}

/// Selecting from a longer sequence adds its last label when its position is selected.
pub proof fn lemma_select_push<L>(labels: Seq<L>, l: L, sel: Set<int>)
    ensures
        select(labels.push(l), sel) == (if sel.contains(labels.len() as int) {
            select(labels, sel).push(l)
        } else {
            select(labels, sel)
        }),
{
    assert(labels.push(l).drop_last() =~= labels);
}

/// The subsets as sets.
pub open spec fn row_sets(subs: Seq<Seq<u64>>) -> Seq<Set<u64>> {
    Seq::new(subs.len(), |i: int| subs[i].to_set())
}

/// The rows that still can cover `e` once the elements of `k` are covered.
pub open spec fn candidates(rows: Seq<Set<u64>>, e: u64, k: Set<u64>) -> Set<int> {
    Set::new(|r: int| 0 <= r < rows.len() && rows[r].contains(e) && disjoint_from(rows[r], k))
}

/// `e` lies in some row and is not covered yet: its column is active.
pub open spec fn is_active(rows: Seq<Set<u64>>, k: Set<u64>, e: u64) -> bool {
    &&& exists|r: int| 0 <= r < rows.len() && #[trigger] rows[r].contains(e)
    &&& !k.contains(e)
}

/// `e` is the pivot: its active column has fewest candidate rows, and of
/// several such columns it was seen first.
pub open spec fn is_pivot(subs: Seq<Seq<u64>>, k: Set<u64>, e: u64) -> bool {
    let rows = row_sets(subs);
    &&& is_active(rows, k, e)
    &&& forall|f: u64|
        #[trigger] is_active(rows, k, f) && f != e ==> candidates(rows, e, k).len() < candidates(rows, f, k).len()
            || (candidates(rows, e, k).len() == candidates(rows, f, k).len() && seen_before(subs, e, f))
}

/// The column Algorithm X branches on with `k` covered.
pub open spec fn pivot(subs: Seq<Seq<u64>>, k: Set<u64>) -> u64 {
    choose|e: u64| is_pivot(subs, k, e)
}

/// The exact covers that Algorithm X meets, in order, from the state where
/// the rows of `chosen` are selected and the elements of `k` covered:
/// branch on the pivot, trying its candidate rows top to bottom. `fuel`
/// bounds the depth.
pub open spec fn search_from(subs: Seq<Seq<u64>>, k: Set<u64>, chosen: Set<int>, fuel: nat) -> Seq<Set<int>>
    decreases fuel, 1int, 0int,
{
    if fuel == 0 {
        Seq::empty()
    } else if !(exists|e: u64| is_active(row_sets(subs), k, e)) {
        seq![chosen]
    } else {
        search_branch(subs, k, chosen, fuel, pivot(subs, k), subs.len() as int)
    }
}

/// The covers met through the candidate rows of `e` among the first `j` rows.
pub open spec fn search_branch(subs: Seq<Seq<u64>>, k: Set<u64>, chosen: Set<int>, fuel: nat, e: u64, j: int) -> Seq<Set<int>>
    decreases fuel, 0int, j,
{
    if j <= 0 || fuel == 0 {
        Seq::empty()
    } else {
        search_branch(subs, k, chosen, fuel, e, j - 1) + (if candidates(row_sets(subs), e, k).contains(j - 1) {
            search_from(subs, k.union(row_sets(subs)[j - 1]), chosen.insert(j - 1), (fuel - 1) as nat)
        } else {
            Seq::empty()
        })
    }
}

/// The number of element occurrences over all subsets.
pub open spec fn seq_total(subs: Seq<Seq<u64>>) -> nat
    decreases subs.len(),
{
    if subs.len() == 0 {
        0
    } else {
        seq_total(subs.drop_last()) + subs.last().len()
    }
}

/// The exact covers of the subsets in the order in which Algorithm X meets
/// them: pivot on the active column of fewest candidate rows (the first
/// seen of several), candidate rows top to bottom.
pub open spec fn search_order(subs: Seq<Seq<u64>>) -> Seq<Set<int>> {
    search_from(subs, Set::empty(), Set::empty(), (2 * seq_total(subs) + 2) as nat)
}

/// Rows that are no candidates add nothing to the branch.
pub proof fn lemma_branch_skip(subs: Seq<Seq<u64>>, k: Set<u64>, chosen: Set<int>, fuel: nat, e: u64, j1: int, j2: int)
    requires
        0 <= j1 <= j2,
        forall|j: int| j1 <= j < j2 ==> !#[trigger] candidates(row_sets(subs), e, k).contains(j),
    ensures
        search_branch(subs, k, chosen, fuel, e, j2) == search_branch(subs, k, chosen, fuel, e, j1),
    decreases j2,
{
    if j2 > j1 {
        lemma_branch_skip(subs, k, chosen, fuel, e, j1, j2 - 1);
        if fuel > 0 {
            assert(search_branch(subs, k, chosen, fuel, e, j2) =~= search_branch(subs, k, chosen, fuel, e, j2 - 1));
        }
    }
}

/// A branch over more rows starts with the branch over fewer.
pub proof fn lemma_branch_prefix(subs: Seq<Seq<u64>>, k: Set<u64>, chosen: Set<int>, fuel: nat, e: u64, j1: int, j2: int)
    requires
        0 <= j1 <= j2,
    ensures
        search_branch(subs, k, chosen, fuel, e, j2).len() >= search_branch(subs, k, chosen, fuel, e, j1).len(),
        forall|i: int| 0 <= i < search_branch(subs, k, chosen, fuel, e, j1).len()
            ==> #[trigger] search_branch(subs, k, chosen, fuel, e, j2)[i] == search_branch(subs, k, chosen, fuel, e, j1)[i],
    decreases j2,
{
    if j2 > j1 {
        lemma_branch_prefix(subs, k, chosen, fuel, e, j1, j2 - 1);
    }
}

} // verus!
