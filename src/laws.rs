//! Laws that relate several operations of the library.
use crate::matrix::{sizes_le, Matrix};
use crate::spec::{has_exact_cover, is_exact_cover, select};
use crate::spec::search_order;
use crate::{labels_of, rows_of, subsets_of};
use vstd::prelude::*;

verus! {

/// Covering a row and then uncovering it is the identity on the matrix:
/// given the state `covered` that `cover` leaves from `before` (its log
/// continues that of `before`, from `mark` on) and the state `after` that
/// `uncover` then leaves (undone down to `mark`), every link, every column
/// size and the log are back to their values in `before`.
pub proof fn law_cover_uncover(before: Matrix, covered: Matrix, after: Matrix, mark: usize)
    requires
        mark == before.log@.len(),
        covered.log_extends(&before),
        covered.log@.len() > mark,
        after.undone_to(&covered, mark as int),
    ensures
        after.g() == before.g(),
        after.log@ == before.log@,
        after.hist@ == before.hist@,
{
}

/// Column sizes come back under the uncover that matches a cover: with
/// `covered` and `after` as in `law_cover_uncover` (`cover` itself ensures
/// that no size grew), every size after the uncover equals its value before
/// the cover.
pub proof fn law_cover_sizes(before: Matrix, covered: Matrix, after: Matrix, mark: usize)
    requires
        mark == before.log@.len(),
        covered.log_extends(&before),
        covered.log@.len() > mark,
        sizes_le(covered.g(), before.g()),
        after.undone_to(&covered, mark as int),
    ensures
        forall|h: int| 0 <= h < before.g().len() ==> (#[trigger] after.g()[h]).size_or_ix == before.g()[h].size_or_ix,
{
}

/// A problem without subsets has exactly one exact cover, the empty set of
/// rows, whose label list is empty.
pub proof fn law_empty_universe<L>(subsets: Seq<(L, Vec<u64>)>)
    requires
        subsets.len() == 0,
    ensures
        has_exact_cover(rows_of(subsets)),
        forall|sel: Set<int>| #[trigger] is_exact_cover(rows_of(subsets), sel) ==> sel == Set::<int>::empty(),
        select(labels_of(subsets), Set::empty()) == Seq::<L>::empty(),
{
    let rows = rows_of(subsets);
    assert(is_exact_cover(rows, Set::empty()));
    assert forall|sel: Set<int>| #[trigger] is_exact_cover(rows, sel) implies sel == Set::<int>::empty() by {
        assert(sel =~= Set::<int>::empty());
    }
}

/// Rebuilding from the same subsets, element order included, gives the
/// same enumeration: `solutions` hands out `search_order` of the subsets,
/// and `solve` its first cover, so two builds from equal subsets agree
/// whatever the labels.
pub proof fn law_rebuild_same_order<L, M>(a: Seq<(L, Vec<u64>)>, b: Seq<(M, Vec<u64>)>)
    requires
        subsets_of(a) == subsets_of(b),
    ensures
        search_order(subsets_of(a)) == search_order(subsets_of(b)),
{
}

} // verus!
