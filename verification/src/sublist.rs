//! Classifies one list against another: equal, sublist, superlist, or other.

use vstd::prelude::*;
use vstd::std_specs::cmp::PartialEqSpec;

verus! {

/// How a list `a` relates to a list `b`.
#[derive(Debug, Copy, Clone, PartialEq, Eq, Structural)]
pub enum Comparison {
    /// `a` and `b` hold the same elements in the same order.
    Equal,
    /// `a` occurs contiguously inside `b`.
    Sublist,
    /// `b` occurs contiguously inside `a`.
    Superlist,
    /// None of the above.
    Other,
}

/// `a` occurs in `b` starting at offset `k`.
pub open spec fn matches_at<T: PartialEqSpec>(a: Seq<T>, b: Seq<T>, k: int) -> bool {
    &&& 0 <= k
    &&& k + a.len() <= b.len()
    &&& forall|i: int| 0 <= i < a.len() ==> a[i].eq_spec(&b[k + i])
}

/// `a` occurs contiguously somewhere in `b` (every list occurs in itself).
pub open spec fn spec_is_sublist<T: PartialEqSpec>(a: Seq<T>, b: Seq<T>) -> bool {
    exists|k: int| matches_at(a, b, k)
}

/// The classification of `a` against `b`.
pub open spec fn spec_compare<T: PartialEqSpec>(a: Seq<T>, b: Seq<T>) -> Comparison {
    if spec_is_sublist(a, b) {
        if a.len() == b.len() {
            Comparison::Equal
        } else {
            Comparison::Sublist
        }
    } else if spec_is_sublist(b, a) {
        Comparison::Superlist
    } else {
        Comparison::Other
    }
}

/// Compares `a` with the window of `b` that starts at `k`.
fn window_eq<T: PartialEq + PartialEqSpec>(a: &[T], b: &[T], k: usize) -> (r: bool)
    requires
        k + a@.len() <= b@.len(),
    ensures
        T::obeys_eq_spec() ==> r == matches_at(a@, b@, k as int),
{
    let n = a.len();
    let bn = b.len();
    for i in 0..n
        invariant
            n == a@.len(),
            bn == b@.len(),
            k + n <= bn,
            T::obeys_eq_spec() ==> forall|j: int| 0 <= j < i ==> a@[j].eq_spec(&b@[k + j]),
    {
        if !(a[i] == b[k + i]) {
            return false;
        }
    }
    true
}

/// Whether `a` occurs contiguously inside `b`. An empty `a` is a sublist of
/// everything.
pub fn is_sublist<T: PartialEq + PartialEqSpec>(a: &[T], b: &[T]) -> (r: bool)
    ensures
        T::obeys_eq_spec() ==> r == spec_is_sublist(a@, b@),
{
    if a.len() > b.len() {
        return false;
    }
    if a.len() == 0 {
        assert(matches_at(a@, b@, 0));
        return true;
    }
    let an = a.len();
    let bn = b.len();
    let last = bn - an;
    for k in 0..last + 1
        invariant
            an == a@.len(),
            bn == b@.len(),
            1 <= an <= bn,
            last == bn - an,
            T::obeys_eq_spec() ==> forall|j: int| 0 <= j < k ==> !matches_at(a@, b@, j),
    {
        if window_eq(a, b, k) {
            return true;
        }
    }
    false
}

/// Classifies `a` against `b` as `Equal`, `Sublist`, `Superlist` or `Other`.
pub fn compare<T: PartialEq + PartialEqSpec>(a: &[T], b: &[T]) -> (r: Comparison)
    ensures
        T::obeys_eq_spec() ==> r == spec_compare(a@, b@),
{
    if is_sublist(a, b) {
        if a.len() == b.len() {
            Comparison::Equal
        } else {
            Comparison::Sublist
        }
    } else if is_sublist(b, a) {
        Comparison::Superlist
    } else {
        Comparison::Other
    }
}

} // verus!
