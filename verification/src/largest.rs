//! The largest element of a slice, for any element type that can be compared
//! and copied.
//!
//! The element type needs only `PartialOrd`, so what can be said of the
//! result depends on what is known of the comparison:
//!
//! * whatever the comparison does, the result is an element of the slice;
//! * where the comparison computes `partial_cmp_spec`, the result is the
//!   element at [`peak`];
//! * where `partial_cmp_spec` is moreover a lawful order, no element is
//!   greater than the result ([`lemma_peak_is_maximal`]), and in a total order
//!   the result is the first of the maxima ([`lemma_peak_is_first`]).

use vstd::laws_cmp::obeys_partial_cmp_spec_properties;
use vstd::laws_eq::obeys_eq_spec_properties;
use vstd::prelude::*;
use vstd::std_specs::cmp::{PartialEqSpec, PartialOrdIs, PartialOrdSpec};

verus! {

/// Why [`largest`] has no answer.
#[derive(Debug, Clone, Copy, PartialEq, Eq, Structural)]
pub enum Error {
    /// The slice holds no element.
    EmptyInput,
}

/// Index at which a scan of `s` from left to right comes to rest: it starts on
/// the first element and moves to a later one only when that one is greater
/// than the element it is on. Of several equal maxima it therefore keeps the
/// first.
pub open spec fn peak<T: PartialOrd>(s: Seq<T>) -> int
    decreases s.len(),
{
    if s.len() <= 1 {
        0
    } else {
        let k = peak(s.drop_last());
        if s.last().is_gt(&s[k]) {
            s.len() - 1
        } else {
            k
        }
    }
}

/// Any two values of `T` are comparable.
pub open spec fn is_total<T: PartialOrd>() -> bool {
    forall|x: T, y: T| (#[trigger] x.partial_cmp_spec(&y)) is Some
}

/// `peak(s)` is an index of `s`.
pub proof fn lemma_peak_in_bounds<T: PartialOrd>(s: Seq<T>)
    requires
        s.len() > 0,
    ensures
        0 <= peak(s) < s.len(),
    decreases s.len(),
{
    if s.len() > 1 {
        lemma_peak_in_bounds(s.drop_last());
    }
}

/// Where `T` is ordered lawfully, no element of `s` is greater than the one at
/// `peak(s)`.
pub proof fn lemma_peak_is_maximal<T: PartialOrd>(s: Seq<T>)
    requires
        s.len() > 0,
        obeys_partial_cmp_spec_properties::<T>(),
    ensures
        forall|j: int| 0 <= j < s.len() ==> !(#[trigger] s[j]).is_gt(&s[peak(s)]),
    decreases s.len(),
{
    reveal(obeys_partial_cmp_spec_properties);
    if s.len() > 1 {
        let front = s.drop_last();
        let k = peak(front);
        lemma_peak_in_bounds(front);
        lemma_peak_is_maximal(front);
        assert forall|j: int| 0 <= j < s.len() implies !(#[trigger] s[j]).is_gt(&s[peak(s)]) by {
            if j < s.len() - 1 {
                assert(!front[j].is_gt(&front[k]));
            }
        }
    }
}

/// Where `T` is ordered lawfully and totally, every element of `s` before the
/// one at `peak(s)` is less than it: of several equal maxima the first is kept.
pub proof fn lemma_peak_is_first<T: PartialOrd>(s: Seq<T>)
    requires
        s.len() > 0,
        obeys_partial_cmp_spec_properties::<T>(),
        is_total::<T>(),
    ensures
        forall|j: int| 0 <= j < peak(s) ==> (#[trigger] s[j]).is_lt(&s[peak(s)]),
    decreases s.len(),
{
    if s.len() > 1 {
        let front = s.drop_last();
        let k = peak(front);
        lemma_peak_in_bounds(front);
        lemma_peak_is_first(front);
        lemma_peak_is_maximal(front);
        assert forall|j: int| 0 <= j < peak(s) implies (#[trigger] s[j]).is_lt(&s[peak(s)]) by {
            if peak(s) != k {
                assert(!front[j].is_gt(&front[k]));
                lemma_below_a_greater(s[j], s[k], s.last());
            }
        }
    }
}

/// In a lawful total order, what is not greater than `mid` is less than
/// anything greater than `mid`.
proof fn lemma_below_a_greater<T: PartialOrd>(low: T, mid: T, top: T)
    requires
        obeys_partial_cmp_spec_properties::<T>(),
        is_total::<T>(),
        !low.is_gt(&mid),
        top.is_gt(&mid),
    ensures
        low.is_lt(&top),
{
    reveal(obeys_partial_cmp_spec_properties);
    reveal(obeys_eq_spec_properties);
    if low.is_lt(&mid) {
        assert(top.is_gt(&low));
    } else {
        assert(low.is_le(&mid));
        assert(mid.eq_spec(&low));
        assert(!mid.eq_spec(&top));
        assert(low.is_le(&top));
    }
}

/// The largest element of `list`, or `Error::EmptyInput` where `list` is
/// empty.
///
/// The scan starts on the first element and takes a later one only when it
/// compares greater, so the element returned is `list[peak(list)]`.
pub fn largest<T: PartialOrd + Copy>(list: &[T]) -> (r: Result<T, Error>)
    ensures
        list@.len() == 0 ==> r == Err::<T, Error>(Error::EmptyInput),
        list@.len() > 0 ==> r is Ok && list@.contains(r->Ok_0),
        list@.len() > 0 && T::obeys_partial_cmp_spec() ==> r == Ok::<T, Error>(
            list@[peak(list@)],
        ),
        list@.len() > 0 && T::obeys_partial_cmp_spec() && obeys_partial_cmp_spec_properties::<T>()
            ==> forall|j: int| 0 <= j < list@.len() ==> !(#[trigger] list@[j]).is_gt(&r->Ok_0),
        list@.len() > 0 && T::obeys_partial_cmp_spec() && obeys_partial_cmp_spec_properties::<T>()
            && is_total::<T>() ==> forall|j: int|
            0 <= j < peak(list@) ==> (#[trigger] list@[j]).is_lt(&r->Ok_0),
{
    if list.len() == 0 {
        return Err(Error::EmptyInput);
    }
    let mut largest = list[0];
    let mut i: usize = 1;
    let ghost mut at: int = 0;
    let ghost mut seen: int = 1;
    while i < list.len()
        invariant
            1 <= i <= list@.len(),
            seen == i,
            0 <= at < seen,
            largest == list@[at],
            T::obeys_partial_cmp_spec() ==> at == peak(list@.take(seen)),
        decreases list@.len() - i,
    {
        let item = list[i];
        proof {
            assert(list@.take(seen + 1).drop_last() =~= list@.take(seen));
        }
        if item > largest {
            largest = item;
            proof {
                at = seen;
            }
        }
        i += 1;
        proof {
            seen = seen + 1;
        }
    }
    proof {
        assert(list@.take(seen) =~= list@);
        if T::obeys_partial_cmp_spec() && obeys_partial_cmp_spec_properties::<T>() {
            lemma_peak_is_maximal(list@);
            if is_total::<T>() {
                lemma_peak_is_first(list@);
            }
        }
    }
    Ok(largest)
}

/// Two runs of [`largest`] on one slice end alike, where the comparison of `T`
/// computes `partial_cmp_spec` or the slice gives it nothing to decide.
pub proof fn lemma_largest_is_deterministic<T: PartialOrd + Copy>(
    list: &[T],
    first: Result<T, Error>,
    second: Result<T, Error>,
)
    requires
        T::obeys_partial_cmp_spec() || list@.len() <= 1,
        call_ensures(largest::<T>, (list,), first),
        call_ensures(largest::<T>, (list,), second),
    ensures
        first == second,
{
}

} // verus!
