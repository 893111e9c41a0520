//! Trusted boundary around the `smallvec` crate: the exponent vector of a
//! term is stored inline in a `SmallVec<[u32; 3]>`. Verus cannot declare
//! `SmallVec` itself (its generic parameter is bound by smallvec's own
//! `Array` trait), so the vector lives in a private field of an opaque
//! struct. All access from verified code goes through the small wrappers
//! below, whose contracts speak of the abstract contents `powers_of`.
use vstd::prelude::*;

verus! {

#[verifier::external_body]
pub struct PowerVec {
    store: smallvec::SmallVec<[u32; 3]>,
}

/// The sequence of slot powers that a stored exponent vector holds.
pub uninterp spec fn powers_of(v: PowerVec) -> Seq<u32>;

/// Relies on smallvec::SmallVec::from_buf: the vector holds exactly the
/// three elements of the array, in order.
#[verifier::external_body]
pub(crate) fn pv_make(a: u32, b: u32, c: u32) -> (r: PowerVec)
    ensures
        powers_of(r) == seq![a, b, c],
{
    PowerVec { store: smallvec::SmallVec::from_buf([a, b, c]) }
}

/// Relies on smallvec's Index impl, which indexes the stored elements.
#[verifier::external_body]
pub(crate) fn pv_get(v: &PowerVec, i: usize) -> (r: u32)
    requires
        i < powers_of(*v).len(),
    ensures
        r == powers_of(*v)[i as int],
{
    v.store[i]
}

/// Relies on smallvec's Clone impl, which copies the stored elements.
#[verifier::external_body]
pub(crate) fn pv_dup(v: &PowerVec) -> (r: PowerVec)
    ensures
        powers_of(r) == powers_of(*v),
{
    PowerVec { store: v.store.clone() }
}

} // verus!
