//! Trusted surface over the `vob` crate's bit-vector type.
//!
//! A `vob::Vob` is modelled by the sequence of bits it holds, `vob_bits`.
//! Every read or write of a `Vob` in this crate goes through one of the
//! functions below; each relies on one function of the `vob` crate.

use vstd::prelude::*;

verus! {

/// Declares `vob::Vob` so that it can stand in signatures and fields.
#[verifier::external_type_specification]
#[verifier::external_body]
#[verifier::reject_recursive_types(T)]
pub struct ExVob<T>(vob::Vob<T>);

/// The sequence of bits held by a `vob::Vob`.
pub uninterp spec fn vob_bits(v: vob::Vob) -> Seq<bool>;

/// Every bit of a sequence is clear.
pub open spec fn all_false(s: Seq<bool>) -> bool {
    forall|i: int| 0 <= i < s.len() ==> !s[i]
}

/// Relies on `vob::Vob::from_elem`: a vob of `len` bits, each set to `value`.
#[verifier::external_body]
pub fn vob_from_elem(value: bool, len: usize) -> (r: vob::Vob)
    ensures
        vob_bits(r) == Seq::new(len as nat, |i: int| value),
{
    vob::Vob::from_elem(value, len)
}

/// Relies on `vob::Vob::len`: the number of bits held.
#[verifier::external_body]
pub fn vob_len(v: &vob::Vob) -> (r: usize)
    ensures
        r == vob_bits(*v).len(),
{
    v.len()
}

/// Relies on `vob::Vob::get`: the bit at `index`, which is `Some` exactly
/// when `index` is in bounds.
#[verifier::external_body]
pub fn vob_get(v: &vob::Vob, index: usize) -> (r: bool)
    requires
        index < vob_bits(*v).len(),
    ensures
        r == vob_bits(*v)[index as int],
{
    v.get(index).unwrap()
}

/// Relies on `vob::Vob::set`: writes the bit at `index`, which must be in
/// bounds (the call panics otherwise).
#[verifier::external_body]
pub fn vob_set(v: &mut vob::Vob, index: usize, value: bool)
    requires
        index < vob_bits(*old(v)).len(),
    ensures
        vob_bits(*final(v)) == vob_bits(*old(v)).update(index as int, value),
{
    v.set(index, value);
}

/// Relies on `vob::Vob::or`: unions `other` into `v` bit by bit; the two
/// vobs must have the same length (the call panics otherwise). The result
/// reports whether any bit of `v` changed.
#[verifier::external_body]
pub fn vob_or(v: &mut vob::Vob, other: &vob::Vob) -> (changed: bool)
    requires
        vob_bits(*old(v)).len() == vob_bits(*other).len(),
    ensures
        vob_bits(*final(v)) == Seq::new(
            vob_bits(*old(v)).len(),
            |i: int| vob_bits(*old(v))[i] || vob_bits(*other)[i],
        ),
        changed == (vob_bits(*final(v)) != vob_bits(*old(v))),
{
    v.or(other)
}

/// Relies on `vob::Vob`'s `PartialEq`: two vobs are equal exactly when they
/// hold the same bit sequence (the crate keeps unused storage bits clear).
#[verifier::external_body]
pub fn vob_eq(a: &vob::Vob, b: &vob::Vob) -> (r: bool)
    ensures
        r == (vob_bits(*a) == vob_bits(*b)),
{
    a == b
}

/// Relies on `vob::Vob`'s derived `Clone`: the copy holds the same bits.
#[verifier::external_body]
pub fn vob_clone(v: &vob::Vob) -> (r: vob::Vob)
    ensures
        vob_bits(r) == vob_bits(*v),
{
    v.clone()
}

} // verus!
