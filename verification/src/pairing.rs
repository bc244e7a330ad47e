//! Trusted boundary to the pairing library.
//!
//! The scheme works over the BLS12-381 groups of `amcl_wrapper`: `G1` is the
//! signature group, `G2` the verification group, `GT` the pairing target and
//! `FieldElement` the scalar field.  Group elements are opaque to the
//! verifier; each deterministic operation of the library is given a name (an
//! uninterpreted spec function), and every wrapper below states its result
//! through those names.  All verified reasoning about the algebra goes
//! through these contracts and nothing else.

use vstd::prelude::*;

use amcl_wrapper::extension_field_gt::GT;
use amcl_wrapper::field_elem::FieldElement;
use amcl_wrapper::group_elem::GroupElement;
use amcl_wrapper::group_elem_g1::G1;
use amcl_wrapper::group_elem_g2::G2;

verus! {

#[verifier::external_type_specification]
#[verifier::external_body]
pub struct ExFieldElement(FieldElement);

#[verifier::external_type_specification]
#[verifier::external_body]
pub struct ExG1(G1);

#[verifier::external_type_specification]
#[verifier::external_body]
pub struct ExG2(G2);

#[verifier::external_type_specification]
#[verifier::external_body]
pub struct ExGT(GT);

/// The scalar that `FieldElement::from_msg_hash` derives from a byte string.
pub uninterp spec fn fe_of_hash(msg: Seq<u8>) -> FieldElement;

/// The sum of two signature-group points, as `G1::plus` computes it.
pub uninterp spec fn g1_sum(a: G1, b: G1) -> G1;

/// The scalar multiple of a signature-group point, as
/// `G1::scalar_mul_const_time` computes it.
pub uninterp spec fn g1_scale(p: G1, s: FieldElement) -> G1;

/// The signature-group point that `G1::from_msg_hash` derives from bytes.
pub uninterp spec fn g1_of_hash(msg: Seq<u8>) -> G1;

/// The uncompressed serialization of a signature-group point.
pub uninterp spec fn g1_bytes(p: G1) -> Seq<u8>;

/// Whether a signature-group point is the group identity.
pub uninterp spec fn g1_is_ident(p: G1) -> bool;

/// Whether a signature-group point lies in the prime-order subgroup.
pub uninterp spec fn g1_order_ok(p: G1) -> bool;

/// The sum of two verification-group points, as `G2::plus` computes it.
pub uninterp spec fn g2_sum(a: G2, b: G2) -> G2;

/// The scalar multiple of a verification-group point, as
/// `G2::scalar_mul_const_time` computes it.
pub uninterp spec fn g2_scale(p: G2, s: FieldElement) -> G2;

/// The verification-group point that `G2::from_msg_hash` derives from bytes.
pub uninterp spec fn g2_of_hash(msg: Seq<u8>) -> G2;

/// The uncompressed serialization of a verification-group point.
pub uninterp spec fn g2_bytes(p: G2) -> Seq<u8>;

/// Whether a verification-group point is the group identity.
pub uninterp spec fn g2_is_ident(p: G2) -> bool;

/// Whether a verification-group point lies in the prime-order subgroup.
pub uninterp spec fn g2_order_ok(p: G2) -> bool;

/// The negation of a verification-group point, as `G2::negation` computes it.
pub uninterp spec fn g2_neg(p: G2) -> G2;

/// The product of pairings that `GT::ate_multi_pairing` computes over a
/// sequence of `(G1, G2)` pairs.
pub uninterp spec fn multi_pairing(pairs: Seq<(G1, G2)>) -> GT;

/// Whether a target-group element is the unit, as `GT::is_one` reports it.
pub uninterp spec fn gt_is_one(e: GT) -> bool;

/// Relies on `FieldElement::from_msg_hash`: hash-to-field over SHAKE,
/// a function of the message bytes alone.
#[verifier::external_body]
pub(crate) fn hash_to_field(msg: &[u8]) -> (r: FieldElement)
    ensures
        r == fe_of_hash(msg@),
{
    FieldElement::from_msg_hash(msg)
}

/// Relies on `FieldElement::random`: a fresh scalar from the process
/// entropy source.  Nothing can be promised of the value.
#[verifier::external_body]
pub(crate) fn random_field_element() -> FieldElement {
    FieldElement::random()
}

/// Relies on `FieldElement::zero`: overwrites the scalar with zero.
/// Used only for secret-material hygiene before a value is dropped.
#[verifier::external_body]
pub(crate) fn fe_wipe(s: &mut FieldElement) {
    *s = FieldElement::zero();
}

/// Relies on `G1::plus`: group addition, a function of its arguments alone.
#[verifier::external_body]
pub(crate) fn g1_add(a: &G1, b: &G1) -> (r: G1)
    ensures
        r == g1_sum(*a, *b),
{
    a.plus(b)
}

/// Relies on `G1::scalar_mul_const_time`: scalar multiplication, a function
/// of its arguments alone.
#[verifier::external_body]
pub(crate) fn g1_mul(p: &G1, s: &FieldElement) -> (r: G1)
    ensures
        r == g1_scale(*p, *s),
{
    p.scalar_mul_const_time(s)
}

/// Relies on `G1::from_msg_hash`: hash-to-curve, a function of the bytes
/// alone.
#[verifier::external_body]
pub(crate) fn g1_hash(msg: &[u8]) -> (r: G1)
    ensures
        r == g1_of_hash(msg@),
{
    G1::from_msg_hash(msg)
}

/// Relies on `G1::to_bytes` (uncompressed): serialization, a function of
/// the point alone.
#[verifier::external_body]
pub(crate) fn g1_to_bytes(p: &G1) -> (r: Vec<u8>)
    ensures
        r@ == g1_bytes(*p),
{
    p.to_bytes(false)
}

/// Relies on `G1::is_identity`: reports whether the point is at infinity.
#[verifier::external_body]
pub(crate) fn g1_identity_check(p: &G1) -> (r: bool)
    ensures
        r == g1_is_ident(*p),
{
    p.is_identity()
}

/// Relies on `G1::has_correct_order`: reports whether the point lies in the
/// prime-order subgroup.
#[verifier::external_body]
pub(crate) fn g1_order_check(p: &G1) -> (r: bool)
    ensures
        r == g1_order_ok(*p),
{
    p.has_correct_order()
}

/// Relies on `G1::identity`: the point at infinity.
#[verifier::external_body]
pub(crate) fn g1_identity() -> G1 {
    G1::identity()
}

/// Relies on `G1::clone` (a derived field-wise copy): the clone is the same
/// value as the original.
#[verifier::external_body]
pub(crate) fn g1_clone(p: &G1) -> (r: G1)
    ensures
        r == *p,
{
    p.clone()
}

/// Relies on `G1::set_to_identity`: overwrites the point's coordinates with
/// those of the identity.  Used only for secret-material hygiene.
#[verifier::external_body]
pub(crate) fn g1_wipe(p: &mut G1) {
    p.set_to_identity();
}

/// Relies on `G2::plus`: group addition, a function of its arguments alone.
#[verifier::external_body]
pub(crate) fn g2_add(a: &G2, b: &G2) -> (r: G2)
    ensures
        r == g2_sum(*a, *b),
{
    a.plus(b)
}

/// Relies on `G2::scalar_mul_const_time`: scalar multiplication, a function
/// of its arguments alone.
#[verifier::external_body]
pub(crate) fn g2_mul(p: &G2, s: &FieldElement) -> (r: G2)
    ensures
        r == g2_scale(*p, *s),
{
    p.scalar_mul_const_time(s)
}

/// Relies on `G2::from_msg_hash`: hash-to-curve, a function of the bytes
/// alone.
#[verifier::external_body]
pub(crate) fn g2_hash(msg: &[u8]) -> (r: G2)
    ensures
        r == g2_of_hash(msg@),
{
    G2::from_msg_hash(msg)
}

/// Relies on `G2::to_bytes` (uncompressed): serialization, a function of
/// the point alone.
#[verifier::external_body]
pub(crate) fn g2_to_bytes(p: &G2) -> (r: Vec<u8>)
    ensures
        r@ == g2_bytes(*p),
{
    p.to_bytes(false)
}

/// Relies on `G2::is_identity`: reports whether the point is at infinity.
#[verifier::external_body]
pub(crate) fn g2_identity_check(p: &G2) -> (r: bool)
    ensures
        r == g2_is_ident(*p),
{
    p.is_identity()
}

/// Relies on `G2::has_correct_order`: reports whether the point lies in the
/// prime-order subgroup.
#[verifier::external_body]
pub(crate) fn g2_order_check(p: &G2) -> (r: bool)
    ensures
        r == g2_order_ok(*p),
{
    p.has_correct_order()
}

/// Relies on `G2::identity`: the point at infinity.
#[verifier::external_body]
pub(crate) fn g2_identity() -> G2 {
    G2::identity()
}

/// Relies on `G2::clone` (a derived field-wise copy): the clone is the same
/// value as the original.
#[verifier::external_body]
pub(crate) fn g2_clone(p: &G2) -> (r: G2)
    ensures
        r == *p,
{
    p.clone()
}

/// Relies on `G2::negation`: the additive inverse, a function of the point
/// alone.
#[verifier::external_body]
pub(crate) fn g2_negation(p: &G2) -> (r: G2)
    ensures
        r == g2_neg(*p),
{
    p.negation()
}

/// Relies on `G2::set_to_identity`: overwrites the point's coordinates with
/// those of the identity.  Used only for secret-material hygiene.
#[verifier::external_body]
pub(crate) fn g2_wipe(p: &mut G2) {
    p.set_to_identity();
}

/// Relies on `GT::ate_multi_pairing`: the product of the pairings of three
/// pairs, a function of the six points alone.
#[verifier::external_body]
pub(crate) fn triple_pairing(a1: &G1, b1: &G2, a2: &G1, b2: &G2, a3: &G1, b3: &G2) -> (r: GT)
    ensures
        r == multi_pairing(seq![(*a1, *b1), (*a2, *b2), (*a3, *b3)]),
{
    GT::ate_multi_pairing(vec![(a1, b1), (a2, b2), (a3, b3)])
}

/// Relies on `GT::is_one`: reports whether the element is the unit of the
/// target group.
#[verifier::external_body]
pub(crate) fn gt_is_one_check(e: &GT) -> (r: bool)
    ensures
        r == gt_is_one(*e),
{
    e.is_one()
}

} // verus!
