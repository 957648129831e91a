//! The scalar field of BLS12-381 as the contracts see it.
//!
//! A `BlsScalar` holds four 64-bit limbs. Read as one integer they are the
//! scalar's residue; a residue below the field order stands, in Montgomery
//! form, for the field element `residue / 2^256`. The contracts speak of
//! field elements as natural numbers below the order.

use crate::error::Error;
use dusk_plonk::prelude::BlsScalar;
use vstd::arithmetic::div_mod::{
    lemma_mod_add_multiples_vanish, lemma_mod_bound, lemma_mod_sub_multiples_vanish,
    lemma_mul_mod_noop_general, lemma_small_mod,
};
use vstd::arithmetic::mul::{lemma_mul_is_associative, lemma_mul_is_commutative};
use vstd::prelude::*;

verus! {

/// `BlsScalar` of `dusk_bls12_381`, which `dusk_plonk` hands on. Nothing of
/// its inside is visible to the verifier.
#[verifier::external_type_specification]
#[verifier::external_body]
pub struct ExBlsScalar(BlsScalar);

/// The order of the scalar field.
#[verifier::opaque]
pub open spec fn modulus() -> nat {
    52435875175126190479447740508185965837690552500527637822603658699938581184513nat
}

/// Two to the power 256, the Montgomery radix.
#[verifier::opaque]
pub open spec fn radix() -> nat {
    115792089237316195423570985008687907853269984665640564039457584007913129639936nat
}

/// The inverse of the radix modulo the field order.
#[verifier::opaque]
pub open spec fn radix_inverse() -> nat {
    12549076656233958353659347336803947287922716146853412054870763148006372261952nat
}

/// The residue that stands for the field element `v`.
pub open spec fn montgomery(v: nat) -> nat {
    (v * radix()) % modulus()
}

/// The field element that the residue `m` stands for.
pub open spec fn element(m: nat) -> nat {
    (m * radix_inverse()) % modulus()
}

/// Sum of two field elements.
pub open spec fn fadd(a: nat, b: nat) -> nat {
    (a + b) % modulus()
}

/// Difference of two field elements.
pub open spec fn fsub(a: nat, b: nat) -> nat {
    ((a - b) % (modulus() as int)) as nat
}

/// The additive inverse of a field element.
pub open spec fn fneg(a: nat) -> nat {
    fsub(0, a)
}

/// Product of two field elements.
pub open spec fn fmul(a: nat, b: nat) -> nat {
    (a * b) % modulus()
}

/// The sum of a sequence of field elements; zero for the empty sequence.
pub open spec fn field_sum(values: Seq<nat>) -> nat
    decreases values.len(),
{
    if values.len() == 0 {
        0
    } else {
        fadd(field_sum(values.drop_last()), values.last())
    }
}

/// Whether `inv` is the multiplicative inverse of `a` in the field.
pub open spec fn is_inverse(a: nat, inv: nat) -> bool {
    inv < modulus() && fmul(a, inv) == 1
}

/// The multiplicative inverse of `a`, where it has one.
pub open spec fn finv(a: nat) -> nat {
    choose|inv: nat| is_inverse(a, inv)
}

/// The integer held in the four limbs of a scalar, least significant limb
/// first.
pub uninterp spec fn scalar_residue(s: BlsScalar) -> nat;

/// The integer that four 64-bit limbs spell, least significant limb first.
pub open spec fn from_limbs(l0: u64, l1: u64, l2: u64, l3: u64) -> nat {
    (l0 + 18446744073709551616 * l1 + 340282366920938463463374607431768211456 * l2
        + 6277101735386680763835789423207666416102355444464034512896 * l3) as nat
}

/// Whether a scalar is reduced, that is, stands for a field element.
pub open spec fn in_field(s: BlsScalar) -> bool {
    scalar_residue(s) < modulus()
}

/// The field element that a scalar stands for.
pub open spec fn scalar_value(s: BlsScalar) -> nat {
    element(scalar_residue(s))
}

/// The field element of an optional public input.
pub open spec fn public_value(pi: Option<BlsScalar>) -> Option<nat> {
    match pi {
        Some(p) => Some(scalar_value(p)),
        None => None,
    }
}

/// Whether every scalar of a sequence is reduced.
pub open spec fn all_in_field(s: Seq<BlsScalar>) -> bool {
    forall|i: int| 0 <= i < s.len() ==> in_field(#[trigger] s[i])
}

/// The field elements that the scalars of a sequence stand for.
pub open spec fn values_of(s: Seq<BlsScalar>) -> Seq<nat> {
    Seq::new(s.len(), |i: int| scalar_value(s[i]))
}

/// `BlsScalar::zero`: the scalar whose limbs are all zero.
pub assume_specification[ BlsScalar::zero ]() -> (r: BlsScalar)
    ensures
        scalar_residue(r) == 0,
;

/// `BlsScalar::one`: the reduced scalar that stands for the field's one.
pub assume_specification[ BlsScalar::one ]() -> (r: BlsScalar)
    ensures
        in_field(r),
        scalar_value(r) == 1,
;

/// `BlsScalar::from` on a `u64`: the reduced scalar that stands for the
/// integer.
pub assume_specification[ <BlsScalar as From<u64>>::from ](n: u64) -> (r: BlsScalar)
    ensures
        in_field(r),
        scalar_value(r) == n,
;

/// The limbs of a `BlsScalar`, which are its one, public, field.
#[verifier::external_body]
pub(crate) fn scalar_limbs(s: &BlsScalar) -> (r: [u64; 4])
    ensures
        scalar_residue(*s) == from_limbs(r[0], r[1], r[2], r[3]),
{
    s.0
}

/// Subtraction of `BlsScalar`: on reduced scalars, the reduced scalar that
/// stands for the difference in the field.
#[verifier::external_body]
pub(crate) fn scalar_sub(a: &BlsScalar, b: &BlsScalar) -> (r: BlsScalar)
    requires
        in_field(*a),
        in_field(*b),
    ensures
        in_field(r),
        scalar_value(r) == fsub(scalar_value(*a), scalar_value(*b)),
{
    a - b
}

/// Negation of `BlsScalar`: on a reduced scalar, the reduced scalar that
/// stands for its additive inverse.
#[verifier::external_body]
pub(crate) fn scalar_neg(a: &BlsScalar) -> (r: BlsScalar)
    requires
        in_field(*a),
    ensures
        in_field(r),
        scalar_value(r) == fneg(scalar_value(*a)),
{
    -a
}

/// `==` on `BlsScalar`: it compares the limbs.
#[verifier::external_body]
pub(crate) fn scalar_eq(a: &BlsScalar, b: &BlsScalar) -> (r: bool)
    ensures
        r == (scalar_residue(*a) == scalar_residue(*b)),
{
    a == b
}

/// `BlsScalar::invert`: on a reduced scalar, nothing where it stands for
/// zero, and else a reduced scalar whose product with it is one.
#[verifier::external_body]
pub(crate) fn scalar_invert(a: &BlsScalar) -> (r: Option<BlsScalar>)
    requires
        in_field(*a),
    ensures
        match r {
            Some(inv) => in_field(inv) && fmul(scalar_value(*a), scalar_value(inv)) == 1,
            None => scalar_value(*a) == 0,
        },
{
    a.invert().into()
}

/// The field order is more than two to the power 64, and so more than any
/// `u64`.
pub proof fn lemma_modulus_is_large()
    ensures
        modulus() > 0x1_0000_0000_0000_0000,
{
    reveal(modulus);
}

/// The field order is more than two to the power 254.
pub proof fn lemma_modulus_is_huge()
    ensures
        modulus() > 0x4000_0000_0000_0000_0000_0000_0000_0000 * 0x1_0000_0000_0000_0000_0000_0000_0000_0000,
{
    reveal(modulus);
}

/// The radix and its inverse cancel modulo the field order.
pub proof fn lemma_radix_inverse()
    ensures
        (radix() * radix_inverse()) % modulus() == 1,
{
    reveal(modulus);
    reveal(radix);
    reveal(radix_inverse);
    assert(radix() * radix_inverse()
        == 27711634432943687283656245953990505159342029877880134060146103271536583507967nat
        * modulus() + 1) by (nonlinear_arith)
        requires
            radix() == 115792089237316195423570985008687907853269984665640564039457584007913129639936nat,
            radix_inverse() == 12549076656233958353659347336803947287922716146853412054870763148006372261952nat,
            modulus() == 52435875175126190479447740508185965837690552500527637822603658699938581184513nat,
    ;
}

/// Decoding a residue that encodes `v` gives `v` back.
pub proof fn lemma_element_of_montgomery(v: nat)
    ensures
        montgomery(v) < modulus(),
        element(montgomery(v)) == v % modulus(),
{
    let r = modulus() as int;
    lemma_modulus_is_large();
    lemma_radix_inverse();
    lemma_mod_bound((v * radix()) as int, r);
    lemma_mul_mod_noop_general((v * radix()) as int, radix_inverse() as int, r);
    lemma_mul_is_associative(v as int, radix() as int, radix_inverse() as int);
    lemma_mul_mod_noop_general(v as int, (radix() * radix_inverse()) as int, r);
    assert(v * ((radix() * radix_inverse()) % modulus()) == v) by (nonlinear_arith)
        requires
            (radix() * radix_inverse()) % modulus() == 1,
    ;
}

/// Encoding the element of a reduced residue gives the residue back.
pub proof fn lemma_montgomery_of_element(m: nat)
    ensures
        element(m) < modulus(),
        montgomery(element(m)) == m % modulus(),
{
    let r = modulus() as int;
    lemma_modulus_is_large();
    lemma_radix_inverse();
    lemma_mod_bound((m * radix_inverse()) as int, r);
    lemma_mul_mod_noop_general((m * radix_inverse()) as int, radix() as int, r);
    lemma_mul_is_associative(m as int, radix_inverse() as int, radix() as int);
    lemma_mul_is_commutative(radix_inverse() as int, radix() as int);
    lemma_mul_mod_noop_general(m as int, (radix() * radix_inverse()) as int, r);
    assert(m * ((radix() * radix_inverse()) % modulus()) == m) by (nonlinear_arith)
        requires
            (radix() * radix_inverse()) % modulus() == 1,
    ;
}

/// Two reduced scalars stand for the same field element exactly when they
/// hold the same residue.
pub proof fn lemma_same_value_same_residue(a: BlsScalar, b: BlsScalar)
    requires
        in_field(a),
        in_field(b),
    ensures
        (scalar_value(a) == scalar_value(b)) == (scalar_residue(a) == scalar_residue(b)),
{
    lemma_montgomery_of_element(scalar_residue(a));
    lemma_montgomery_of_element(scalar_residue(b));
    lemma_small_mod(scalar_residue(a), modulus());
    lemma_small_mod(scalar_residue(b), modulus());
}

/// A field element has at most one multiplicative inverse.
pub proof fn lemma_inverse_unique(a: nat, x: nat, y: nat)
    requires
        is_inverse(a, x),
        is_inverse(a, y),
    ensures
        x == y,
{
    let r = modulus() as int;
    // x = x * (a * y) = (x * a) * y = y, all modulo the order
    lemma_mul_mod_noop_general(x as int, (a * y) as int, r);
    lemma_mul_mod_noop_general((x * a) as int, y as int, r);
    lemma_mul_is_associative(x as int, a as int, y as int);
    lemma_mul_is_commutative(x as int, a as int);
    assert(x * 1 == x && 1 * y == y) by (nonlinear_arith);
    lemma_small_mod(x, modulus());
    lemma_small_mod(y, modulus());
}

/// Zero has no multiplicative inverse.
pub proof fn lemma_zero_has_no_inverse(inv: nat)
    ensures
        !is_inverse(0, inv),
{
    assert(0 * inv == 0) by (nonlinear_arith);
}

/// A reduced scalar holds the residue that encodes its field element.
pub proof fn lemma_residue_of_value(s: BlsScalar)
    requires
        in_field(s),
    ensures
        scalar_value(s) < modulus(),
        scalar_residue(s) == montgomery(scalar_value(s)),
{
    lemma_montgomery_of_element(scalar_residue(s));
    lemma_small_mod(scalar_residue(s), modulus());
}

/// The residues that encode zero, one and minus one decode to them.
pub proof fn lemma_constants()
    ensures
        montgomery(0) == 0,
        element(montgomery(0)) == 0,
        element(montgomery(1)) == 1,
        element(montgomery(fneg(1))) == fneg(1),
        fneg(1) == modulus() - 1,
        fneg(0) == 0,
{
    lemma_modulus_is_large();
    lemma_element_of_montgomery(0);
    lemma_element_of_montgomery(1);
    lemma_element_of_montgomery(fneg(1));
    lemma_fsub_zero(0, 1);
    lemma_fsub_zero(0, 0);
    lemma_small_mod(0, modulus());
    lemma_small_mod(1, modulus());
    lemma_small_mod(fneg(1), modulus());
    lemma_mod_add_multiples_vanish(-1, modulus() as int);
    lemma_small_mod((modulus() - 1) as nat, modulus());
    assert(0 * radix() == 0) by (nonlinear_arith);
}

/// Sums and products of field elements are field elements.
pub proof fn lemma_field_closed(a: nat, b: nat)
    ensures
        fadd(a, b) < modulus(),
        fmul(a, b) < modulus(),
        fsub(a, b) < modulus(),
        fneg(a) < modulus(),
{
    lemma_modulus_is_large();
    lemma_mod_bound((a + b) as int, modulus() as int);
    lemma_mod_bound((a * b) as int, modulus() as int);
    lemma_mod_bound(a - b, modulus() as int);
    lemma_mod_bound(0 - a, modulus() as int);
}

/// The sum of a sequence is a field element, and the sum of a prefix with
/// one more element is the sum of the prefix plus that element.
pub proof fn lemma_field_sum_step(values: Seq<nat>, k: nat)
    requires
        k < values.len(),
    ensures
        field_sum(values.take(k as int)) < modulus(),
        field_sum(values.take(k as int + 1)) == fadd(field_sum(values.take(k as int)), values[k as int]),
    decreases k,
{
    lemma_modulus_is_large();
    assert(values.take(k as int + 1).drop_last() =~= values.take(k as int));
    if k > 0 {
        lemma_field_sum_step(values, (k - 1) as nat);
        lemma_field_closed(field_sum(values.take(k - 1)), values[k - 1]);
    }
}

/// The difference of two field elements is zero exactly when they are equal.
pub proof fn lemma_fsub_zero(a: nat, b: nat)
    requires
        a < modulus(),
        b < modulus(),
    ensures
        fsub(a, b) < modulus(),
        (fsub(a, b) == 0) == (a == b),
        fadd(fsub(a, b), b) == a,
{
    let r = modulus() as int;
    lemma_modulus_is_large();
    if a >= b {
        lemma_small_mod((a - b) as nat, modulus());
    } else {
        lemma_mod_add_multiples_vanish(a - b, r);
        lemma_small_mod((a - b + r) as nat, modulus());
    }
    lemma_small_mod(a, modulus());
    if fsub(a, b) + b >= r {
        lemma_mod_sub_multiples_vanish((fsub(a, b) + b) as int, r);
    }
}

/// The field order, limb by limb.
pub proof fn lemma_modulus_limbs()
    ensures
        modulus() == from_limbs(
            0xffffffff00000001,
            0x53bda402fffe5bfe,
            0x3339d80809a1d805,
            0x73eda753299d7d48,
        ),
{
    reveal(modulus);
    assert(52435875175126190479447740508185965837690552500527637822603658699938581184513int
        == 0xffffffff00000001 + 18446744073709551616 * 0x53bda402fffe5bfe
        + 340282366920938463463374607431768211456 * 0x3339d80809a1d805
        + 6277101735386680763835789423207666416102355444464034512896 * 0x73eda753299d7d48)
        by (nonlinear_arith);
}

/// Whether a scalar is reduced: whether its limbs spell a number below the
/// field order.
pub fn is_reduced(s: &BlsScalar) -> (r: bool)
    ensures
        r == in_field(*s),
{
    let limbs = scalar_limbs(s);
    proof {
        lemma_modulus_limbs();
    }
    // limb by limb against the order, the most significant first
    if limbs[3] != 0x73eda753299d7d48 {
        limbs[3] < 0x73eda753299d7d48
    } else if limbs[2] != 0x3339d80809a1d805 {
        limbs[2] < 0x3339d80809a1d805
    } else if limbs[1] != 0x53bda402fffe5bfe {
        limbs[1] < 0x53bda402fffe5bfe
    } else {
        limbs[0] < 0xffffffff00000001
    }
}

/// The difference of two reduced scalars together with its inverse, or the
/// error where the two stand for the same field element.
pub fn difference_with_inverse(a: &BlsScalar, b: &BlsScalar) -> (r: Result<
    (BlsScalar, BlsScalar),
    Error,
>)
    requires
        in_field(*a),
        in_field(*b),
    ensures
        r is Ok <==> scalar_value(*a) != scalar_value(*b),
        r matches Ok((diff, inv)) ==> {
            &&& in_field(diff)
            &&& in_field(inv)
            &&& scalar_value(diff) == fsub(scalar_value(*a), scalar_value(*b))
            &&& scalar_value(inv) == finv(scalar_value(diff))
            &&& is_inverse(scalar_value(diff), scalar_value(inv))
        },
        r matches Err(e) ==> e == Error::NonExistingInverse,
{
    let diff = scalar_sub(a, b);
    proof {
        lemma_residue_of_value(*a);
        lemma_residue_of_value(*b);
        lemma_fsub_zero(scalar_value(*a), scalar_value(*b));
    }
    match scalar_invert(&diff) {
        Some(inv) => {
            proof {
                let d = scalar_value(diff);
                lemma_residue_of_value(inv);
                lemma_zero_has_no_inverse(scalar_value(inv));
                assert(is_inverse(d, scalar_value(inv)));
                lemma_inverse_unique(d, scalar_value(inv), finv(d));
            }
            Ok((diff, inv))
        },
        None => Err(Error::NonExistingInverse),
    }
}

} // verus!
