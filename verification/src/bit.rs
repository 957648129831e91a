//! The gadget that constrains a value to be a bit.

use crate::allocated::{AllocatedScalar, lemma_bound_extends};
use crate::circuit::{
    addition_row, Binding, Circuit, circuit_of, constant_row, fused_row,
    lemma_linear_value_unit, Row,
};
use crate::error::Error;
use crate::field::{
    fmul, fsub, lemma_constants, lemma_fsub_zero, lemma_residue_of_value,
    lemma_same_value_same_residue, montgomery, scalar_eq, scalar_invert, scalar_sub,
    scalar_value,
};
use crate::soundness::{lemma_bit_circuit_satisfied, lemma_bit_test, lemma_invertible_bit_is_one};
use dusk_plonk::prelude::{BlsScalar, StandardComposer};
use vstd::prelude::*;

verus! {

/// The witnesses that the bit gadget allocates for the value `v`: `1 - v`,
/// and the sum of `1 - v` and `v`.
pub open spec fn bit_witnesses(v: nat) -> Seq<nat> {
    seq![montgomery(fsub(1, v)), montgomery(1)]
}

/// The rows that the bit gadget appends for variable `x`, where `first` is
/// the first variable that it allocates: the complement and the value add up
/// to the next variable, that variable is one, and the product of the value
/// and its complement is zero.
pub open spec fn bit_rows(x: nat, first: nat) -> Seq<Row> {
    seq![
        addition_row(1, first, 1, x, first + 1, 0, None),
        constant_row(first + 1, 1, None),
        fused_row(x, first, 0, 1, 0, 0, 0, 0, None),
    ]
}

/// Whether `v` times `1 - v` is zero in the field: the test that the rows of
/// the bit gadget make of a value.
pub open spec fn passes_bit_test(v: nat) -> bool {
    fmul(v, fsub(1, v)) == 0
}

/// The circuit `c` after the bit gadget on the binding `x`.
pub open spec fn bit_circuit(c: Circuit, x: Binding) -> Circuit {
    c.extended(bit_witnesses(x.value), bit_rows(x.index, c.next()))
}

/// Constrains `x` to be zero or one: the witnesses satisfy the rows that it
/// appends exactly when `x` holds zero or one. Building never fails.
pub fn bit_gadget(composer: &mut StandardComposer, x: AllocatedScalar) -> (r: Result<(), Error>)
    requires
        x.bound_in(*old(composer)),
    ensures
        r is Ok,
        circuit_of(*final(composer)).extends(circuit_of(*old(composer))),
        circuit_of(*final(composer)) == bit_circuit(circuit_of(*old(composer)), x.binding()),
        circuit_of(*final(composer)).satisfied_from(circuit_of(*old(composer)).rows.len())
            <==> x.value() <= 1,
{
    let one = BlsScalar::one();
    let zero = BlsScalar::zero();
    // The rows ask that the value times its complement be zero. Zero and one
    // pass; a value that is neither has an inverse, and so does not.
    if !scalar_eq(&x.scalar, &zero) && !scalar_eq(&x.scalar, &one) {
        let _inverse = scalar_invert(&x.scalar);
        proof {
            lemma_residue_of_value(x.scalar);
            lemma_same_value_same_residue(x.scalar, zero);
            lemma_same_value_same_residue(x.scalar, one);
            lemma_constants();
            if passes_bit_test(x.value()) {
                lemma_invertible_bit_is_one(x.value(), scalar_value(_inverse->Some_0));
            }
        }
    }
    proof {
        lemma_bit_test(x.value());
        lemma_residue_of_value(x.scalar);
    }
    let ghost before = circuit_of(*old(composer));
    let ghost v = x.value();
    proof {
        lemma_constants();
        lemma_residue_of_value(one);
        lemma_residue_of_value(zero);
        lemma_residue_of_value(x.scalar);
        lemma_fsub_zero(1, v);
    }
    let complement = scalar_sub(&one, &x.scalar);
    proof {
        lemma_residue_of_value(complement);
    }
    let one_minus_x = AllocatedScalar::allocate(composer, complement);
    proof {
        let now = circuit_of(*composer);
        assert(now.extends(before));
        lemma_bound_extends(before, now, x.binding());
        lemma_bound_extends(now, now, one_minus_x.binding());
        lemma_linear_value_unit(fsub(1, v), v);
    }
    // x + (1 - x) = 1
    let sum = composer.add((one, one_minus_x.var), (one, x.var), zero, None);
    composer.constrain_to_constant(sum, one, None);
    // x * (1 - x) = 0
    let zero_var = composer.zero_var();
    composer.poly_gate(x.var, one_minus_x.var, zero_var, one, zero, zero, zero, zero, None);
    proof {
        let after = bit_circuit(before, x.binding());
        assert(circuit_of(*composer).witnesses =~= after.witnesses);
        assert(circuit_of(*composer).rows =~= after.rows);
        lemma_bit_circuit_satisfied(before, x.binding());
    }
    Ok(())
}

} // verus!
