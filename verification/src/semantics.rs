//! What the rows of a circuit ask of its witnesses.
//!
//! An assignment gives every variable a field element. An arithmetic row
//! holds under an assignment when its equation does. The lemmas of this
//! module say, for each kind of row that the gadgets append, what the row
//! asks in terms of the field's operations.

use crate::circuit::{
    addition_row, Circuit, constant_row, equality_row, fused_row, product_row, public_or_zero,
    Row,
};
use crate::field::{element, fadd, fmul, fneg, lemma_constants, lemma_modulus_is_large, modulus};
use vstd::arithmetic::div_mod::{lemma_mod_equivalence, lemma_mod_multiples_vanish, lemma_small_mod};
use vstd::prelude::*;

verus! {

/// Whether `w` gives a field element to each of its variables.
pub open spec fn is_assignment(w: Seq<nat>) -> bool {
    forall|i: int| 0 <= i < w.len() ==> #[trigger] w[i] < modulus()
}

/// The left-hand side of the equation of an arithmetic row under the
/// assignment `w`, before it is reduced modulo the field order.
pub open spec fn row_total(row: Row, w: Seq<nat>) -> nat {
    row.q_m * w[row.a as int] * w[row.b as int] + row.q_l * w[row.a as int] + row.q_r
        * w[row.b as int] + row.q_o * w[row.c as int] + row.q_4 * w[row.d as int] + row.q_c
        + public_or_zero(row.pi)
}

/// Whether an arithmetic row holds under the assignment `w`: its wires are
/// variables of `w`, and its equation holds in the field.
pub open spec fn row_holds(row: Row, w: Seq<nat>) -> bool {
    &&& row.a < w.len()
    &&& row.b < w.len()
    &&& row.c < w.len()
    &&& row.d < w.len()
    &&& row_total(row, w) % modulus() == 0
}

/// Whether all the rows hold under the assignment `w`.
pub open spec fn rows_hold(rows: Seq<Row>, w: Seq<nat>) -> bool {
    forall|i: int| 0 <= i < rows.len() ==> row_holds(#[trigger] rows[i], w)
}

impl Circuit {
    /// The assignment that the circuit's own witnesses make.
    pub open spec fn values(self) -> Seq<nat> {
        Seq::new(self.witnesses.len(), |i: int| element(self.witnesses[i]))
    }

    /// Whether the rows from position `from` on hold under the assignment
    /// `w`.
    pub open spec fn holds_from(self, from: nat, w: Seq<nat>) -> bool {
        forall|j: int| from <= j < self.rows.len() ==> row_holds(#[trigger] self.rows[j], w)
    }

    /// Whether the circuit's own witnesses satisfy its rows from position
    /// `from` on.
    pub open spec fn satisfied_from(self, from: nat) -> bool {
        self.holds_from(from, self.values())
    }
}

/// A sum with one term scaled by minus one is zero in the field exactly when
/// the rest of the sum is congruent to that term.
pub proof fn lemma_minus_one_term(rest: nat, c: nat)
    requires
        c < modulus(),
    ensures
        ((rest + fneg(1) * c) % modulus() == 0) == (rest % modulus() == c),
{
    let r = modulus() as int;
    lemma_modulus_is_large();
    lemma_constants();
    assert(rest + (r - 1) * c == r * c + (rest - c)) by (nonlinear_arith);
    lemma_mod_multiples_vanish(c as int, rest - c, r);
    lemma_mod_equivalence(rest as int, c as int, r);
    lemma_small_mod(c, modulus());
}

/// An addition row with unit coefficients asks that the output be the sum of
/// the inputs.
pub proof fn lemma_addition_row(a: nat, b: nat, c: nat, w: Seq<nat>)
    requires
        is_assignment(w),
        a < w.len(),
        b < w.len(),
        c < w.len(),
        0 < w.len(),
    ensures
        row_holds(addition_row(1, a, 1, b, c, 0, None), w) == (w[c as int] == fadd(
            w[a as int],
            w[b as int],
        )),
{
    let row = addition_row(1, a, 1, b, c, 0, None);
    let rest = w[a as int] + w[b as int];
    lemma_minus_one_term(rest, w[c as int]);
    assert(row_total(row, w) == rest + fneg(1) * w[c as int]) by (nonlinear_arith)
        requires
            row_total(row, w) == 0 * w[a as int] * w[b as int] + 1 * w[a as int] + 1 * w[b as int]
                + fneg(1) * w[c as int] + 0 * w[0] + 0 + 0,
            rest == w[a as int] + w[b as int],
    ;
}

/// A product row with a unit coefficient asks that the output be the product
/// of the inputs.
pub proof fn lemma_product_row(a: nat, b: nat, c: nat, w: Seq<nat>)
    requires
        is_assignment(w),
        a < w.len(),
        b < w.len(),
        c < w.len(),
        0 < w.len(),
    ensures
        row_holds(product_row(1, a, b, c, 0, None), w) == (w[c as int] == fmul(
            w[a as int],
            w[b as int],
        )),
{
    let row = product_row(1, a, b, c, 0, None);
    let rest = w[a as int] * w[b as int];
    lemma_minus_one_term(rest, w[c as int]);
    assert(row_total(row, w) == rest + fneg(1) * w[c as int]) by (nonlinear_arith)
        requires
            row_total(row, w) == 1 * w[a as int] * w[b as int] + 0 * w[a as int] + 0 * w[b as int]
                + fneg(1) * w[c as int] + 0 * w[0] + 0 + 0,
            rest == w[a as int] * w[b as int],
    ;
}

/// An equality row asks that the two variables hold the same element.
pub proof fn lemma_equality_row(a: nat, b: nat, w: Seq<nat>)
    requires
        is_assignment(w),
        a < w.len(),
        b < w.len(),
        0 < w.len(),
    ensures
        row_holds(equality_row(a, b), w) == (w[a as int] == w[b as int]),
{
    let row = equality_row(a, b);
    lemma_modulus_is_large();
    lemma_minus_one_term(w[a as int], w[b as int]);
    lemma_small_mod(w[a as int], modulus());
    assert(row_total(row, w) == w[a as int] + fneg(1) * w[b as int]) by (nonlinear_arith)
        requires
            row_total(row, w) == 0 * w[a as int] * w[b as int] + 1 * w[a as int] + fneg(1)
                * w[b as int] + 0 * w[0] + 0 * w[0] + 0 + 0,
    ;
}

/// A constant row asks that the variable plus the public input be the
/// constant.
pub proof fn lemma_constant_row(a: nat, constant: nat, pi: Option<nat>, w: Seq<nat>)
    requires
        is_assignment(w),
        a < w.len(),
        constant < modulus(),
    ensures
        row_holds(constant_row(a, constant, pi), w) == (fadd(w[a as int], public_or_zero(pi))
            == constant),
{
    let row = constant_row(a, constant, pi);
    let r = modulus() as int;
    let rest = w[a as int] + public_or_zero(pi);
    lemma_modulus_is_large();
    assert(row_total(row, w) == rest + fneg(constant)) by (nonlinear_arith)
        requires
            row_total(row, w) == 0 * w[a as int] * w[a as int] + 1 * w[a as int] + 0 * w[a as int]
                + 0 * w[a as int] + 0 * w[0] + fneg(constant) + public_or_zero(pi),
            rest == w[a as int] + public_or_zero(pi),
    ;
    // fneg(constant) is congruent to -constant
    vstd::arithmetic::div_mod::lemma_add_mod_noop_right(rest as int, 0 - constant, r);
    lemma_mod_equivalence(rest as int, constant as int, r);
    lemma_small_mod(constant, modulus());
}

/// The row `a * b - c = 0` asks that `c` be the product of `a` and `b`.
pub proof fn lemma_fused_product_row(a: nat, b: nat, c: nat, w: Seq<nat>)
    requires
        is_assignment(w),
        a < w.len(),
        b < w.len(),
        c < w.len(),
        0 < w.len(),
    ensures
        row_holds(fused_row(a, b, c, 1, 0, 0, fneg(1), 0, None), w) == (w[c as int] == fmul(
            w[a as int],
            w[b as int],
        )),
{
    let row = fused_row(a, b, c, 1, 0, 0, fneg(1), 0, None);
    let rest = w[a as int] * w[b as int];
    lemma_minus_one_term(rest, w[c as int]);
    assert(row_total(row, w) == rest + fneg(1) * w[c as int]) by (nonlinear_arith)
        requires
            row_total(row, w) == 1 * w[a as int] * w[b as int] + 0 * w[a as int] + 0 * w[b as int]
                + fneg(1) * w[c as int] + 0 * w[0] + 0 + 0,
            rest == w[a as int] * w[b as int],
    ;
}

/// The row `a * b = 0` asks that the product of `a` and `b` be zero.
pub proof fn lemma_fused_zero_row(a: nat, b: nat, w: Seq<nat>)
    requires
        is_assignment(w),
        a < w.len(),
        b < w.len(),
        0 < w.len(),
    ensures
        row_holds(fused_row(a, b, 0, 1, 0, 0, 0, 0, None), w) == (fmul(w[a as int], w[b as int])
            == 0),
{
    let row = fused_row(a, b, 0, 1, 0, 0, 0, 0, None);
    assert(row_total(row, w) == w[a as int] * w[b as int]) by (nonlinear_arith)
        requires
            row_total(row, w) == 1 * w[a as int] * w[b as int] + 0 * w[a as int] + 0 * w[b as int]
                + 0 * w[0] + 0 * w[0] + 0 + 0,
    ;
}

/// Where a circuit is satisfied from a position on, and a circuit that
/// extends it is satisfied from the end of the first on, the second is
/// satisfied from that position on.
pub proof fn lemma_satisfied_grows(earlier: Circuit, later: Circuit, from: nat)
    requires
        later.extends(earlier),
        earlier.satisfied_from(from),
        later.satisfied_from(earlier.rows.len()),
    ensures
        later.satisfied_from(from),
{
    let w = later.values();
    assert forall|j: int| from <= j < later.rows.len() implies row_holds(
        #[trigger] later.rows[j],
        w,
    ) by {
        if j < earlier.rows.len() {
            let row = earlier.rows[j];
            assert(row_holds(row, earlier.values()));
            assert(later.rows[j] == row);
            assert(w[row.a as int] == earlier.values()[row.a as int]);
            assert(w[row.b as int] == earlier.values()[row.b as int]);
            assert(w[row.c as int] == earlier.values()[row.c as int]);
            assert(w[row.d as int] == earlier.values()[row.d as int]);
        }
    }
}

/// The witnesses of a circuit with rows appended satisfy it from the first
/// appended row on exactly when the appended rows hold under them.
pub proof fn lemma_appended_rows(c: Circuit, witnesses: Seq<nat>, rows: Seq<Row>)
    ensures
        c.extended(witnesses, rows).satisfied_from(c.rows.len()) == rows_hold(
            rows,
            c.extended(witnesses, rows).values(),
        ),
{
    let after = c.extended(witnesses, rows);
    let w = after.values();
    if after.satisfied_from(c.rows.len()) {
        assert forall|t: int| 0 <= t < rows.len() implies row_holds(#[trigger] rows[t], w) by {
            assert(after.rows[c.rows.len() + t] == rows[t]);
        }
    }
    if rows_hold(rows, w) {
        assert forall|j: int| c.rows.len() <= j < after.rows.len() implies row_holds(
            #[trigger] after.rows[j],
            w,
        ) by {
            assert(after.rows[j] == rows[j - c.rows.len()]);
        }
    }
}

} // verus!
