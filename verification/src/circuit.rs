//! A constraint system as the contracts see it.
//!
//! A `StandardComposer` is described by two sequences: its rows, one for each
//! gate, and its witnesses, one for each variable. A variable is known by its
//! index in the sequence of witnesses. Variable 0 is the composer's zero
//! variable; it fills the fourth wire of every row that the gadgets append.

use crate::field::{
    element, fadd, fmul, fneg, in_field, modulus, montgomery, public_value, scalar_residue,
    scalar_value,
};
use dusk_plonk::prelude::{BlsScalar, StandardComposer, Variable};
use vstd::prelude::*;

verus! {

/// `Variable` of `dusk_plonk`: a handle on a witness of a composer.
#[verifier::external_type_specification]
#[verifier::external_body]
pub struct ExVariable(Variable);

/// `StandardComposer` of `dusk_plonk`: the constraint system under
/// construction.
#[verifier::external_type_specification]
#[verifier::external_body]
pub struct ExStandardComposer(StandardComposer);

/// One row of a circuit: the variables on its four wires, its selectors as
/// field elements, and its public input where it has one.
pub struct Row {
    pub a: nat,
    pub b: nat,
    pub c: nat,
    pub d: nat,
    pub q_m: nat,
    pub q_l: nat,
    pub q_r: nat,
    pub q_o: nat,
    pub q_4: nat,
    pub q_c: nat,
    pub q_arith: nat,
    pub q_range: nat,
    pub q_logic: nat,
    pub q_fixed_group_add: nat,
    pub q_variable_group_add: nat,
    pub pi: Option<nat>,
}

/// The position of a variable among the witnesses of its composer.
pub uninterp spec fn variable_index(v: Variable) -> nat;

/// The rows of a composer, in the order in which they were appended.
pub uninterp spec fn composer_rows(c: StandardComposer) -> Seq<Row>;

/// The residues of the witnesses of a composer, in the order in which they
/// were allocated.
pub uninterp spec fn composer_witnesses(c: StandardComposer) -> Seq<nat>;

/// A variable together with the field element that it is meant to hold.
pub struct Binding {
    pub index: nat,
    pub value: nat,
}

/// The values of a sequence of bindings.
pub open spec fn binding_values(xs: Seq<Binding>) -> Seq<nat> {
    Seq::new(xs.len(), |i: int| xs[i].value)
}

/// A circuit under construction: its rows and the residues of its witnesses.
pub struct Circuit {
    pub rows: Seq<Row>,
    pub witnesses: Seq<nat>,
}

impl Circuit {
    /// The circuit with more witnesses and more rows at its end.
    pub open spec fn extended(self, witnesses: Seq<nat>, rows: Seq<Row>) -> Circuit {
        Circuit { rows: self.rows + rows, witnesses: self.witnesses + witnesses }
    }

    /// The index that the next variable will get.
    pub open spec fn next(self) -> nat {
        self.witnesses.len()
    }

    /// Whether this circuit is `earlier` with witnesses and rows appended.
    pub open spec fn extends(self, earlier: Circuit) -> bool {
        earlier.rows.is_prefix_of(self.rows) && earlier.witnesses.is_prefix_of(self.witnesses)
    }

    /// The field element that variable number `i` holds.
    pub open spec fn value(self, i: nat) -> nat {
        element(self.witnesses[i as int])
    }

    /// Whether the circuit has the zero variable, which is variable 0 and
    /// holds zero.
    pub open spec fn has_zero(self) -> bool {
        0 < self.witnesses.len() && self.witnesses[0] == 0
    }

    /// Whether the binding's variable is one of the circuit's and holds the
    /// reduced scalar that stands for the binding's value.
    pub open spec fn binds(self, b: Binding) -> bool {
        &&& b.value < modulus()
        &&& b.index < self.witnesses.len()
        &&& self.witnesses[b.index as int] == montgomery(b.value)
    }
}

/// The circuit that a composer holds.
pub open spec fn circuit_of(c: StandardComposer) -> Circuit {
    Circuit { rows: composer_rows(c), witnesses: composer_witnesses(c) }
}

/// An arithmetic row. It asks that
/// `q_m * a * b + q_l * a + q_r * b + q_o * c + q_4 * d + q_c + pi = 0` in the field.
pub open spec fn arithmetic_row(
    a: nat,
    b: nat,
    c: nat,
    d: nat,
    q_m: nat,
    q_l: nat,
    q_r: nat,
    q_o: nat,
    q_4: nat,
    q_c: nat,
    pi: Option<nat>,
) -> Row {
    Row {
        a,
        b,
        c,
        d,
        q_m,
        q_l,
        q_r,
        q_o,
        q_4,
        q_c,
        q_arith: 1,
        q_range: 0,
        q_logic: 0,
        q_fixed_group_add: 0,
        q_variable_group_add: 0,
        pi,
    }
}

/// The row of a fused gate on three wires.
pub open spec fn fused_row(
    a: nat,
    b: nat,
    c: nat,
    q_m: nat,
    q_l: nat,
    q_r: nat,
    q_o: nat,
    q_c: nat,
    pi: Option<nat>,
) -> Row {
    arithmetic_row(a, b, c, 0, q_m, q_l, q_r, q_o, 0, q_c, pi)
}

/// The row that fixes variable `a` to `constant`: `a - constant + pi = 0`.
pub open spec fn constant_row(a: nat, constant: nat, pi: Option<nat>) -> Row {
    fused_row(a, a, a, 0, 1, 0, 0, fneg(constant), pi)
}

/// The row that asks two variables to be equal: `a - b = 0`.
pub open spec fn equality_row(a: nat, b: nat) -> Row {
    fused_row(a, b, 0, 0, 1, fneg(1), 0, 0, None)
}

/// The row of a linear combination: `q_l * a + q_r * b + q_c + pi - c = 0`.
pub open spec fn addition_row(
    q_l: nat,
    a: nat,
    q_r: nat,
    b: nat,
    c: nat,
    q_c: nat,
    pi: Option<nat>,
) -> Row {
    arithmetic_row(a, b, c, 0, 0, q_l, q_r, fneg(1), 0, q_c, pi)
}

/// The row of a product: `q_m * a * b + q_c + pi - c = 0`.
pub open spec fn product_row(q_m: nat, a: nat, b: nat, c: nat, q_c: nat, pi: Option<nat>) -> Row {
    arithmetic_row(a, b, c, 0, q_m, 0, 0, fneg(1), 0, q_c, pi)
}

/// A public input as a field element, zero where there is none.
pub open spec fn public_or_zero(pi: Option<nat>) -> nat {
    match pi {
        Some(p) => p,
        None => 0,
    }
}

/// The field element `(q_l * a + q_r * b + q_c + pi)`.
pub open spec fn linear_value(q_l: nat, a: nat, q_r: nat, b: nat, q_c: nat, pi: Option<nat>) -> nat {
    (q_l * a + q_r * b + q_c + public_or_zero(pi)) % modulus()
}

/// The field element `(q_m * a * b + q_c + pi)`.
pub open spec fn product_value(q_m: nat, a: nat, b: nat, q_c: nat, pi: Option<nat>) -> nat {
    (q_m * a * b + q_c + public_or_zero(pi)) % modulus()
}

/// With unit coefficients and no constant, a linear combination is a sum.
pub proof fn lemma_linear_value_unit(a: nat, b: nat)
    ensures
        linear_value(1, a, 1, b, 0, None) == fadd(a, b),
{
    assert(1 * a == a && 1 * b == b) by (nonlinear_arith);
}

/// With a unit coefficient and no constant, a scaled product is a product.
pub proof fn lemma_product_value_unit(a: nat, b: nat)
    ensures
        product_value(1, a, b, 0, None) == fmul(a, b),
{
    assert(1 * a * b == a * b) by (nonlinear_arith);
}

/// Whether `v` is a variable of the composer that holds a reduced scalar.
pub open spec fn allocated(c: StandardComposer, v: Variable) -> bool {
    variable_index(v) < composer_witnesses(c).len()
        && composer_witnesses(c)[variable_index(v) as int] < modulus()
}

/// The field element that variable number `i` of the composer holds.
pub open spec fn witness_value(c: StandardComposer, i: nat) -> nat {
    element(composer_witnesses(c)[i as int])
}

/// `StandardComposer::zero_var`: the variable that the composer reserved
/// first of all, which holds zero.
pub assume_specification[ StandardComposer::zero_var ](c: &StandardComposer) -> (v: Variable)
    ensures
        variable_index(v) == 0,
        variable_index(v) < composer_witnesses(*c).len(),
        composer_witnesses(*c)[variable_index(v) as int] == 0,
;

/// `StandardComposer::add_input`: a new variable that holds the scalar; no
/// row is appended.
pub assume_specification[ StandardComposer::add_input ](
    c: &mut StandardComposer,
    s: BlsScalar,
) -> (v: Variable)
    ensures
        variable_index(v) == composer_witnesses(*old(c)).len(),
        composer_witnesses(*final(c)) == composer_witnesses(*old(c)).push(scalar_residue(s)),
        composer_rows(*final(c)) == composer_rows(*old(c)),
;

/// `StandardComposer::add_witness_to_circuit_description`: a new variable
/// that holds the scalar, and the row that fixes it to that constant.
pub assume_specification[ StandardComposer::add_witness_to_circuit_description ](
    c: &mut StandardComposer,
    value: BlsScalar,
) -> (v: Variable)
    requires
        in_field(value),
    ensures
        variable_index(v) == composer_witnesses(*old(c)).len(),
        composer_witnesses(*final(c)) == composer_witnesses(*old(c)).push(scalar_residue(value)),
        composer_rows(*final(c)) == composer_rows(*old(c)).push(
            constant_row(composer_witnesses(*old(c)).len(), scalar_value(value), None),
        ),
;

/// `StandardComposer::poly_gate`: one fused row on the three variables, which
/// it hands back; no variable is allocated.
pub assume_specification[ StandardComposer::poly_gate ](
    c: &mut StandardComposer,
    a: Variable,
    b: Variable,
    c_out: Variable,
    q_m: BlsScalar,
    q_l: BlsScalar,
    q_r: BlsScalar,
    q_o: BlsScalar,
    q_c: BlsScalar,
    pi: Option<BlsScalar>,
) -> (r: (Variable, Variable, Variable))
    requires
        variable_index(a) < composer_witnesses(*old(c)).len(),
        variable_index(b) < composer_witnesses(*old(c)).len(),
        variable_index(c_out) < composer_witnesses(*old(c)).len(),
    ensures
        r == (a, b, c_out),
        composer_witnesses(*final(c)) == composer_witnesses(*old(c)),
        composer_rows(*final(c)) == composer_rows(*old(c)).push(
            fused_row(
                variable_index(a),
                variable_index(b),
                variable_index(c_out),
                scalar_value(q_m),
                scalar_value(q_l),
                scalar_value(q_r),
                scalar_value(q_o),
                scalar_value(q_c),
                public_value(pi),
            ),
        ),
;

/// `StandardComposer::constrain_to_constant`: the row that fixes the variable
/// to the constant; no variable is allocated.
pub assume_specification[ StandardComposer::constrain_to_constant ](
    c: &mut StandardComposer,
    a: Variable,
    constant: BlsScalar,
    pi: Option<BlsScalar>,
)
    requires
        variable_index(a) < composer_witnesses(*old(c)).len(),
        in_field(constant),
    ensures
        composer_witnesses(*final(c)) == composer_witnesses(*old(c)),
        composer_rows(*final(c)) == composer_rows(*old(c)).push(
            constant_row(variable_index(a), scalar_value(constant), public_value(pi)),
        ),
;

/// `StandardComposer::assert_equal`: the row that asks the two variables to
/// be equal; no variable is allocated.
pub assume_specification[ StandardComposer::assert_equal ](
    c: &mut StandardComposer,
    a: Variable,
    b: Variable,
)
    requires
        variable_index(a) < composer_witnesses(*old(c)).len(),
        variable_index(b) < composer_witnesses(*old(c)).len(),
    ensures
        composer_witnesses(*final(c)) == composer_witnesses(*old(c)),
        composer_rows(*final(c)) == composer_rows(*old(c)).push(
            equality_row(variable_index(a), variable_index(b)),
        ),
;

/// `StandardComposer::add`: a new variable that holds the linear combination
/// of the two variables, and the row that ties it to them.
pub assume_specification[ StandardComposer::add ](
    c: &mut StandardComposer,
    q_l_a: (BlsScalar, Variable),
    q_r_b: (BlsScalar, Variable),
    q_c: BlsScalar,
    pi: Option<BlsScalar>,
) -> (v: Variable)
    requires
        allocated(*old(c), q_l_a.1),
        allocated(*old(c), q_r_b.1),
        in_field(q_l_a.0),
        in_field(q_r_b.0),
        in_field(q_c),
        pi matches Some(p) ==> in_field(p),
    ensures
        variable_index(v) == composer_witnesses(*old(c)).len(),
        composer_witnesses(*final(c)) == composer_witnesses(*old(c)).push(
            montgomery(
                linear_value(
                    scalar_value(q_l_a.0),
                    witness_value(*old(c), variable_index(q_l_a.1)),
                    scalar_value(q_r_b.0),
                    witness_value(*old(c), variable_index(q_r_b.1)),
                    scalar_value(q_c),
                    public_value(pi),
                ),
            ),
        ),
        composer_rows(*final(c)) == composer_rows(*old(c)).push(
            addition_row(
                scalar_value(q_l_a.0),
                variable_index(q_l_a.1),
                scalar_value(q_r_b.0),
                variable_index(q_r_b.1),
                composer_witnesses(*old(c)).len(),
                scalar_value(q_c),
                public_value(pi),
            ),
        ),
;

/// `StandardComposer::mul`: a new variable that holds the scaled product of
/// the two variables, and the row that ties it to them.
pub assume_specification[ StandardComposer::mul ](
    c: &mut StandardComposer,
    q_m: BlsScalar,
    a: Variable,
    b: Variable,
    q_c: BlsScalar,
    pi: Option<BlsScalar>,
) -> (v: Variable)
    requires
        allocated(*old(c), a),
        allocated(*old(c), b),
        in_field(q_m),
        in_field(q_c),
        pi matches Some(p) ==> in_field(p),
    ensures
        variable_index(v) == composer_witnesses(*old(c)).len(),
        composer_witnesses(*final(c)) == composer_witnesses(*old(c)).push(
            montgomery(
                product_value(
                    scalar_value(q_m),
                    witness_value(*old(c), variable_index(a)),
                    witness_value(*old(c), variable_index(b)),
                    scalar_value(q_c),
                    public_value(pi),
                ),
            ),
        ),
        composer_rows(*final(c)) == composer_rows(*old(c)).push(
            product_row(
                scalar_value(q_m),
                variable_index(a),
                variable_index(b),
                composer_witnesses(*old(c)).len(),
                scalar_value(q_c),
                public_value(pi),
            ),
        ),
;

} // verus!
