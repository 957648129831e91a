//! Gadgets on vectors and sets: non-membership, sum, masked product,
//! membership and uniqueness.

use crate::allocated::{
    all_bound_in, allocated_values, AllocatedScalar, bindings_of, lemma_all_bound_extends,
    lemma_bound_extends,
};
use crate::bit::{bit_circuit, bit_gadget};
use crate::circuit::{
    addition_row, Binding, binding_values, Circuit, circuit_of, constant_row, equality_row,
    fused_row, lemma_linear_value_unit, lemma_product_value_unit, product_row, Row,
    variable_index,
};
use crate::error::Error;
use crate::field::{
    all_in_field, difference_with_inverse, fadd, field_sum, finv, fmul, fneg, fsub, in_field,
    lemma_constants, lemma_element_of_montgomery, lemma_field_closed, lemma_field_sum_step,
    lemma_fsub_zero, lemma_modulus_is_large, lemma_residue_of_value,
    lemma_same_value_same_residue, montgomery, scalar_eq, scalar_neg, scalar_value, values_of,
};
use crate::semantics::{lemma_satisfied_grows, row_holds};
use crate::shape::lemma_product_steps_shape;
use crate::soundness::{
    assigned, lemma_bound_value, lemma_fixed_circuit_satisfied, lemma_indicator_of_one,
    lemma_inequality_circuit_satisfied, lemma_private_sum_circuit_holds,
    lemma_product_circuit_holds, lemma_sum_circuit_holds, lemma_sum_rows_sound,
    lemma_values_are_assignment,
};
use dusk_plonk::prelude::{BlsScalar, StandardComposer, Variable};
use vstd::prelude::*;

verus! {

/// The witnesses that prove `a` and `b` distinct: their difference, the
/// inverse of the difference, the sum of the difference and `b`, and one.
pub open spec fn inequality_witnesses(a: nat, b: nat) -> Seq<nat> {
    seq![
        montgomery(fsub(a, b)),
        montgomery(finv(fsub(a, b))),
        montgomery(a),
        montgomery(1),
    ]
}

/// The rows that prove the variables `a` and `b` distinct, where `first` is
/// the first of the four variables allocated for it: the difference and `b`
/// add up to the third variable, the third equals `a`, the fourth is one, and
/// the difference times its inverse is the fourth.
pub open spec fn inequality_rows(a: nat, b: nat, first: nat) -> Seq<Row> {
    seq![
        addition_row(1, first, 1, b, first + 2, 0, None),
        equality_row(first + 2, a),
        constant_row(first + 3, 1, None),
        fused_row(first, first + 1, first + 3, 1, 0, 0, fneg(1), 0, None),
    ]
}

/// The circuit `c` after the inequality gadget on the bindings `a` and `b`.
pub open spec fn inequality_circuit(c: Circuit, a: Binding, b: Binding) -> Circuit {
    c.extended(inequality_witnesses(a.value, b.value), inequality_rows(a.index, b.index, c.next()))
}

/// Constrains `a` and `b` to hold different field elements. Where they hold
/// the same, nothing is appended and building fails.
pub fn inequality_gadget(
    composer: &mut StandardComposer,
    a: AllocatedScalar,
    b: AllocatedScalar,
) -> (r: Result<(), Error>)
    requires
        a.bound_in(*old(composer)),
        b.bound_in(*old(composer)),
    ensures
        circuit_of(*final(composer)).extends(circuit_of(*old(composer))),
        r is Ok <==> a.value() != b.value(),
        r is Ok ==> circuit_of(*final(composer)) == inequality_circuit(
            circuit_of(*old(composer)),
            a.binding(),
            b.binding(),
        ),
        r is Ok ==> circuit_of(*final(composer)).satisfied_from(
            circuit_of(*old(composer)).rows.len(),
        ),
        r matches Err(e) ==> e == Error::NonExistingInverse && circuit_of(*final(composer))
            == circuit_of(*old(composer)),
{
    let one = BlsScalar::one();
    let zero = BlsScalar::zero();
    let minus_one = scalar_neg(&one);
    proof {
        lemma_constants();
        lemma_residue_of_value(one);
        lemma_residue_of_value(zero);
        lemma_residue_of_value(minus_one);
    }
    match difference_with_inverse(&a.scalar, &b.scalar) {
        Err(e) => Err(e),
        Ok((diff, inv)) => {
            let ghost before = circuit_of(*old(composer));
            let ghost d = fsub(a.value(), b.value());
            proof {
                lemma_fsub_zero(a.value(), b.value());
                lemma_residue_of_value(diff);
                lemma_residue_of_value(inv);
            }
            let diff_assigned = AllocatedScalar::allocate(composer, diff);
            let inv_assigned = AllocatedScalar::allocate(composer, inv);
            proof {
                let now = circuit_of(*composer);
                assert(now.witnesses =~= before.witnesses + seq![montgomery(d), montgomery(finv(d))]);
                assert(now.extends(before));
                lemma_bound_extends(before, now, a.binding());
                lemma_bound_extends(before, now, b.binding());
                lemma_bound_extends(now, now, diff_assigned.binding());
                lemma_linear_value_unit(d, b.value());
            }
            // diff + b = a
            let sum = composer.add((one, diff_assigned.var), (one, b.var), zero, None);
            proof {
                let now = circuit_of(*composer);
                assert(now.witnesses =~= before.witnesses + seq![
                    montgomery(d),
                    montgomery(finv(d)),
                    montgomery(a.value()),
                ]);
            }
            composer.assert_equal(sum, a.var);
            // diff * inv - 1 = 0
            let one_var = composer.add_witness_to_circuit_description(one);
            composer.poly_gate(
                diff_assigned.var,
                inv_assigned.var,
                one_var,
                one,
                zero,
                zero,
                minus_one,
                zero,
                None,
            );
            proof {
                let after = inequality_circuit(before, a.binding(), b.binding());
                assert(circuit_of(*composer).witnesses =~= after.witnesses);
                assert(circuit_of(*composer).rows =~= after.rows);
                lemma_inequality_circuit_satisfied(before, a.binding(), b.binding());
            }
            Ok(())
        },
    }
}

/// Whether `k` is the first position at which `set` holds `v`.
pub open spec fn is_first_index_of(set: Seq<nat>, v: nat, k: nat) -> bool {
    &&& k < set.len()
    &&& set[k as int] == v
    &&& forall|j: int| 0 <= j < k ==> set[j] != v
}

/// The first position at which `set` holds `v`, where it holds it at all.
pub open spec fn first_index_of(set: Seq<nat>, v: nat) -> nat {
    choose|k: nat| is_first_index_of(set, v, k)
}

/// The circuit `c` after a new variable was allocated for the element `e` and
/// fixed to `e` as a constant of the circuit.
pub open spec fn fixed_circuit(c: Circuit, e: nat) -> Circuit {
    c.extended(seq![montgomery(e)], seq![constant_row(c.next(), e, None)])
}

/// The circuit `c` after the first `k` elements of a public set were fixed in
/// it and proved distinct from the binding `x`.
pub open spec fn non_membership_circuit(c: Circuit, set: Seq<nat>, x: Binding, k: nat) -> Circuit
    decreases k,
{
    if k == 0 {
        c
    } else {
        let before = non_membership_circuit(c, set, x, (k - 1) as nat);
        let e = set[k - 1];
        inequality_circuit(fixed_circuit(before, e), Binding { index: before.next(), value: e }, x)
    }
}

/// Constrains `value` to differ from every element of `vector`, a set that
/// both parties know: each element is fixed in the circuit as a constant.
///
/// Building fails exactly when the set holds the value. It then stops at the
/// first such element, after fixing it, and leaves what it had appended.
pub fn vector_non_membership_gadget(
    composer: &mut StandardComposer,
    vector: &Vec<BlsScalar>,
    value: AllocatedScalar,
) -> (r: Result<(), Error>)
    requires
        all_in_field(vector@),
        value.bound_in(*old(composer)),
    ensures
        circuit_of(*final(composer)).extends(circuit_of(*old(composer))),
        r is Ok <==> !values_of(vector@).contains(value.value()),
        r is Ok ==> circuit_of(*final(composer)) == non_membership_circuit(
            circuit_of(*old(composer)),
            values_of(vector@),
            value.binding(),
            vector@.len(),
        ),
        r is Ok ==> circuit_of(*final(composer)).satisfied_from(
            circuit_of(*old(composer)).rows.len(),
        ),
        r matches Err(e) ==> e == Error::NonExistingInverse && circuit_of(*final(composer))
            == fixed_circuit(
            non_membership_circuit(
                circuit_of(*old(composer)),
                values_of(vector@),
                value.binding(),
                first_index_of(values_of(vector@), value.value()),
            ),
            value.value(),
        ),
{
    let ghost start = circuit_of(*old(composer));
    let ghost set = values_of(vector@);
    let ghost x = value.binding();
    let n = vector.len();
    let mut i: usize = 0;
    while i < n
        invariant
            i <= n,
            n == vector@.len(),
            start == circuit_of(*old(composer)),
            set == values_of(vector@),
            x == value.binding(),
            all_in_field(vector@),
            value.bound_in(*composer),
            forall|j: int| 0 <= j < i ==> set[j] != x.value,
            circuit_of(*composer) == non_membership_circuit(start, set, x, i as nat),
            circuit_of(*composer).extends(start),
            circuit_of(*composer).rows.len() >= start.rows.len(),
            circuit_of(*composer).satisfied_from(start.rows.len()),
        decreases n - i,
    {
        let ghost before = circuit_of(*composer);
        let elem: BlsScalar = vector[i];
        proof {
            lemma_residue_of_value(elem);
        }
        // The set is part of the circuit: each of its elements is a constant.
        let elem_assigned = AllocatedScalar::allocate(composer, elem);
        composer.constrain_to_constant(elem_assigned.var, elem, None);
        proof {
            let now = circuit_of(*composer);
            assert(now.witnesses =~= fixed_circuit(before, set[i as int]).witnesses);
            assert(now.rows =~= fixed_circuit(before, set[i as int]).rows);
            assert(now == fixed_circuit(before, set[i as int]));
            assert(now.extends(before));
            lemma_bound_extends(before, now, x);
        }
        match inequality_gadget(composer, elem_assigned, value) {
            Err(e) => {
                proof {
                    let k = first_index_of(set, x.value);
                    assert(is_first_index_of(set, x.value, i as nat));
                    assert(is_first_index_of(set, x.value, k));
                    assert(k == i);
                    assert(set.contains(x.value));
                    assert(circuit_of(*composer) == fixed_circuit(before, x.value));
                }
                return Err(e);
            },
            Ok(()) => {},
        }
        proof {
            let middle = fixed_circuit(before, set[i as int]);
            let now = circuit_of(*composer);
            assert(now.extends(middle));
            lemma_bound_extends(middle, now, x);
            lemma_fixed_circuit_satisfied(before, set[i as int]);
            lemma_satisfied_grows(before, middle, start.rows.len());
            lemma_satisfied_grows(middle, now, start.rows.len());
        }
        i += 1;
    }
    Ok(())
}

/// The circuit `c` after the first `k` bindings of a private set were
/// proved distinct from the binding `x`.
pub open spec fn private_non_membership_circuit(
    c: Circuit,
    xs: Seq<Binding>,
    x: Binding,
    k: nat,
) -> Circuit
    decreases k,
{
    if k == 0 {
        c
    } else {
        inequality_circuit(
            private_non_membership_circuit(c, xs, x, (k - 1) as nat),
            xs[k - 1],
            x,
        )
    }
}

/// Constrains `value` to differ from every element of `vector`, a set of
/// witnesses that the verifier does not know: nothing is fixed as a
/// constant.
///
/// Building fails exactly when the set holds the value. It then stops at the
/// first such element and leaves what it had appended.
pub fn private_vector_non_membership_gadget(
    composer: &mut StandardComposer,
    vector: &Vec<AllocatedScalar>,
    value: AllocatedScalar,
) -> (r: Result<(), Error>)
    requires
        all_bound_in(vector@, *old(composer)),
        value.bound_in(*old(composer)),
    ensures
        circuit_of(*final(composer)).extends(circuit_of(*old(composer))),
        r is Ok <==> !allocated_values(vector@).contains(value.value()),
        r is Ok ==> circuit_of(*final(composer)) == private_non_membership_circuit(
            circuit_of(*old(composer)),
            bindings_of(vector@),
            value.binding(),
            vector@.len(),
        ),
        r is Ok ==> circuit_of(*final(composer)).satisfied_from(
            circuit_of(*old(composer)).rows.len(),
        ),
        r matches Err(e) ==> e == Error::NonExistingInverse && circuit_of(*final(composer))
            == private_non_membership_circuit(
            circuit_of(*old(composer)),
            bindings_of(vector@),
            value.binding(),
            first_index_of(allocated_values(vector@), value.value()),
        ),
{
    let ghost start = circuit_of(*old(composer));
    let ghost xs = bindings_of(vector@);
    let ghost set = binding_values(xs);
    let ghost x = value.binding();
    let n = vector.len();
    let mut i: usize = 0;
    while i < n
        invariant
            i <= n,
            n == vector@.len(),
            start == circuit_of(*old(composer)),
            xs == bindings_of(vector@),
            set == binding_values(xs),
            x == value.binding(),
            all_bound_in(vector@, *composer),
            value.bound_in(*composer),
            forall|j: int| 0 <= j < i ==> set[j] != x.value,
            circuit_of(*composer) == private_non_membership_circuit(start, xs, x, i as nat),
            circuit_of(*composer).extends(start),
            circuit_of(*composer).rows.len() >= start.rows.len(),
            circuit_of(*composer).satisfied_from(start.rows.len()),
        decreases n - i,
    {
        let ghost before = *composer;
        let elem: AllocatedScalar = vector[i];
        match inequality_gadget(composer, elem, value) {
            Err(e) => {
                proof {
                    let k = first_index_of(set, x.value);
                    assert(is_first_index_of(set, x.value, i as nat));
                    assert(is_first_index_of(set, x.value, k));
                    assert(k == i);
                    assert(set.contains(x.value));
                }
                return Err(e);
            },
            Ok(()) => {},
        }
        proof {
            assert(circuit_of(*composer).extends(circuit_of(before)));
            lemma_all_bound_extends(vector@, before, *composer);
            lemma_bound_extends(circuit_of(before), circuit_of(*composer), x);
            lemma_satisfied_grows(circuit_of(before), circuit_of(*composer), start.rows.len());
        }
        i += 1;
    }
    Ok(())
}

/// Whether the pair `(i1, j1)` comes before `(i2, j2)` when pairs are taken
/// by their first index and then by their second.
pub open spec fn pair_before(i1: int, j1: int, i2: int, j2: int) -> bool {
    i1 < i2 || (i1 == i2 && j1 < j2)
}

/// Whether no element occurs twice in the sequence.
pub open spec fn pairwise_distinct(values: Seq<nat>) -> bool {
    forall|a: int, b: int| 0 <= a < b < values.len() ==> values[a] != values[b]
}

/// Whether `(i, j)` is the first pair of positions that hold the same
/// element.
pub open spec fn is_first_equal_pair(values: Seq<nat>, i: nat, j: nat) -> bool {
    &&& i < j < values.len()
    &&& values[i as int] == values[j as int]
    &&& forall|a: int, b: int|
        0 <= a < b < values.len() && pair_before(a, b, i as int, j as int) ==> values[a]
            != values[b]
}

/// The first pair of positions that hold the same element, where there is
/// one.
pub open spec fn first_equal_pair(values: Seq<nat>) -> (nat, nat) {
    choose|p: (nat, nat)| is_first_equal_pair(values, p.0, p.1)
}

/// The circuit `c` after the binding at position `i` was proved distinct
/// from those at the positions after `i` and before `j`.
pub open spec fn distinct_from_circuit(c: Circuit, xs: Seq<Binding>, i: nat, j: nat) -> Circuit
    decreases j,
{
    if j <= i + 1 {
        c
    } else {
        inequality_circuit(
            distinct_from_circuit(c, xs, i, (j - 1) as nat),
            xs[i as int],
            xs[j - 1],
        )
    }
}

/// The circuit `c` after each of the first `k` bindings was proved distinct
/// from all that follow it.
pub open spec fn uniqueness_circuit(c: Circuit, xs: Seq<Binding>, k: nat) -> Circuit
    decreases k,
{
    if k == 0 {
        c
    } else {
        distinct_from_circuit(
            uniqueness_circuit(c, xs, (k - 1) as nat),
            xs,
            (k - 1) as nat,
            xs.len(),
        )
    }
}

/// Constrains the elements of `vector` to be pairwise distinct, one
/// inequality for each pair, taken by the first position and then by the
/// second.
///
/// Building fails exactly when two positions hold the same element. It then
/// stops at the first such pair and leaves what it had appended.
pub fn set_uniqueness_gadget(
    composer: &mut StandardComposer,
    vector: &Vec<AllocatedScalar>,
) -> (r: Result<(), Error>)
    requires
        vector@.len() >= 2,
        all_bound_in(vector@, *old(composer)),
    ensures
        circuit_of(*final(composer)).extends(circuit_of(*old(composer))),
        r is Ok <==> pairwise_distinct(allocated_values(vector@)),
        r is Ok ==> circuit_of(*final(composer)) == uniqueness_circuit(
            circuit_of(*old(composer)),
            bindings_of(vector@),
            vector@.len(),
        ),
        r is Ok ==> circuit_of(*final(composer)).satisfied_from(
            circuit_of(*old(composer)).rows.len(),
        ),
        r matches Err(e) ==> e == Error::NonExistingInverse && circuit_of(*final(composer))
            == distinct_from_circuit(
            uniqueness_circuit(
                circuit_of(*old(composer)),
                bindings_of(vector@),
                first_equal_pair(allocated_values(vector@)).0,
            ),
            bindings_of(vector@),
            first_equal_pair(allocated_values(vector@)).0,
            first_equal_pair(allocated_values(vector@)).1,
        ),
{
    let ghost start = circuit_of(*old(composer));
    let ghost xs = bindings_of(vector@);
    let ghost values = binding_values(xs);
    let n = vector.len();
    let mut i: usize = 0;
    while i < n
        invariant
            i <= n,
            n == vector@.len(),
            start == circuit_of(*old(composer)),
            xs == bindings_of(vector@),
            values == binding_values(xs),
            all_bound_in(vector@, *composer),
            forall|a: int, b: int| 0 <= a < b < n && a < i ==> values[a] != values[b],
            circuit_of(*composer) == uniqueness_circuit(start, xs, i as nat),
            circuit_of(*composer).extends(start),
            circuit_of(*composer).rows.len() >= start.rows.len(),
            circuit_of(*composer).satisfied_from(start.rows.len()),
        decreases n - i,
    {
        let ghost outer = circuit_of(*composer);
        let mut j: usize = i + 1;
        while j < n
            invariant
                i < n,
                i + 1 <= j <= n,
                n == vector@.len(),
                start == circuit_of(*old(composer)),
                xs == bindings_of(vector@),
                values == binding_values(xs),
                all_bound_in(vector@, *composer),
                forall|a: int, b: int| 0 <= a < b < n && a < i ==> values[a] != values[b],
                forall|b: int| i < b < j ==> values[i as int] != values[b],
                outer == uniqueness_circuit(start, xs, i as nat),
                circuit_of(*composer) == distinct_from_circuit(outer, xs, i as nat, j as nat),
                circuit_of(*composer).extends(start),
                circuit_of(*composer).rows.len() >= start.rows.len(),
                circuit_of(*composer).satisfied_from(start.rows.len()),
            decreases n - j,
        {
            let ghost before = *composer;
            let a: AllocatedScalar = vector[i];
            let b: AllocatedScalar = vector[j];
            match inequality_gadget(composer, a, b) {
                Err(e) => {
                    proof {
                        let p = first_equal_pair(values);
                        let q = (i as nat, j as nat);
                        assert(is_first_equal_pair(values, q.0, q.1));
                        assert(is_first_equal_pair(values, p.0, p.1));
                        assert(!pair_before(p.0 as int, p.1 as int, i as int, j as int));
                        assert(!pair_before(i as int, j as int, p.0 as int, p.1 as int));
                        assert(p.0 == i && p.1 == j);
                        assert(!pairwise_distinct(values));
                    }
                    return Err(e);
                },
                Ok(()) => {},
            }
            proof {
                assert(circuit_of(*composer).extends(circuit_of(before)));
                lemma_all_bound_extends(vector@, before, *composer);
                lemma_satisfied_grows(circuit_of(before), circuit_of(*composer), start.rows.len());
            }
            j += 1;
        }
        i += 1;
    }
    Ok(())
}

/// The variable that holds the running total after `k` elements were added
/// up, where `first` is the first variable allocated for the totals: the zero
/// variable as long as nothing was added.
pub open spec fn running_total(first: nat, k: nat) -> nat {
    if k == 0 {
        0
    } else {
        (first + k - 1) as nat
    }
}

/// The witnesses allocated for the first `k` running totals of `values`.
pub open spec fn sum_witnesses(values: Seq<nat>, k: nat) -> Seq<nat> {
    Seq::new(k, |i: int| montgomery(field_sum(values.take(i + 1))))
}

/// The rows that add up the first `k` bindings of `xs`: each adds one
/// variable to the running total, into the next variable from `first` on.
pub open spec fn sum_rows(xs: Seq<Binding>, first: nat, k: nat) -> Seq<Row> {
    Seq::new(
        k,
        |i: int| addition_row(1, running_total(first, i as nat), 1, xs[i].index, (first + i) as nat, 0, None),
    )
}

/// The circuit `c` after the bindings `xs` were added up and the total was
/// tied to the public input `expected`: the last row asks that the total
/// minus `expected` be zero.
pub open spec fn sum_circuit(c: Circuit, xs: Seq<Binding>, expected: nat) -> Circuit {
    c.extended(
        sum_witnesses(binding_values(xs), xs.len()),
        sum_rows(xs, c.next(), xs.len()).push(
            constant_row(running_total(c.next(), xs.len()), 0, Some(fneg(expected))),
        ),
    )
}

/// The circuit `c` after the bindings `xs` were added up and the total was
/// tied to a new variable that holds `expected`: the last row asks that the
/// total equal that variable.
pub open spec fn private_sum_circuit(c: Circuit, xs: Seq<Binding>, expected: nat) -> Circuit {
    c.extended(
        sum_witnesses(binding_values(xs), xs.len()).push(montgomery(expected)),
        sum_rows(xs, c.next(), xs.len()).push(
            equality_row(running_total(c.next(), xs.len()), c.next() + xs.len()),
        ),
    )
}

/// Adds up the elements of `vector`, one addition gate for each, and hands
/// back the variable that holds the total: the zero variable where the
/// vector is empty.
fn accumulate(composer: &mut StandardComposer, vector: &Vec<AllocatedScalar>) -> (total: Variable)
    requires
        all_bound_in(vector@, *old(composer)),
    ensures
        variable_index(total) == running_total(circuit_of(*old(composer)).next(), vector@.len()),
        variable_index(total) < circuit_of(*final(composer)).next(),
        circuit_of(*old(composer)).has_zero(),
        circuit_of(*final(composer)) == circuit_of(*old(composer)).extended(
            sum_witnesses(allocated_values(vector@), vector@.len()),
            sum_rows(bindings_of(vector@), circuit_of(*old(composer)).next(), vector@.len()),
        ),
{
    let one = BlsScalar::one();
    let zero = BlsScalar::zero();
    let ghost start = circuit_of(*old(composer));
    let ghost xs = bindings_of(vector@);
    let ghost values = binding_values(xs);
    proof {
        lemma_constants();
        lemma_modulus_is_large();
        lemma_residue_of_value(one);
        lemma_residue_of_value(zero);
        assert(values.take(0) =~= Seq::<nat>::empty());
    }
    let mut accumulator = composer.zero_var();
    let n = vector.len();
    let mut i: usize = 0;
    while i < n
        invariant
            i <= n,
            n == vector@.len(),
            start == circuit_of(*old(composer)),
            xs == bindings_of(vector@),
            values == binding_values(xs),
            all_bound_in(vector@, *composer),
            scalar_value(one) == 1,
            scalar_value(zero) == 0,
            in_field(one),
            in_field(zero),
            variable_index(accumulator) == running_total(start.next(), i as nat),
            circuit_of(*composer).binds(
                Binding {
                    index: running_total(start.next(), i as nat),
                    value: field_sum(values.take(i as int)),
                },
            ),
            circuit_of(*composer) == start.extended(
                sum_witnesses(values, i as nat),
                sum_rows(xs, start.next(), i as nat),
            ),
        decreases n - i,
    {
        let ghost before = *composer;
        let ghost total = Binding {
            index: running_total(start.next(), i as nat),
            value: field_sum(values.take(i as int)),
        };
        let x: AllocatedScalar = vector[i];
        proof {
            lemma_bound_extends(circuit_of(before), circuit_of(before), total);
            lemma_bound_extends(circuit_of(before), circuit_of(before), x.binding());
            lemma_linear_value_unit(total.value, x.value());
            lemma_field_sum_step(values, i as nat);
            lemma_field_closed(total.value, x.value());
            lemma_element_of_montgomery(field_sum(values.take(i + 1)));
        }
        // the new total is the sum of the old total and the element
        accumulator = composer.add((one, accumulator), (one, x.var), zero, None);
        proof {
            let now = circuit_of(*composer);
            let after = start.extended(
                sum_witnesses(values, (i + 1) as nat),
                sum_rows(xs, start.next(), (i + 1) as nat),
            );
            assert(now.witnesses =~= after.witnesses);
            assert(now.rows =~= after.rows);
            assert(now.extends(circuit_of(before)));
            lemma_all_bound_extends(vector@, before, *composer);
        }
        i += 1;
    }
    accumulator
}

/// Constrains the elements of `vector` to add up to `expected_sum`, which
/// enters the circuit as a public input. An empty vector adds up to zero.
/// Building never fails.
pub fn vector_sum_gadget(
    composer: &mut StandardComposer,
    vector: &Vec<AllocatedScalar>,
    expected_sum: u64,
) -> (r: Result<(), Error>)
    requires
        all_bound_in(vector@, *old(composer)),
    ensures
        circuit_of(*final(composer)).extends(circuit_of(*old(composer))),
        r is Ok,
        circuit_of(*final(composer)) == sum_circuit(
            circuit_of(*old(composer)),
            bindings_of(vector@),
            expected_sum as nat,
        ),
        circuit_of(*final(composer)).satisfied_from(circuit_of(*old(composer)).rows.len())
            <==> field_sum(allocated_values(vector@)) == expected_sum,
        circuit_of(*final(composer)).has_zero(),
{
    let ghost start = circuit_of(*old(composer));
    let accumulator = accumulate(composer, vector);
    // the expected sum is no part of the circuit: it is a public input
    let zero = BlsScalar::zero();
    let expected = BlsScalar::from(expected_sum);
    proof {
        lemma_constants();
        lemma_modulus_is_large();
        lemma_residue_of_value(zero);
        lemma_residue_of_value(expected);
        lemma_field_closed(expected_sum as nat, 0);
    }
    let minus_expected = scalar_neg(&expected);
    proof {
        lemma_residue_of_value(minus_expected);
    }
    composer.constrain_to_constant(accumulator, zero, Some(minus_expected));
    proof {
        let after = sum_circuit(start, bindings_of(vector@), expected_sum as nat);
        assert(circuit_of(*composer).witnesses =~= after.witnesses);
        assert(circuit_of(*composer).rows =~= after.rows);
        assert forall|i: int| 0 <= i < vector@.len() implies start.binds(
            #[trigger] bindings_of(vector@)[i],
        ) by {
            assert(vector@[i].bound_in(*old(composer)));
        }
        lemma_sum_circuit_holds(start, bindings_of(vector@), expected_sum as nat);
    }
    Ok(())
}

/// Constrains the elements of `vector` to add up to `expected_sum`, which
/// stays private: it is allocated as one more witness, and the total is
/// constrained to equal it. An empty vector adds up to zero. Building never
/// fails.
pub fn private_vector_sum_gadget(
    composer: &mut StandardComposer,
    vector: &Vec<AllocatedScalar>,
    expected_sum: BlsScalar,
) -> (r: Result<(), Error>)
    requires
        all_bound_in(vector@, *old(composer)),
        in_field(expected_sum),
    ensures
        circuit_of(*final(composer)).extends(circuit_of(*old(composer))),
        r is Ok,
        circuit_of(*final(composer)) == private_sum_circuit(
            circuit_of(*old(composer)),
            bindings_of(vector@),
            scalar_value(expected_sum),
        ),
        circuit_of(*final(composer)).satisfied_from(circuit_of(*old(composer)).rows.len())
            <==> field_sum(allocated_values(vector@)) == scalar_value(expected_sum),
{
    let ghost start = circuit_of(*old(composer));
    let accumulator = accumulate(composer, vector);
    proof {
        lemma_residue_of_value(expected_sum);
    }
    let expected = AllocatedScalar::allocate(composer, expected_sum);
    composer.assert_equal(accumulator, expected.var);
    proof {
        let after = private_sum_circuit(start, bindings_of(vector@), scalar_value(expected_sum));
        assert(circuit_of(*composer).witnesses =~= after.witnesses);
        assert(circuit_of(*composer).rows =~= after.rows);
        assert forall|i: int| 0 <= i < vector@.len() implies start.binds(
            #[trigger] bindings_of(vector@)[i],
        ) by {
            assert(vector@[i].bound_in(*old(composer)));
        }
        lemma_private_sum_circuit_holds(start, bindings_of(vector@), scalar_value(expected_sum));
    }
    Ok(())
}

/// The sum of the products `values[i] * bits[i]` over the first `k`
/// positions.
pub open spec fn masked_sum(values: Seq<nat>, bits: Seq<nat>, k: nat) -> nat
    decreases k,
{
    if k == 0 {
        0
    } else {
        fadd(masked_sum(values, bits, (k - 1) as nat), fmul(values[k - 1], bits[k - 1]))
    }
}

/// The variable that holds the masked total after `k` positions, where
/// `first` is the first variable that the product gadget allocates: the zero
/// variable as long as no position was taken in.
pub open spec fn masked_total(first: nat, k: nat) -> nat {
    if k == 0 {
        0
    } else {
        (first + 3 * k - 1) as nat
    }
}

/// Whether at each position the element times its bit is the value times
/// the bit.
pub open spec fn masks_agree(values: Seq<nat>, bits: Seq<nat>, v: nat) -> bool {
    forall|i: int| 0 <= i < values.len() ==> fmul(values[i], bits[i]) == fmul(v, bits[i])
}

/// The circuit `c` after the first `k` positions were tied to `value`: for
/// each position the product of the element and its bit, the product of the
/// value and the bit, a row that asks the two products to be equal, and the
/// masked total with the first product added.
pub open spec fn product_steps_circuit(
    c: Circuit,
    xs: Seq<Binding>,
    bits: Seq<Binding>,
    value: Binding,
    k: nat,
) -> Circuit
    decreases k,
{
    if k == 0 {
        c
    } else {
        let i = k - 1;
        let before = product_steps_circuit(c, xs, bits, value, i as nat);
        let first = before.next();
        before.extended(
            seq![
                montgomery(fmul(xs[i].value, bits[i].value)),
                montgomery(fmul(value.value, bits[i].value)),
                montgomery(masked_sum(binding_values(xs), binding_values(bits), k)),
            ],
            seq![
                product_row(1, xs[i].index, bits[i].index, first, 0, None),
                product_row(1, value.index, bits[i].index, first + 1, 0, None),
                equality_row(first, first + 1),
                addition_row(1, masked_total(c.next(), i as nat), 1, first, first + 2, 0, None),
            ],
        )
    }
}

/// The circuit `c` after the product gadget: all positions are tied to
/// `value`, and the last row asks the masked total to equal `value`.
pub open spec fn product_circuit(c: Circuit, xs: Seq<Binding>, bits: Seq<Binding>, value: Binding) -> Circuit {
    product_steps_circuit(c, xs, bits, value, xs.len()).extended(
        seq![],
        seq![equality_row(masked_total(c.next(), xs.len()), value.index)],
    )
}

/// Ties a vector of indicator bits to `value`: at each position the element
/// times its bit equals the value times the bit, and the elements times
/// their bits add up to the value. Building never fails.
pub fn vector_product_gadget(
    composer: &mut StandardComposer,
    vector: &Vec<AllocatedScalar>,
    bits_vector: &Vec<AllocatedScalar>,
    value: AllocatedScalar,
) -> (r: Result<(), Error>)
    requires
        vector@.len() == bits_vector@.len(),
        all_bound_in(vector@, *old(composer)),
        all_bound_in(bits_vector@, *old(composer)),
        value.bound_in(*old(composer)),
    ensures
        circuit_of(*final(composer)).extends(circuit_of(*old(composer))),
        r is Ok,
        circuit_of(*final(composer)) == product_circuit(
            circuit_of(*old(composer)),
            bindings_of(vector@),
            bindings_of(bits_vector@),
            value.binding(),
        ),
        circuit_of(*final(composer)).satisfied_from(circuit_of(*old(composer)).rows.len()) <==> {
            &&& masks_agree(
                allocated_values(vector@),
                allocated_values(bits_vector@),
                value.value(),
            )
            &&& masked_sum(
                allocated_values(vector@),
                allocated_values(bits_vector@),
                vector@.len(),
            ) == value.value()
        },
{
    let one = BlsScalar::one();
    let zero = BlsScalar::zero();
    let ghost start = circuit_of(*old(composer));
    let ghost xs = bindings_of(vector@);
    let ghost bits = bindings_of(bits_vector@);
    let ghost values = binding_values(xs);
    let ghost masks = binding_values(bits);
    proof {
        lemma_constants();
        lemma_modulus_is_large();
        lemma_residue_of_value(one);
        lemma_residue_of_value(zero);
    }
    let mut accumulator = composer.zero_var();
    let n = vector.len();
    let mut i: usize = 0;
    while i < n
        invariant
            i <= n,
            n == vector@.len(),
            n == bits_vector@.len(),
            start == circuit_of(*old(composer)),
            xs == bindings_of(vector@),
            bits == bindings_of(bits_vector@),
            values == binding_values(xs),
            masks == binding_values(bits),
            all_bound_in(vector@, *composer),
            all_bound_in(bits_vector@, *composer),
            value.bound_in(*composer),
            scalar_value(one) == 1,
            scalar_value(zero) == 0,
            in_field(one),
            in_field(zero),
            circuit_of(*composer).next() == start.next() + 3 * i,
            variable_index(accumulator) == masked_total(start.next(), i as nat),
            circuit_of(*composer).binds(
                Binding {
                    index: masked_total(start.next(), i as nat),
                    value: masked_sum(values, masks, i as nat),
                },
            ),
            circuit_of(*composer) == product_steps_circuit(start, xs, bits, value.binding(), i as nat),
            circuit_of(*composer).extends(start),
        decreases n - i,
    {
        let ghost before = *composer;
        let ghost total = Binding {
            index: masked_total(start.next(), i as nat),
            value: masked_sum(values, masks, i as nat),
        };
        let x: AllocatedScalar = vector[i];
        let bit: AllocatedScalar = bits_vector[i];
        let ghost left_value = fmul(x.value(), bit.value());
        let ghost right_value = fmul(value.value(), bit.value());
        proof {
            let now = circuit_of(before);
            lemma_bound_extends(now, now, x.binding());
            lemma_bound_extends(now, now, bit.binding());
            lemma_bound_extends(now, now, value.binding());
            lemma_product_value_unit(x.value(), bit.value());
            lemma_product_value_unit(value.value(), bit.value());
            lemma_field_closed(x.value(), bit.value());
            lemma_field_closed(value.value(), bit.value());
            lemma_element_of_montgomery(left_value);
        }
        let left = composer.mul(one, x.var, bit.var, zero, None);
        proof {
            let now = circuit_of(*composer);
            assert(now.extends(circuit_of(before)));
            lemma_bound_extends(circuit_of(before), now, bit.binding());
            lemma_bound_extends(circuit_of(before), now, value.binding());
        }
        let right = composer.mul(one, value.var, bit.var, zero, None);
        composer.assert_equal(left, right);
        proof {
            let now = circuit_of(*composer);
            assert(now.extends(circuit_of(before)));
            lemma_bound_extends(circuit_of(before), now, total);
            let left_binding = Binding { index: circuit_of(before).next(), value: left_value };
            assert(now.binds(left_binding));
            lemma_bound_extends(now, now, left_binding);
            lemma_linear_value_unit(total.value, left_value);
            lemma_field_closed(total.value, left_value);
        }
        accumulator = composer.add((one, accumulator), (one, left), zero, None);
        proof {
            let now = circuit_of(*composer);
            let after = product_steps_circuit(start, xs, bits, value.binding(), (i + 1) as nat);
            assert(now.witnesses =~= after.witnesses);
            assert(now.rows =~= after.rows);
            assert(now.extends(circuit_of(before)));
            lemma_all_bound_extends(vector@, before, *composer);
            lemma_all_bound_extends(bits_vector@, before, *composer);
            lemma_bound_extends(circuit_of(before), now, value.binding());
        }
        i += 1;
    }
    // the masked total is the value itself
    composer.assert_equal(accumulator, value.var);
    proof {
        let after = product_circuit(start, xs, bits, value.binding());
        assert(circuit_of(*composer).witnesses =~= after.witnesses);
        assert(circuit_of(*composer).rows =~= after.rows);
        assert forall|i: int| 0 <= i < xs.len() implies start.binds(#[trigger] xs[i]) by {
            assert(vector@[i].bound_in(*old(composer)));
        }
        assert forall|i: int| 0 <= i < bits.len() implies start.binds(#[trigger] bits[i]) by {
            assert(bits_vector@[i].bound_in(*old(composer)));
        }
        lemma_product_circuit_holds(start, xs, bits, value.binding());
    }
    Ok(())
}

/// How often `v` occurs in `set`.
pub open spec fn occurrences(set: Seq<nat>, v: nat) -> nat
    decreases set.len(),
{
    if set.len() == 0 {
        0
    } else if set.last() == v {
        occurrences(set.drop_last(), v) + 1
    } else {
        occurrences(set.drop_last(), v)
    }
}

/// The indicator of `v` in `set`: one at the positions that hold `v`, zero
/// at the others.
pub open spec fn indicator(set: Seq<nat>, v: nat) -> Seq<nat> {
    Seq::new(
        set.len(),
        |i: int|
            if set[i] == v {
                1nat
            } else {
                0nat
            },
    )
}

/// The circuit `c` after the first `k` elements of a public set were fixed in
/// it as constants.
pub open spec fn fixed_set_circuit(c: Circuit, set: Seq<nat>, k: nat) -> Circuit
    decreases k,
{
    if k == 0 {
        c
    } else {
        fixed_circuit(fixed_set_circuit(c, set, (k - 1) as nat), set[k - 1])
    }
}

/// The bindings of the indicator bits, where `first` is the variable of the
/// first bit: every bit takes three variables, itself and the two of its bit
/// gadget.
pub open spec fn indicator_bindings(first: nat, bits: Seq<nat>) -> Seq<Binding> {
    Seq::new(bits.len(), |i: int| Binding { index: (first + 3 * i) as nat, value: bits[i] })
}

/// The circuit `c` after the first `k` bits were allocated and constrained
/// to be bits.
pub open spec fn indicator_circuit(c: Circuit, bits: Seq<nat>, k: nat) -> Circuit
    decreases k,
{
    if k == 0 {
        c
    } else {
        let before = indicator_circuit(c, bits, (k - 1) as nat);
        bit_circuit(
            before.extended(seq![montgomery(bits[k - 1])], seq![]),
            Binding { index: before.next(), value: bits[k - 1] },
        )
    }
}

/// The bindings of the elements of a public set that were fixed in a circuit
/// one after the other, where `first` is the variable of the first.
pub open spec fn fixed_set_bindings(first: nat, set: Seq<nat>) -> Seq<Binding> {
    Seq::new(set.len(), |i: int| Binding { index: (first + i) as nat, value: set[i] })
}

/// The circuit `c` after the membership gadget on a public set: the elements
/// are fixed as constants, the indicator of `v` is allocated and constrained
/// to bits, and the bits are constrained to add up to one.
pub open spec fn membership_circuit(c: Circuit, set: Seq<nat>, v: nat) -> Circuit {
    let fixed = fixed_set_circuit(c, set, set.len());
    let bits = indicator(set, v);
    let marked = indicator_circuit(fixed, bits, bits.len());
    sum_circuit(marked, indicator_bindings(fixed.next(), bits), 1)
}

/// The circuit `c` after the membership gadget on a private set `xs`: the
/// indicator of the value of `x` is allocated and constrained to bits, the
/// bits are constrained to add up to one, and the bits are tied back to `x`.
pub open spec fn private_membership_circuit(c: Circuit, xs: Seq<Binding>, x: Binding) -> Circuit {
    let bits = indicator(binding_values(xs), x.value);
    let marks = indicator_bindings(c.next(), bits);
    let marked = indicator_circuit(c, bits, bits.len());
    product_circuit(sum_circuit(marked, marks, 1), xs, marks, x)
}

/// Allocates the indicator of `value` among `elements`, one where an element
/// is the value and zero elsewhere, and constrains each of its entries to be
/// a bit.
fn indicator_gadget(
    composer: &mut StandardComposer,
    elements: &Vec<AllocatedScalar>,
    value: &AllocatedScalar,
) -> (r: Result<Vec<AllocatedScalar>, Error>)
    requires
        all_bound_in(elements@, *old(composer)),
        value.bound_in(*old(composer)),
    ensures
        r matches Ok(bits) && {
            &&& bindings_of(bits@) == indicator_bindings(
                circuit_of(*old(composer)).next(),
                indicator(allocated_values(elements@), value.value()),
            )
            &&& all_bound_in(bits@, *final(composer))
        },
        all_bound_in(elements@, *final(composer)),
        value.bound_in(*final(composer)),
        circuit_of(*final(composer)) == indicator_circuit(
            circuit_of(*old(composer)),
            indicator(allocated_values(elements@), value.value()),
            elements@.len(),
        ),
        circuit_of(*final(composer)).extends(circuit_of(*old(composer))),
        circuit_of(*final(composer)).satisfied_from(circuit_of(*old(composer)).rows.len()),
{
    let ghost start = circuit_of(*old(composer));
    let ghost marks = indicator(allocated_values(elements@), value.value());
    let n = elements.len();
    let mut bits: Vec<AllocatedScalar> = Vec::new();
    let mut i: usize = 0;
    while i < n
        invariant
            i <= n,
            n == elements@.len(),
            start == circuit_of(*old(composer)),
            marks == indicator(allocated_values(elements@), value.value()),
            all_bound_in(elements@, *composer),
            value.bound_in(*composer),
            bits@.len() == i,
            bindings_of(bits@) == indicator_bindings(start.next(), marks).take(i as int),
            all_bound_in(bits@, *composer),
            circuit_of(*composer).next() == start.next() + 3 * i,
            circuit_of(*composer) == indicator_circuit(start, marks, i as nat),
            circuit_of(*composer).extends(start),
            circuit_of(*composer).satisfied_from(start.rows.len()),
        decreases n - i,
    {
        let ghost before = *composer;
        let ghost earlier = bits@;
        let elem: AllocatedScalar = elements[i];
        let bit: u64 = if scalar_eq(&elem.scalar, &value.scalar) {
            1
        } else {
            0
        };
        let bit_scalar = BlsScalar::from(bit);
        proof {
            lemma_modulus_is_large();
            lemma_same_value_same_residue(elem.scalar, value.scalar);
            assert(bit as nat == marks[i as int]);
            lemma_residue_of_value(bit_scalar);
        }
        let bit_assigned = AllocatedScalar::allocate(composer, bit_scalar);
        let ghost middle = *composer;
        bits.push(bit_assigned);
        bit_gadget(composer, bit_assigned)?;
        proof {
            let now = circuit_of(*composer);
            assert(circuit_of(middle).extends(circuit_of(before)));
            assert(now.extends(circuit_of(middle)));
            assert(now.extends(circuit_of(before)));
            lemma_all_bound_extends(earlier, before, middle);
            lemma_all_bound_extends(bits@, middle, *composer);
            lemma_all_bound_extends(elements@, before, *composer);
            lemma_bound_extends(circuit_of(before), now, value.binding());
            assert(bindings_of(bits@) =~= indicator_bindings(start.next(), marks).take(i + 1));
            lemma_satisfied_grows(circuit_of(before), circuit_of(middle), start.rows.len());
            lemma_satisfied_grows(circuit_of(middle), now, start.rows.len());
        }
        i += 1;
    }
    proof {
        assert(indicator_bindings(start.next(), marks).take(n as int) =~= indicator_bindings(
            start.next(),
            marks,
        ));
    }
    Ok(bits)
}

/// Constrains `assigned_value` to occur in `vector`, a set that both parties
/// know, without telling where: each element is fixed in the circuit as a
/// constant, a bit is allocated for each element, one where the element is
/// the value and zero elsewhere, and the bits are constrained to add up to
/// one.
///
/// Building never fails. The witnesses satisfy the rows exactly when the set
/// holds the value exactly once: where it holds it not at all, or more than
/// once, the bits do not add up to one.
pub fn set_membership_gadget(
    composer: &mut StandardComposer,
    vector: &Vec<BlsScalar>,
    assigned_value: AllocatedScalar,
) -> (r: Result<(), Error>)
    requires
        all_in_field(vector@),
        assigned_value.bound_in(*old(composer)),
    ensures
        circuit_of(*final(composer)).extends(circuit_of(*old(composer))),
        r is Ok,
        circuit_of(*final(composer)) == membership_circuit(
            circuit_of(*old(composer)),
            values_of(vector@),
            assigned_value.value(),
        ),
        circuit_of(*final(composer)).satisfied_from(circuit_of(*old(composer)).rows.len())
            <==> occurrences(values_of(vector@), assigned_value.value()) == 1,
{
    let ghost start = circuit_of(*old(composer));
    let ghost set = values_of(vector@);
    let n = vector.len();
    let mut assigned_set: Vec<AllocatedScalar> = Vec::with_capacity(n);
    let mut i: usize = 0;
    while i < n
        invariant
            i <= n,
            n == vector@.len(),
            set == values_of(vector@),
            all_in_field(vector@),
            assigned_value.bound_in(*composer),
            assigned_set@.len() == i,
            bindings_of(assigned_set@) == fixed_set_bindings(start.next(), set).take(i as int),
            all_bound_in(assigned_set@, *composer),
            circuit_of(*composer).next() == start.next() + i,
            circuit_of(*composer) == fixed_set_circuit(start, set, i as nat),
            circuit_of(*composer).extends(start),
            circuit_of(*composer).satisfied_from(start.rows.len()),
        decreases n - i,
    {
        let ghost before = *composer;
        let ghost earlier = assigned_set@;
        let elem: BlsScalar = vector[i];
        proof {
            lemma_residue_of_value(elem);
        }
        // The set is part of the circuit: each of its elements is a constant.
        let elem_assigned = AllocatedScalar::allocate(composer, elem);
        composer.constrain_to_constant(elem_assigned.var, elem, None);
        assigned_set.push(elem_assigned);
        proof {
            let now = circuit_of(*composer);
            let after = fixed_circuit(circuit_of(before), set[i as int]);
            assert(now.witnesses =~= after.witnesses);
            assert(now.rows =~= after.rows);
            assert(now.extends(circuit_of(before)));
            lemma_all_bound_extends(earlier, before, *composer);
            lemma_bound_extends(circuit_of(before), now, assigned_value.binding());
            assert(elem_assigned.bound_in(*composer));
            assert(bindings_of(assigned_set@) =~= fixed_set_bindings(start.next(), set).take(
                i + 1,
            ));
            lemma_fixed_circuit_satisfied(circuit_of(before), set[i as int]);
            lemma_satisfied_grows(circuit_of(before), now, start.rows.len());
        }
        i += 1;
    }
    proof {
        assert(fixed_set_bindings(start.next(), set).take(n as int) =~= fixed_set_bindings(
            start.next(),
            set,
        ));
        assert(allocated_values(assigned_set@) =~= set);
    }
    let ghost fixed = *composer;
    let assigned_bits = indicator_gadget(composer, &assigned_set, &assigned_value)?;
    let ghost marked = *composer;
    let built = vector_sum_gadget(composer, &assigned_bits, 1);
    proof {
        let bits = indicator(set, assigned_value.value());
        assert(allocated_values(assigned_bits@) =~= bits);
        lemma_modulus_is_large();
        lemma_residue_of_value(assigned_value.scalar);
        lemma_indicator_of_one(set, assigned_value.value());
        lemma_satisfied_grows(circuit_of(fixed), circuit_of(marked), start.rows.len());
        if occurrences(set, assigned_value.value()) == 1 {
            lemma_satisfied_grows(circuit_of(marked), circuit_of(*composer), start.rows.len());
        }
        if circuit_of(*composer).satisfied_from(start.rows.len()) {
            assert(circuit_of(*composer).satisfied_from(circuit_of(marked).rows.len()));
        }
    }
    built
}

/// Constrains `assigned_value` to occur in `vector`, a set of witnesses that
/// the verifier does not know, without telling where: a bit is allocated for
/// each element, one where the element is the value and zero elsewhere, the
/// bits are constrained to add up to one, and the product gadget ties the
/// bits to the value.
///
/// Building never fails. The witnesses satisfy the rows exactly when the set
/// holds the value exactly once: where it holds it not at all, or more than
/// once, the bits do not add up to one.
pub fn private_set_membership_gadget(
    composer: &mut StandardComposer,
    vector: &Vec<AllocatedScalar>,
    assigned_value: AllocatedScalar,
) -> (r: Result<(), Error>)
    requires
        all_bound_in(vector@, *old(composer)),
        assigned_value.bound_in(*old(composer)),
    ensures
        circuit_of(*final(composer)).extends(circuit_of(*old(composer))),
        r is Ok,
        circuit_of(*final(composer)) == private_membership_circuit(
            circuit_of(*old(composer)),
            bindings_of(vector@),
            assigned_value.binding(),
        ),
        circuit_of(*final(composer)).satisfied_from(circuit_of(*old(composer)).rows.len())
            <==> occurrences(allocated_values(vector@), assigned_value.value()) == 1,
{
    let ghost start = circuit_of(*old(composer));
    let assigned_bits = indicator_gadget(composer, vector, &assigned_value)?;
    let ghost marked = *composer;
    vector_sum_gadget(composer, &assigned_bits, 1)?;
    let ghost added = *composer;
    proof {
        assert(circuit_of(added).extends(circuit_of(marked)));
        lemma_all_bound_extends(vector@, marked, added);
        lemma_all_bound_extends(assigned_bits@, marked, added);
        lemma_bound_extends(circuit_of(marked), circuit_of(added), assigned_value.binding());
    }
    let built = vector_product_gadget(composer, vector, &assigned_bits, assigned_value);
    proof {
        let values = allocated_values(vector@);
        let v = assigned_value.value();
        let bits = indicator(values, v);
        let marks = bindings_of(assigned_bits@);
        let last = circuit_of(*composer);
        assert(binding_values(marks) =~= bits);
        assert(values.len() == vector.len());
        lemma_modulus_is_large();
        lemma_residue_of_value(assigned_value.scalar);
        lemma_indicator_of_one(values, v);
        lemma_product_steps_shape(
            circuit_of(added),
            bindings_of(vector@),
            marks,
            assigned_value.binding(),
            vector@.len(),
        );
        assert(last.extends(circuit_of(added)));
        if occurrences(values, v) == 1 {
            lemma_satisfied_grows(circuit_of(marked), circuit_of(added), start.rows.len());
            lemma_satisfied_grows(circuit_of(added), last, start.rows.len());
        }
        if last.satisfied_from(start.rows.len()) {
            // what holds of the witnesses at the end held of them after the sum
            let w = last.values();
            lemma_values_are_assignment(last);
            lemma_constants();
            assert(w[0] == 0);
            assert forall|j: int|
                circuit_of(marked).rows.len() <= j < circuit_of(added).rows.len() implies row_holds(
                #[trigger] circuit_of(added).rows[j],
                w,
            ) by {
                assert(last.rows[j] == circuit_of(added).rows[j]);
            }
            lemma_sum_rows_sound(circuit_of(marked), marks, 1, w);
            assert forall|i: int| 0 <= i < marks.len() implies assigned(marks, w)[i] == bits[i] by {
                assert(assigned_bits@[i].bound_in(added));
                lemma_bound_extends(circuit_of(added), last, marks[i]);
                lemma_bound_value(last, marks[i]);
            }
            assert(assigned(marks, w) =~= bits);
        }
    }
    built
}

} // verus!
