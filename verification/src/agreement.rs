//! How the circuits of two parties relate.
//!
//! The prover builds a circuit from its secrets, the verifier builds one
//! from what is public. The rows that a gadget appends depend on public data
//! alone, so both get the same rows; public sets that differ give rows that
//! differ; and the witnesses of the gadgets that prove inequality are
//! determined by their inputs.

use crate::bit::{bit_circuit, bit_rows};
use crate::circuit::{Binding, binding_values, Circuit};
use crate::field::{fneg, lemma_fsub_zero, lemma_inverse_unique, lemma_modulus_is_large, modulus};
use crate::semantics::{is_assignment, rows_hold};
use crate::set::{
    distinct_from_circuit, fixed_set_circuit, indicator, indicator_bindings, indicator_circuit,
    inequality_circuit, inequality_rows, membership_circuit, non_membership_circuit,
    private_membership_circuit, private_non_membership_circuit, private_sum_circuit,
    product_circuit, product_steps_circuit, sum_circuit, uniqueness_circuit,
};
use crate::shape::{lemma_fixed_set_shape, lemma_indicator_shape, lemma_non_membership_shape};
use crate::soundness::{lemma_bit_witnesses, lemma_inequality_witnesses};
use vstd::arithmetic::div_mod::{lemma_mod_add_multiples_vanish, lemma_small_mod};
use vstd::prelude::*;

verus! {

/// The additive inverse tells field elements apart.
pub proof fn lemma_fneg_injective(a: nat, b: nat)
    requires
        a < modulus(),
        b < modulus(),
        fneg(a) == fneg(b),
    ensures
        a == b,
{
    let r = modulus() as int;
    lemma_modulus_is_large();
    lemma_fsub_zero(0, a);
    lemma_fsub_zero(0, b);
    let m = fneg(a);
    // m + a and m + b are both multiples of r below 2r
    if m + a >= r {
        lemma_mod_add_multiples_vanish(m + a - r, r);
        lemma_small_mod((m + a - r) as nat, modulus());
    } else {
        lemma_small_mod(m + a, modulus());
    }
    if m + b >= r {
        lemma_mod_add_multiples_vanish(m + b - r, r);
        lemma_small_mod((m + b - r) as nat, modulus());
    } else {
        lemma_small_mod(m + b, modulus());
    }
}

/// Cross-party divergence for the non-membership gadget: from the same
/// circuit, two public sets of different length or with different elements
/// give circuits with different rows, whatever the values that are tested
/// against them.
pub proof fn lemma_non_membership_diverges(
    c: Circuit,
    set1: Seq<nat>,
    x1: Binding,
    set2: Seq<nat>,
    x2: Binding,
)
    requires
        forall|i: int| 0 <= i < set1.len() ==> set1[i] < modulus(),
        forall|i: int| 0 <= i < set2.len() ==> set2[i] < modulus(),
        set1 != set2,
    ensures
        non_membership_circuit(c, set1, x1, set1.len()).rows != non_membership_circuit(
            c,
            set2,
            x2,
            set2.len(),
        ).rows,
{
    let first = non_membership_circuit(c, set1, x1, set1.len());
    let second = non_membership_circuit(c, set2, x2, set2.len());
    lemma_non_membership_shape(c, set1, x1, set1.len());
    lemma_non_membership_shape(c, set2, x2, set2.len());
    if set1.len() == set2.len() {
        if forall|i: int| 0 <= i < set1.len() ==> set1[i] == set2[i] {
            assert(set1 =~= set2);
        }
        let i = choose|i: int| 0 <= i < set1.len() && set1[i] != set2[i];
        if fneg(set1[i]) == fneg(set2[i]) {
            lemma_fneg_injective(set1[i], set2[i]);
        }
        assert(first.rows[c.rows.len() + 5 * i].q_c != second.rows[c.rows.len() + 5 * i].q_c);
    }
}

/// Cross-party divergence for the membership gadget: from the same circuit,
/// two public sets of different length or with different elements give
/// circuits with different rows, whatever the values that are looked up in
/// them.
pub proof fn lemma_membership_diverges(c: Circuit, set1: Seq<nat>, v1: nat, set2: Seq<nat>, v2: nat)
    requires
        forall|i: int| 0 <= i < set1.len() ==> set1[i] < modulus(),
        forall|i: int| 0 <= i < set2.len() ==> set2[i] < modulus(),
        set1 != set2,
    ensures
        membership_circuit(c, set1, v1).rows != membership_circuit(c, set2, v2).rows,
{
    let first = membership_circuit(c, set1, v1);
    let second = membership_circuit(c, set2, v2);
    let fixed1 = fixed_set_circuit(c, set1, set1.len());
    let fixed2 = fixed_set_circuit(c, set2, set2.len());
    let marked1 = indicator_circuit(fixed1, indicator(set1, v1), set1.len());
    let marked2 = indicator_circuit(fixed2, indicator(set2, v2), set2.len());
    lemma_fixed_set_shape(c, set1, set1.len());
    lemma_fixed_set_shape(c, set2, set2.len());
    lemma_indicator_shape(fixed1, indicator(set1, v1), set1.len());
    lemma_indicator_shape(fixed2, indicator(set2, v2), set2.len());
    assert(first.rows.len() == c.rows.len() + 5 * set1.len() + 1);
    assert(second.rows.len() == c.rows.len() + 5 * set2.len() + 1);
    if set1.len() == set2.len() {
        if forall|i: int| 0 <= i < set1.len() ==> set1[i] == set2[i] {
            assert(set1 =~= set2);
        }
        let i = choose|i: int| 0 <= i < set1.len() && set1[i] != set2[i];
        if fneg(set1[i]) == fneg(set2[i]) {
            lemma_fneg_injective(set1[i], set2[i]);
        }
        assert(first.rows[c.rows.len() + i] == fixed1.rows[c.rows.len() + i]);
        assert(second.rows[c.rows.len() + i] == fixed2.rows[c.rows.len() + i]);
        assert(first.rows[c.rows.len() + i].q_c != second.rows[c.rows.len() + i].q_c);
    }
}

/// Whether two circuits have the same rows and as many variables: what a
/// party can know of the other party's circuit.
pub open spec fn same_description(c1: Circuit, c2: Circuit) -> bool {
    c1.rows == c2.rows && c1.witnesses.len() == c2.witnesses.len()
}

/// Whether two sequences of bindings name the same variables.
pub open spec fn same_variables(xs1: Seq<Binding>, xs2: Seq<Binding>) -> bool {
    xs1.len() == xs2.len() && forall|i: int| 0 <= i < xs1.len() ==> xs1[i].index == xs2[i].index
}

/// The rows of the bit gadget do not depend on the value.
pub proof fn lemma_bit_description(c1: Circuit, x1: Binding, c2: Circuit, x2: Binding)
    requires
        same_description(c1, c2),
        x1.index == x2.index,
    ensures
        same_description(bit_circuit(c1, x1), bit_circuit(c2, x2)),
{
}

/// The rows of the inequality gadget do not depend on the values.
pub proof fn lemma_inequality_description(
    c1: Circuit,
    a1: Binding,
    b1: Binding,
    c2: Circuit,
    a2: Binding,
    b2: Binding,
)
    requires
        same_description(c1, c2),
        a1.index == a2.index,
        b1.index == b2.index,
    ensures
        same_description(inequality_circuit(c1, a1, b1), inequality_circuit(c2, a2, b2)),
{
}

/// The rows of the non-membership gadget on a public set depend on the set
/// and on the variable of the value, not on the value.
pub proof fn lemma_non_membership_description(
    c1: Circuit,
    x1: Binding,
    c2: Circuit,
    x2: Binding,
    set: Seq<nat>,
    k: nat,
)
    requires
        same_description(c1, c2),
        x1.index == x2.index,
        k <= set.len(),
    ensures
        same_description(
            non_membership_circuit(c1, set, x1, k),
            non_membership_circuit(c2, set, x2, k),
        ),
    decreases k,
{
    if k > 0 {
        lemma_non_membership_description(c1, x1, c2, x2, set, (k - 1) as nat);
    }
}

/// The rows of the non-membership gadget on a private set depend on the
/// variables alone.
pub proof fn lemma_private_non_membership_description(
    c1: Circuit,
    xs1: Seq<Binding>,
    x1: Binding,
    c2: Circuit,
    xs2: Seq<Binding>,
    x2: Binding,
    k: nat,
)
    requires
        same_description(c1, c2),
        same_variables(xs1, xs2),
        x1.index == x2.index,
        k <= xs1.len(),
    ensures
        same_description(
            private_non_membership_circuit(c1, xs1, x1, k),
            private_non_membership_circuit(c2, xs2, x2, k),
        ),
    decreases k,
{
    if k > 0 {
        lemma_private_non_membership_description(c1, xs1, x1, c2, xs2, x2, (k - 1) as nat);
    }
}

/// The rows that prove one element distinct from those after it depend on
/// the variables alone.
pub proof fn lemma_distinct_from_description(
    c1: Circuit,
    xs1: Seq<Binding>,
    c2: Circuit,
    xs2: Seq<Binding>,
    i: nat,
    j: nat,
)
    requires
        same_description(c1, c2),
        same_variables(xs1, xs2),
        i < j <= xs1.len(),
    ensures
        same_description(
            distinct_from_circuit(c1, xs1, i, j),
            distinct_from_circuit(c2, xs2, i, j),
        ),
    decreases j,
{
    if j > i + 1 {
        lemma_distinct_from_description(c1, xs1, c2, xs2, i, (j - 1) as nat);
    }
}

/// The rows of the uniqueness gadget depend on the variables alone.
pub proof fn lemma_uniqueness_description(
    c1: Circuit,
    xs1: Seq<Binding>,
    c2: Circuit,
    xs2: Seq<Binding>,
    k: nat,
)
    requires
        same_description(c1, c2),
        same_variables(xs1, xs2),
        k <= xs1.len(),
    ensures
        same_description(uniqueness_circuit(c1, xs1, k), uniqueness_circuit(c2, xs2, k)),
    decreases k,
{
    if k > 0 {
        lemma_uniqueness_description(c1, xs1, c2, xs2, (k - 1) as nat);
        let before1 = uniqueness_circuit(c1, xs1, (k - 1) as nat);
        let before2 = uniqueness_circuit(c2, xs2, (k - 1) as nat);
        lemma_distinct_from_description(before1, xs1, before2, xs2, (k - 1) as nat, xs1.len());
    }
}

/// The rows of the sum gadget depend on the variables and on the expected
/// sum, which is public.
pub proof fn lemma_sum_description(
    c1: Circuit,
    xs1: Seq<Binding>,
    c2: Circuit,
    xs2: Seq<Binding>,
    expected: nat,
)
    requires
        same_description(c1, c2),
        same_variables(xs1, xs2),
    ensures
        same_description(sum_circuit(c1, xs1, expected), sum_circuit(c2, xs2, expected)),
{
    assert(sum_circuit(c1, xs1, expected).rows =~= sum_circuit(c2, xs2, expected).rows);
}

/// The rows of the sum gadget with a private target depend on the variables
/// alone.
pub proof fn lemma_private_sum_description(
    c1: Circuit,
    xs1: Seq<Binding>,
    expected1: nat,
    c2: Circuit,
    xs2: Seq<Binding>,
    expected2: nat,
)
    requires
        same_description(c1, c2),
        same_variables(xs1, xs2),
    ensures
        same_description(
            private_sum_circuit(c1, xs1, expected1),
            private_sum_circuit(c2, xs2, expected2),
        ),
{
    assert(private_sum_circuit(c1, xs1, expected1).rows =~= private_sum_circuit(
        c2,
        xs2,
        expected2,
    ).rows);
}

/// The rows of the first steps of the product gadget depend on the
/// variables alone.
pub proof fn lemma_product_steps_description(
    c1: Circuit,
    xs1: Seq<Binding>,
    bits1: Seq<Binding>,
    x1: Binding,
    c2: Circuit,
    xs2: Seq<Binding>,
    bits2: Seq<Binding>,
    x2: Binding,
    k: nat,
)
    requires
        same_description(c1, c2),
        same_variables(xs1, xs2),
        same_variables(bits1, bits2),
        xs1.len() == bits1.len(),
        x1.index == x2.index,
        k <= xs1.len(),
    ensures
        same_description(
            product_steps_circuit(c1, xs1, bits1, x1, k),
            product_steps_circuit(c2, xs2, bits2, x2, k),
        ),
    decreases k,
{
    if k > 0 {
        lemma_product_steps_description(c1, xs1, bits1, x1, c2, xs2, bits2, x2, (k - 1) as nat);
    }
}

/// The rows of the product gadget depend on the variables alone.
pub proof fn lemma_product_description(
    c1: Circuit,
    xs1: Seq<Binding>,
    bits1: Seq<Binding>,
    x1: Binding,
    c2: Circuit,
    xs2: Seq<Binding>,
    bits2: Seq<Binding>,
    x2: Binding,
)
    requires
        same_description(c1, c2),
        same_variables(xs1, xs2),
        same_variables(bits1, bits2),
        xs1.len() == bits1.len(),
        x1.index == x2.index,
    ensures
        same_description(
            product_circuit(c1, xs1, bits1, x1),
            product_circuit(c2, xs2, bits2, x2),
        ),
{
    lemma_product_steps_description(c1, xs1, bits1, x1, c2, xs2, bits2, x2, xs1.len());
}

/// The rows that allocate and constrain indicator bits depend on how many
/// bits there are, not on the bits.
pub proof fn lemma_indicator_description(
    c1: Circuit,
    bits1: Seq<nat>,
    c2: Circuit,
    bits2: Seq<nat>,
    k: nat,
)
    requires
        same_description(c1, c2),
        k <= bits1.len(),
        k <= bits2.len(),
    ensures
        same_description(indicator_circuit(c1, bits1, k), indicator_circuit(c2, bits2, k)),
    decreases k,
{
    if k > 0 {
        lemma_indicator_description(c1, bits1, c2, bits2, (k - 1) as nat);
    }
}

/// The rows that fix a public set in a circuit depend on the set alone.
pub proof fn lemma_fixed_set_description(c1: Circuit, c2: Circuit, set: Seq<nat>, k: nat)
    requires
        same_description(c1, c2),
        k <= set.len(),
    ensures
        same_description(fixed_set_circuit(c1, set, k), fixed_set_circuit(c2, set, k)),
    decreases k,
{
    if k > 0 {
        lemma_fixed_set_description(c1, c2, set, (k - 1) as nat);
    }
}

/// The rows of the membership gadget on a public set depend on the set, not
/// on the value that is looked up: a verifier who does not know the value
/// builds the same rows.
pub proof fn lemma_membership_description(c1: Circuit, v1: nat, c2: Circuit, v2: nat, set: Seq<nat>)
    requires
        same_description(c1, c2),
    ensures
        same_description(membership_circuit(c1, set, v1), membership_circuit(c2, set, v2)),
{
    let fixed1 = fixed_set_circuit(c1, set, set.len());
    let fixed2 = fixed_set_circuit(c2, set, set.len());
    let bits1 = indicator(set, v1);
    let bits2 = indicator(set, v2);
    lemma_fixed_set_description(c1, c2, set, set.len());
    lemma_indicator_description(fixed1, bits1, fixed2, bits2, set.len());
    lemma_sum_description(
        indicator_circuit(fixed1, bits1, set.len()),
        indicator_bindings(fixed1.next(), bits1),
        indicator_circuit(fixed2, bits2, set.len()),
        indicator_bindings(fixed2.next(), bits2),
        1,
    );
}

/// The rows of the membership gadget on a private set depend on the
/// variables alone.
pub proof fn lemma_private_membership_description(
    c1: Circuit,
    xs1: Seq<Binding>,
    x1: Binding,
    c2: Circuit,
    xs2: Seq<Binding>,
    x2: Binding,
)
    requires
        same_description(c1, c2),
        same_variables(xs1, xs2),
        x1.index == x2.index,
    ensures
        same_description(
            private_membership_circuit(c1, xs1, x1),
            private_membership_circuit(c2, xs2, x2),
        ),
{
    let bits1 = indicator(binding_values(xs1), x1.value);
    let bits2 = indicator(binding_values(xs2), x2.value);
    let marks1 = indicator_bindings(c1.next(), bits1);
    let marks2 = indicator_bindings(c2.next(), bits2);
    let marked1 = indicator_circuit(c1, bits1, xs1.len());
    let marked2 = indicator_circuit(c2, bits2, xs2.len());
    lemma_indicator_description(c1, bits1, c2, bits2, xs1.len());
    lemma_sum_description(marked1, marks1, marked2, marks2, 1);
    lemma_product_description(
        sum_circuit(marked1, marks1, 1),
        xs1,
        marks1,
        x1,
        sum_circuit(marked2, marks2, 1),
        xs2,
        marks2,
        x2,
    );
}

/// The witnesses of the inequality gadget are determined by what the two
/// variables hold: two assignments that give the two variables the same
/// values, and under which the rows of the gadget hold, give the same
/// values to the four variables of the gadget, the inverse among them.
pub proof fn lemma_inequality_witnesses_are_determined(
    a: nat,
    b: nat,
    first: nat,
    w1: Seq<nat>,
    w2: Seq<nat>,
)
    requires
        is_assignment(w1),
        is_assignment(w2),
        rows_hold(inequality_rows(a, b, first), w1),
        rows_hold(inequality_rows(a, b, first), w2),
        w1[a as int] == w2[a as int],
        w1[b as int] == w2[b as int],
    ensures
        w1[first as int] == w2[first as int],
        w1[first as int + 1] == w2[first as int + 1],
        w1[first as int + 2] == w2[first as int + 2],
        w1[first as int + 3] == w2[first as int + 3],
{
    lemma_inequality_witnesses(a, b, first, w1);
    lemma_inequality_witnesses(a, b, first, w2);
    lemma_inverse_unique(w1[first as int], w1[first as int + 1], w2[first as int + 1]);
}

/// The witnesses of the bit gadget are determined by what the variable
/// holds: two assignments that give the variable the same value, and under
/// which the rows of the gadget hold, give the same values to the two
/// variables of the gadget.
pub proof fn lemma_bit_witnesses_are_determined(x: nat, first: nat, w1: Seq<nat>, w2: Seq<nat>)
    requires
        is_assignment(w1),
        is_assignment(w2),
        rows_hold(bit_rows(x, first), w1),
        rows_hold(bit_rows(x, first), w2),
        w1[x as int] == w2[x as int],
    ensures
        w1[first as int] == w2[first as int],
        w1[first as int + 1] == w2[first as int + 1],
{
    lemma_bit_witnesses(x, first, w1);
    lemma_bit_witnesses(x, first, w2);
}

} // verus!
