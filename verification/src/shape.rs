//! The shape of the circuits that the gadgets build: how many variables and
//! rows each of them appends, and which rows stand where.

use crate::circuit::{
    addition_row, Binding, binding_values, Circuit, constant_row, equality_row, product_row,
};
use crate::field::{fmul, montgomery};
use crate::set::{
    distinct_from_circuit, fixed_set_circuit, indicator_circuit, masked_sum, masked_total,
    non_membership_circuit, private_non_membership_circuit, product_steps_circuit,
    uniqueness_circuit,
};
use vstd::prelude::*;

verus! {

/// The circuit after the first elements of a public set were proved distinct
/// from `x` has the circuit before at its start.
pub proof fn lemma_non_membership_extends(c: Circuit, set: Seq<nat>, x: Binding, k: nat)
    ensures
        non_membership_circuit(c, set, x, k).extends(c),
    decreases k,
{
    if k > 0 {
        lemma_non_membership_extends(c, set, x, (k - 1) as nat);
    }
}

/// The shape of the circuit after `k` elements of a public set were proved
/// distinct from `x`: five variables and five rows for each element, the
/// first row of each fixing the element as a constant.
pub proof fn lemma_non_membership_shape(c: Circuit, set: Seq<nat>, x: Binding, k: nat)
    requires
        k <= set.len(),
    ensures
        non_membership_circuit(c, set, x, k).extends(c),
        non_membership_circuit(c, set, x, k).rows.len() == c.rows.len() + 5 * k,
        non_membership_circuit(c, set, x, k).witnesses.len() == c.witnesses.len() + 5 * k,
        forall|i: int|
            0 <= i < k ==> #[trigger] non_membership_circuit(c, set, x, k).rows[c.rows.len() + 5
                * i] == constant_row((c.next() + 5 * i) as nat, set[i], None),
    decreases k,
{
    if k > 0 {
        let before = non_membership_circuit(c, set, x, (k - 1) as nat);
        let after = non_membership_circuit(c, set, x, k);
        lemma_non_membership_shape(c, set, x, (k - 1) as nat);
        assert forall|i: int| 0 <= i < k implies #[trigger] after.rows[c.rows.len() + 5 * i]
            == constant_row((c.next() + 5 * i) as nat, set[i], None) by {
            if i < k - 1 {
                assert(after.rows[c.rows.len() + 5 * i] == before.rows[c.rows.len() + 5 * i]);
            }
        }
    }
}

/// The circuit after the first elements of a private set were proved
/// distinct from `x` has the circuit before at its start.
pub proof fn lemma_private_non_membership_extends(
    c: Circuit,
    xs: Seq<Binding>,
    x: Binding,
    k: nat,
)
    ensures
        private_non_membership_circuit(c, xs, x, k).extends(c),
    decreases k,
{
    if k > 0 {
        lemma_private_non_membership_extends(c, xs, x, (k - 1) as nat);
    }
}

/// The circuit after one element was proved distinct from those after it
/// has the circuit before at its start.
pub proof fn lemma_distinct_from_extends(c: Circuit, xs: Seq<Binding>, i: nat, j: nat)
    ensures
        distinct_from_circuit(c, xs, i, j).extends(c),
    decreases j,
{
    if j > i + 1 {
        lemma_distinct_from_extends(c, xs, i, (j - 1) as nat);
    }
}

/// The circuit after the first elements were each proved distinct from those
/// after them has the circuit before at its start.
pub proof fn lemma_uniqueness_extends(c: Circuit, xs: Seq<Binding>, k: nat)
    ensures
        uniqueness_circuit(c, xs, k).extends(c),
    decreases k,
{
    if k > 0 {
        lemma_uniqueness_extends(c, xs, (k - 1) as nat);
        lemma_distinct_from_extends(
            uniqueness_circuit(c, xs, (k - 1) as nat),
            xs,
            (k - 1) as nat,
            xs.len(),
        );
    }
}

/// The shape of the circuit after `k` elements of a public set were fixed
/// in it: one variable and one row for each.
pub proof fn lemma_fixed_set_shape(c: Circuit, set: Seq<nat>, k: nat)
    requires
        k <= set.len(),
    ensures
        fixed_set_circuit(c, set, k).extends(c),
        fixed_set_circuit(c, set, k).rows.len() == c.rows.len() + k,
        fixed_set_circuit(c, set, k).witnesses.len() == c.witnesses.len() + k,
        forall|i: int|
            0 <= i < k ==> #[trigger] fixed_set_circuit(c, set, k).rows[c.rows.len() + i]
                == constant_row((c.next() + i) as nat, set[i], None),
    decreases k,
{
    if k > 0 {
        let before = fixed_set_circuit(c, set, (k - 1) as nat);
        let after = fixed_set_circuit(c, set, k);
        lemma_fixed_set_shape(c, set, (k - 1) as nat);
        assert forall|i: int| 0 <= i < k implies #[trigger] after.rows[c.rows.len() + i]
            == constant_row((c.next() + i) as nat, set[i], None) by {
            if i < k - 1 {
                assert(after.rows[c.rows.len() + i] == before.rows[c.rows.len() + i]);
            }
        }
    }
}

/// The shape of the circuit after `k` indicator bits were allocated and
/// constrained: three variables and three rows for each.
pub proof fn lemma_indicator_shape(c: Circuit, bits: Seq<nat>, k: nat)
    requires
        k <= bits.len(),
    ensures
        indicator_circuit(c, bits, k).extends(c),
        indicator_circuit(c, bits, k).rows.len() == c.rows.len() + 3 * k,
        indicator_circuit(c, bits, k).witnesses.len() == c.witnesses.len() + 3 * k,
    decreases k,
{
    if k > 0 {
        lemma_indicator_shape(c, bits, (k - 1) as nat);
    }
}

/// Whether `after` holds, where step `i` of the product gadget puts them,
/// the two products and the masked total, and the four rows of the step.
pub open spec fn has_product_step(
    after: Circuit,
    c: Circuit,
    xs: Seq<Binding>,
    bits: Seq<Binding>,
    x: Binding,
    i: int,
) -> bool {
    let first = c.next() + 3 * i;
    let base = c.rows.len() + 4 * i;
    &&& after.witnesses[first] == montgomery(fmul(xs[i].value, bits[i].value))
    &&& after.witnesses[first + 1] == montgomery(fmul(x.value, bits[i].value))
    &&& after.witnesses[first + 2] == montgomery(
        masked_sum(binding_values(xs), binding_values(bits), (i + 1) as nat),
    )
    &&& after.rows[base] == product_row(1, xs[i].index, bits[i].index, first as nat, 0, None)
    &&& after.rows[base + 1] == product_row(
        1,
        x.index,
        bits[i].index,
        (first + 1) as nat,
        0,
        None,
    )
    &&& after.rows[base + 2] == equality_row(first as nat, (first + 1) as nat)
    &&& after.rows[base + 3] == addition_row(
        1,
        masked_total(c.next(), i as nat),
        1,
        first as nat,
        (first + 2) as nat,
        0,
        None,
    )
}

/// The shape of the circuit after `k` steps of the product gadget: three
/// variables and four rows for each step.
pub proof fn lemma_product_steps_shape(
    c: Circuit,
    xs: Seq<Binding>,
    bits: Seq<Binding>,
    x: Binding,
    k: nat,
)
    requires
        k <= xs.len(),
        xs.len() == bits.len(),
    ensures
        product_steps_circuit(c, xs, bits, x, k).extends(c),
        product_steps_circuit(c, xs, bits, x, k).rows.len() == c.rows.len() + 4 * k,
        product_steps_circuit(c, xs, bits, x, k).witnesses.len() == c.witnesses.len() + 3 * k,
        forall|i: int|
            0 <= i < k ==> #[trigger] has_product_step(
                product_steps_circuit(c, xs, bits, x, k),
                c,
                xs,
                bits,
                x,
                i,
            ),
    decreases k,
{
    if k > 0 {
        let before = product_steps_circuit(c, xs, bits, x, (k - 1) as nat);
        let after = product_steps_circuit(c, xs, bits, x, k);
        lemma_product_steps_shape(c, xs, bits, x, (k - 1) as nat);
        assert forall|i: int| 0 <= i < k implies #[trigger] has_product_step(
            after,
            c,
            xs,
            bits,
            x,
            i,
        ) by {
            let first = c.next() + 3 * i;
            let base = c.rows.len() + 4 * i;
            if i < k - 1 {
                assert(has_product_step(before, c, xs, bits, x, i));
                assert(after.witnesses[first] == before.witnesses[first]);
                assert(after.witnesses[first + 1] == before.witnesses[first + 1]);
                assert(after.witnesses[first + 2] == before.witnesses[first + 2]);
                assert(after.rows[base] == before.rows[base]);
                assert(after.rows[base + 1] == before.rows[base + 1]);
                assert(after.rows[base + 2] == before.rows[base + 2]);
                assert(after.rows[base + 3] == before.rows[base + 3]);
            }
        }
    }
}

} // verus!
