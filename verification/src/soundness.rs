//! What the rows of each gadget ask of an assignment, and when the witnesses
//! that a gadget allocates satisfy its rows.

use crate::bit::{bit_circuit, bit_rows, bit_witnesses, passes_bit_test};
use crate::circuit::{Binding, binding_values, Circuit, constant_row, equality_row};
use crate::field::{
    fadd, field_sum, finv, fmul, fneg, fsub, is_inverse, lemma_constants,
    lemma_element_of_montgomery, lemma_field_closed, lemma_field_sum_step, lemma_fsub_zero,
    lemma_modulus_is_large, lemma_montgomery_of_element, lemma_zero_has_no_inverse, modulus,
    montgomery,
};
use crate::semantics::{
    is_assignment, lemma_addition_row, lemma_appended_rows, lemma_constant_row,
    lemma_equality_row, lemma_fused_product_row, lemma_fused_zero_row, lemma_product_row,
    row_holds, rows_hold,
};
use crate::set::{
    distinct_from_circuit, fixed_circuit, fixed_set_circuit, indicator, indicator_bindings,
    indicator_circuit, inequality_circuit, inequality_rows, masked_sum, masked_total,
    masks_agree, membership_circuit, non_membership_circuit, occurrences,
    private_membership_circuit, private_non_membership_circuit, private_sum_circuit,
    product_circuit, product_steps_circuit, running_total, sum_circuit, sum_rows, sum_witnesses,
    uniqueness_circuit,
};
use crate::shape::{
    has_product_step, lemma_distinct_from_extends, lemma_fixed_set_shape, lemma_indicator_shape,
    lemma_non_membership_extends, lemma_private_non_membership_extends,
    lemma_product_steps_shape, lemma_uniqueness_extends,
};
use vstd::arithmetic::div_mod::{
    lemma_add_mod_noop, lemma_mod_add_multiples_vanish, lemma_mod_multiples_vanish,
    lemma_mul_mod_noop_general, lemma_small_mod,
};
use vstd::arithmetic::mul::{lemma_mul_is_associative, lemma_mul_is_commutative};
use vstd::prelude::*;

verus! {

/// The witnesses of a circuit make an assignment.
pub proof fn lemma_values_are_assignment(c: Circuit)
    ensures
        is_assignment(c.values()),
        c.values().len() == c.witnesses.len(),
{
    assert forall|i: int| 0 <= i < c.values().len() implies #[trigger] c.values()[i]
        < modulus() by {
        lemma_montgomery_of_element(c.witnesses[i]);
    }
}

/// A bound variable holds the value of its binding.
pub proof fn lemma_bound_value(c: Circuit, b: Binding)
    requires
        c.binds(b),
    ensures
        b.index < c.values().len(),
        c.values()[b.index as int] == b.value,
{
    lemma_element_of_montgomery(b.value);
    lemma_small_mod(b.value, modulus());
}

/// The values that an assignment gives to the variables of a sequence of
/// bindings.
pub open spec fn assigned(xs: Seq<Binding>, w: Seq<nat>) -> Seq<nat> {
    Seq::new(xs.len(), |i: int| w[xs[i].index as int])
}

/// Where `d + b = a` in the field, `d` is `a - b`.
pub proof fn lemma_summand(d: nat, b: nat, a: nat)
    requires
        d < modulus(),
        b < modulus(),
        a < modulus(),
        fadd(d, b) == a,
    ensures
        d == fsub(a, b),
{
    let r = modulus() as int;
    lemma_modulus_is_large();
    // d + b is a or a + r
    if d + b >= r {
        lemma_mod_add_multiples_vanish(d + b - r, r);
        lemma_small_mod((d + b - r) as nat, modulus());
    } else {
        lemma_small_mod(d + b, modulus());
    }
    if a >= b {
        lemma_small_mod((a - b) as nat, modulus());
    } else {
        lemma_mod_add_multiples_vanish(a - b, r);
        lemma_small_mod((a - b + r) as nat, modulus());
    }
}

/// Zero and one pass the bit gadget's test; a value below `2^127` passes it
/// only if it is zero or one.
pub proof fn lemma_bit_test(v: nat)
    requires
        v < modulus(),
    ensures
        v <= 1 ==> passes_bit_test(v),
        passes_bit_test(v) && v < 0x8000_0000_0000_0000_0000_0000_0000_0000 ==> v <= 1,
{
    let r = modulus() as int;
    lemma_modulus_is_large();
    lemma_fsub_zero(1, v);
    if v == 0 {
        assert(0 * fsub(1, 0) == 0) by (nonlinear_arith);
        lemma_small_mod(0, modulus());
    } else if v == 1 {
        assert(fsub(1, 1) == 0);
        assert(1 * 0 == 0) by (nonlinear_arith);
        lemma_small_mod(0, modulus());
    } else if v < 0x8000_0000_0000_0000_0000_0000_0000_0000 {
        // 1 - v is r + 1 - v, and v * (r + 1 - v) = r * v - (v * v - v)
        lemma_mod_add_multiples_vanish(1 - v, r);
        lemma_small_mod((1 - v + r) as nat, modulus());
        let c = (r + 1 - v) as nat;
        assert(fsub(1, v) == c);
        let gap = v * v - v;
        assert(0 < gap < 0x4000_0000_0000_0000_0000_0000_0000_0000_0000_0000_0000_0000_0000_0000_0000_0000)
            by (nonlinear_arith)
            requires
                2 <= v < 0x8000_0000_0000_0000_0000_0000_0000_0000,
                gap == v * v - v,
        ;
        crate::field::lemma_modulus_is_huge();
        assert(v * c == r * (v - 1) + (r - gap)) by (nonlinear_arith)
            requires
                c == r + 1 - v,
                gap == v * v - v,
        ;
        lemma_mod_multiples_vanish(v - 1, r - gap, r);
        lemma_small_mod((r - gap) as nat, modulus());
    }
}

/// A value that passes the bit gadget's test and has an inverse is one.
pub proof fn lemma_invertible_bit_is_one(v: nat, inv: nat)
    requires
        v < modulus(),
        passes_bit_test(v),
        is_inverse(v, inv),
    ensures
        v == 1,
{
    let r = modulus() as int;
    let c = fsub(1, v);
    lemma_modulus_is_large();
    lemma_fsub_zero(1, v);
    // c = (inv * v) * c = inv * (v * c) = 0, all modulo the order
    lemma_mul_mod_noop_general((inv * v) as int, c as int, r);
    lemma_mul_mod_noop_general(inv as int, (v * c) as int, r);
    lemma_mul_is_associative(inv as int, v as int, c as int);
    lemma_mul_is_commutative(inv as int, v as int);
    assert(1 * c == c && inv * 0 == 0) by (nonlinear_arith);
    lemma_small_mod(c, modulus());
    lemma_small_mod(0, modulus());
}

/// Under every assignment under which the rows of the bit gadget hold, the
/// first variable of the gadget holds one less the value of `x`, the second
/// holds one, and the value of `x` times the first is zero.
pub proof fn lemma_bit_witnesses(x: nat, first: nat, w: Seq<nat>)
    requires
        is_assignment(w),
        rows_hold(bit_rows(x, first), w),
    ensures
        x < w.len(),
        first + 1 < w.len(),
        w[first as int] == fsub(1, w[x as int]),
        w[first as int + 1] == 1,
        fmul(w[x as int], w[first as int]) == 0,
{
    let rows = bit_rows(x, first);
    assert(row_holds(rows[0], w));
    assert(row_holds(rows[1], w));
    assert(row_holds(rows[2], w));
    lemma_modulus_is_large();
    lemma_addition_row(first, x, first + 1, w);
    lemma_constant_row(first + 1, 1, None, w);
    lemma_fused_zero_row(x, first, w);
    lemma_small_mod(w[first as int + 1], modulus());
    lemma_summand(w[first as int], w[x as int], 1);
}

/// Under every assignment under which the rows of the bit gadget hold, the
/// variable `x` holds a value that passes the gadget's test.
pub proof fn lemma_bit_rows_sound(x: nat, first: nat, w: Seq<nat>)
    requires
        is_assignment(w),
        rows_hold(bit_rows(x, first), w),
    ensures
        x < w.len(),
        passes_bit_test(w[x as int]),
{
    lemma_bit_witnesses(x, first, w);
}

/// The witnesses that the bit gadget allocates for a bound variable satisfy
/// its rows exactly when the variable's value passes the gadget's test.
pub proof fn lemma_bit_circuit_holds(c: Circuit, x: Binding)
    requires
        c.binds(x),
    ensures
        rows_hold(bit_rows(x.index, c.next()), bit_circuit(c, x).values()) == passes_bit_test(x.value),
{
    let after = bit_circuit(c, x);
    let w = after.values();
    let first = c.next();
    let rows = bit_rows(x.index, first);
    lemma_values_are_assignment(after);
    lemma_modulus_is_large();
    lemma_constants();
    lemma_fsub_zero(1, x.value);
    lemma_element_of_montgomery(x.value);
    lemma_element_of_montgomery(fsub(1, x.value));
    lemma_small_mod(x.value, modulus());
    lemma_small_mod(fsub(1, x.value), modulus());
    lemma_small_mod(1, modulus());
    assert(w[x.index as int] == x.value);
    assert(w[first as int] == fsub(1, x.value));
    assert(w[first as int + 1] == 1);
    lemma_addition_row(first, x.index, first + 1, w);
    lemma_constant_row(first + 1, 1, None, w);
    lemma_fused_zero_row(x.index, first, w);
    // (1 - v) + v = 1
    assert(fadd(fsub(1, x.value), x.value) == 1);
    if passes_bit_test(x.value) {
        assert forall|i: int| 0 <= i < rows.len() implies row_holds(#[trigger] rows[i], w) by {
            if i == 0 {
            } else if i == 1 {
            } else {
            }
        }
    } else {
        assert(!row_holds(rows[2], w));
    }
}

/// The witnesses that the bit gadget allocates for a bound variable satisfy
/// its rows exactly when the variable's value passes the gadget's test.
pub proof fn lemma_bit_circuit_satisfied(c: Circuit, x: Binding)
    requires
        c.binds(x),
    ensures
        bit_circuit(c, x).satisfied_from(c.rows.len()) == passes_bit_test(x.value),
{
    lemma_bit_circuit_holds(c, x);
    lemma_appended_rows(c, bit_witnesses(x.value), bit_rows(x.index, c.next()));
}

/// The bit gadget lets zero and one through: for a bound variable that holds
/// zero or one, the witnesses that the gadget allocates satisfy its rows.
pub proof fn lemma_bit_gadget_accepts_bits(c: Circuit, x: Binding)
    requires
        c.binds(x),
        x.value <= 1,
    ensures
        rows_hold(bit_rows(x.index, c.next()), bit_circuit(c, x).values()),
{
    lemma_bit_test(x.value);
    lemma_bit_circuit_holds(c, x);
}

/// The bit gadget stops every other value below `2^127`: no assignment that
/// gives the variable such a value satisfies the gadget's rows.
pub proof fn lemma_bit_gadget_rejects_others(x: nat, first: nat, w: Seq<nat>)
    requires
        is_assignment(w),
        x < w.len(),
        1 < w[x as int] < 0x8000_0000_0000_0000_0000_0000_0000_0000,
    ensures
        !rows_hold(bit_rows(x, first), w),
{
    if rows_hold(bit_rows(x, first), w) {
        lemma_bit_rows_sound(x, first, w);
        lemma_bit_test(w[x as int]);
    }
}

/// Under every assignment under which the rows of the inequality gadget
/// hold, the first variable of the gadget holds the difference of what `a`
/// and `b` hold, the second its inverse, the third what `a` holds, and the
/// fourth one.
pub proof fn lemma_inequality_witnesses(a: nat, b: nat, first: nat, w: Seq<nat>)
    requires
        is_assignment(w),
        rows_hold(inequality_rows(a, b, first), w),
    ensures
        a < w.len(),
        b < w.len(),
        first + 3 < w.len(),
        w[first as int] == fsub(w[a as int], w[b as int]),
        is_inverse(w[first as int], w[first as int + 1]),
        w[first as int + 2] == w[a as int],
        w[first as int + 3] == 1,
{
    let rows = inequality_rows(a, b, first);
    assert(row_holds(rows[0], w));
    assert(row_holds(rows[1], w));
    assert(row_holds(rows[2], w));
    assert(row_holds(rows[3], w));
    lemma_modulus_is_large();
    lemma_addition_row(first, b, first + 2, w);
    lemma_equality_row(first + 2, a, w);
    lemma_constant_row(first + 3, 1, None, w);
    lemma_fused_product_row(first, first + 1, first + 3, w);
    lemma_small_mod(w[first as int + 3], modulus());
    lemma_summand(w[first as int], w[b as int], w[a as int]);
}

/// Under every assignment under which the rows of the inequality gadget
/// hold, the two variables hold different values.
pub proof fn lemma_inequality_rows_sound(a: nat, b: nat, first: nat, w: Seq<nat>)
    requires
        is_assignment(w),
        rows_hold(inequality_rows(a, b, first), w),
    ensures
        a < w.len(),
        b < w.len(),
        w[a as int] != w[b as int],
{
    lemma_inequality_witnesses(a, b, first, w);
    lemma_fsub_zero(w[a as int], w[b as int]);
    lemma_zero_has_no_inverse(w[first as int + 1]);
}

/// The witnesses that the inequality gadget allocates for two bound
/// variables satisfy its rows, where the difference of their values has an
/// inverse.
pub proof fn lemma_inequality_circuit_holds(c: Circuit, a: Binding, b: Binding)
    requires
        c.binds(a),
        c.binds(b),
        is_inverse(fsub(a.value, b.value), finv(fsub(a.value, b.value))),
    ensures
        rows_hold(inequality_rows(a.index, b.index, c.next()), inequality_circuit(c, a, b).values()),
{
    let after = inequality_circuit(c, a, b);
    let w = after.values();
    let first = c.next();
    let rows = inequality_rows(a.index, b.index, first);
    let d = fsub(a.value, b.value);
    lemma_values_are_assignment(after);
    lemma_modulus_is_large();
    lemma_constants();
    lemma_fsub_zero(a.value, b.value);
    lemma_element_of_montgomery(a.value);
    lemma_element_of_montgomery(b.value);
    lemma_element_of_montgomery(d);
    lemma_element_of_montgomery(finv(d));
    lemma_small_mod(a.value, modulus());
    lemma_small_mod(b.value, modulus());
    lemma_small_mod(d, modulus());
    lemma_small_mod(finv(d), modulus());
    lemma_small_mod(1, modulus());
    assert(w[a.index as int] == a.value);
    assert(w[b.index as int] == b.value);
    assert(w[first as int] == d);
    assert(w[first as int + 1] == finv(d));
    assert(w[first as int + 2] == a.value);
    assert(w[first as int + 3] == 1);
    lemma_addition_row(first, b.index, first + 2, w);
    lemma_equality_row(first + 2, a.index, w);
    lemma_constant_row(first + 3, 1, None, w);
    lemma_fused_product_row(first, first + 1, first + 3, w);
    assert forall|i: int| 0 <= i < rows.len() implies row_holds(#[trigger] rows[i], w) by {
        if i == 0 {
        } else if i == 1 {
        } else if i == 2 {
        } else {
        }
    }
}

/// The witnesses that the inequality gadget allocates satisfy its rows,
/// where the difference of the values has an inverse.
pub proof fn lemma_inequality_circuit_satisfied(c: Circuit, a: Binding, b: Binding)
    requires
        c.binds(a),
        c.binds(b),
        is_inverse(fsub(a.value, b.value), finv(fsub(a.value, b.value))),
    ensures
        inequality_circuit(c, a, b).satisfied_from(c.rows.len()),
{
    let after = inequality_circuit(c, a, b);
    let block = inequality_rows(a.index, b.index, c.next());
    lemma_inequality_circuit_holds(c, a, b);
    assert forall|j: int| c.rows.len() <= j < after.rows.len() implies row_holds(
        #[trigger] after.rows[j],
        after.values(),
    ) by {
        assert(after.rows[j] == block[j - c.rows.len()]);
    }
}

/// The witness that is allocated for an element of a public set satisfies
/// the row that fixes it.
pub proof fn lemma_fixed_circuit_satisfied(c: Circuit, e: nat)
    requires
        e < modulus(),
    ensures
        fixed_circuit(c, e).satisfied_from(c.rows.len()),
{
    let after = fixed_circuit(c, e);
    let w = after.values();
    let p = c.next();
    lemma_values_are_assignment(after);
    lemma_modulus_is_large();
    lemma_element_of_montgomery(e);
    lemma_small_mod(e, modulus());
    assert(w[p as int] == e);
    lemma_constant_row(p, e, None, w);
    assert(after.rows[c.rows.len() as int] == constant_row(p, e, None));
}

/// Under every assignment under which the rows of the non-membership gadget
/// on a public set hold, the variable of the value holds an element that
/// differs from every element of the set.
pub proof fn lemma_non_membership_rows_sound(
    c: Circuit,
    set: Seq<nat>,
    x: Binding,
    k: nat,
    w: Seq<nat>,
)
    requires
        is_assignment(w),
        k <= set.len(),
        forall|i: int| 0 <= i < set.len() ==> set[i] < modulus(),
        non_membership_circuit(c, set, x, k).holds_from(c.rows.len(), w),
    ensures
        forall|i: int| 0 <= i < k ==> w[x.index as int] != set[i],
    decreases k,
{
    if k > 0 {
        let before = non_membership_circuit(c, set, x, (k - 1) as nat);
        let after = non_membership_circuit(c, set, x, k);
        let e = set[k - 1];
        let p = before.next();
        let base = before.rows.len() as int;
        let block = inequality_rows(p, x.index, p + 1);
        lemma_non_membership_extends(c, set, x, (k - 1) as nat);
        assert forall|j: int| c.rows.len() <= j < before.rows.len() implies row_holds(
            #[trigger] before.rows[j],
            w,
        ) by {
            assert(after.rows[j] == before.rows[j]);
        }
        lemma_non_membership_rows_sound(c, set, x, (k - 1) as nat, w);
        assert forall|t: int| 0 <= t < block.len() implies row_holds(#[trigger] block[t], w) by {
            assert(after.rows[base + 1 + t] == block[t]);
        }
        lemma_inequality_rows_sound(p, x.index, p + 1, w);
        assert(after.rows[base] == constant_row(p, e, None));
        lemma_constant_row(p, e, None, w);
        lemma_small_mod(w[p as int], modulus());
    }
}

/// Under every assignment under which the rows of the non-membership gadget
/// on a private set hold, the variable of the value holds an element that
/// differs from what every variable of the set holds.
pub proof fn lemma_private_non_membership_rows_sound(
    c: Circuit,
    xs: Seq<Binding>,
    x: Binding,
    k: nat,
    w: Seq<nat>,
)
    requires
        is_assignment(w),
        k <= xs.len(),
        private_non_membership_circuit(c, xs, x, k).holds_from(c.rows.len(), w),
    ensures
        forall|i: int| 0 <= i < k ==> w[x.index as int] != w[xs[i].index as int],
    decreases k,
{
    if k > 0 {
        let before = private_non_membership_circuit(c, xs, x, (k - 1) as nat);
        let after = private_non_membership_circuit(c, xs, x, k);
        let base = before.rows.len() as int;
        let block = inequality_rows(xs[k - 1].index, x.index, before.next());
        lemma_private_non_membership_extends(c, xs, x, (k - 1) as nat);
        assert forall|j: int| c.rows.len() <= j < before.rows.len() implies row_holds(
            #[trigger] before.rows[j],
            w,
        ) by {
            assert(after.rows[j] == before.rows[j]);
        }
        lemma_private_non_membership_rows_sound(c, xs, x, (k - 1) as nat, w);
        assert forall|t: int| 0 <= t < block.len() implies row_holds(#[trigger] block[t], w) by {
            assert(after.rows[base + t] == block[t]);
        }
        lemma_inequality_rows_sound(xs[k - 1].index, x.index, before.next(), w);
    }
}

/// Under every assignment under which the rows hold that prove the element
/// at position `i` distinct from those after it and before `j`, the
/// variable at `i` holds an element that differs from what those hold.
pub proof fn lemma_distinct_from_rows_sound(
    c: Circuit,
    xs: Seq<Binding>,
    i: nat,
    j: nat,
    w: Seq<nat>,
)
    requires
        is_assignment(w),
        i < j <= xs.len(),
        distinct_from_circuit(c, xs, i, j).holds_from(c.rows.len(), w),
    ensures
        forall|t: int| i < t < j ==> w[xs[i as int].index as int] != w[xs[t].index as int],
    decreases j,
{
    if j > i + 1 {
        let before = distinct_from_circuit(c, xs, i, (j - 1) as nat);
        let after = distinct_from_circuit(c, xs, i, j);
        let base = before.rows.len() as int;
        let block = inequality_rows(xs[i as int].index, xs[j - 1].index, before.next());
        lemma_distinct_from_extends(c, xs, i, (j - 1) as nat);
        assert forall|t: int| c.rows.len() <= t < before.rows.len() implies row_holds(
            #[trigger] before.rows[t],
            w,
        ) by {
            assert(after.rows[t] == before.rows[t]);
        }
        lemma_distinct_from_rows_sound(c, xs, i, (j - 1) as nat, w);
        assert forall|t: int| 0 <= t < block.len() implies row_holds(#[trigger] block[t], w) by {
            assert(after.rows[base + t] == block[t]);
        }
        lemma_inequality_rows_sound(xs[i as int].index, xs[j - 1].index, before.next(), w);
    }
}

/// Under every assignment under which the rows of the uniqueness gadget
/// hold, the variables hold pairwise different elements.
pub proof fn lemma_uniqueness_rows_sound(c: Circuit, xs: Seq<Binding>, k: nat, w: Seq<nat>)
    requires
        is_assignment(w),
        k <= xs.len(),
        uniqueness_circuit(c, xs, k).holds_from(c.rows.len(), w),
    ensures
        forall|a: int, b: int|
            0 <= a < k && a < b < xs.len() ==> w[xs[a].index as int] != w[xs[b].index as int],
    decreases k,
{
    if k > 0 {
        let before = uniqueness_circuit(c, xs, (k - 1) as nat);
        let after = uniqueness_circuit(c, xs, k);
        lemma_uniqueness_extends(c, xs, (k - 1) as nat);
        lemma_distinct_from_extends(before, xs, (k - 1) as nat, xs.len());
        assert forall|t: int| c.rows.len() <= t < before.rows.len() implies row_holds(
            #[trigger] before.rows[t],
            w,
        ) by {
            assert(after.rows[t] == before.rows[t]);
        }
        lemma_uniqueness_rows_sound(c, xs, (k - 1) as nat, w);
        assert(after.holds_from(before.rows.len(), w));
        lemma_distinct_from_rows_sound(before, xs, (k - 1) as nat, xs.len(), w);
    }
}

/// Where `a - e = 0` in the field, `a` is `e`.
pub proof fn lemma_cancel(a: nat, e: nat)
    requires
        a < modulus(),
        e < modulus(),
    ensures
        (fadd(a, fneg(e)) == 0) == (a == e),
{
    let r = modulus() as int;
    lemma_modulus_is_large();
    lemma_fsub_zero(0, e);
    let m = fneg(e);
    // m is zero where e is zero, and r - e else
    if e == 0 {
        lemma_small_mod(a, modulus());
    } else {
        lemma_mod_add_multiples_vanish(0 - e, r);
        lemma_small_mod((r - e) as nat, modulus());
        if a >= e {
            lemma_mod_add_multiples_vanish(a - e, r);
            lemma_small_mod((a - e) as nat, modulus());
        } else {
            lemma_small_mod((a + r - e) as nat, modulus());
        }
    }
}

/// Under an assignment under which the rows that add up hold and the zero
/// variable holds zero, the variable of the running total after `k` elements
/// holds the sum of what the first `k` variables hold.
pub proof fn lemma_running_totals(xs: Seq<Binding>, first: nat, w: Seq<nat>, k: nat)
    requires
        is_assignment(w),
        0 < w.len(),
        w[0] == 0,
        k <= xs.len(),
        rows_hold(sum_rows(xs, first, xs.len()), w),
    ensures
        running_total(first, k) < w.len(),
        w[running_total(first, k) as int] == field_sum(assigned(xs, w).take(k as int)),
    decreases k,
{
    let picked = assigned(xs, w);
    if k == 0 {
        assert(picked.take(0) =~= Seq::<nat>::empty());
    } else {
        let i = (k - 1) as nat;
        lemma_running_totals(xs, first, w, i);
        assert(row_holds(sum_rows(xs, first, xs.len())[i as int], w));
        lemma_addition_row(running_total(first, i), xs[i as int].index, first + i, w);
        lemma_field_sum_step(picked, i);
    }
}

/// The witnesses that adding up allocates for bound variables satisfy the
/// rows that add up, and the variable of the last running total holds the
/// sum of the values: this in every circuit that has these witnesses after
/// those of `c`.
pub proof fn lemma_running_totals_hold(c: Circuit, xs: Seq<Binding>, after: Circuit)
    requires
        forall|i: int| 0 <= i < xs.len() ==> c.binds(#[trigger] xs[i]),
        c.has_zero(),
        c.next() + xs.len() <= after.witnesses.len(),
        after.witnesses.take((c.next() + xs.len()) as int) == c.witnesses + sum_witnesses(
            binding_values(xs),
            xs.len(),
        ),
    ensures
        rows_hold(sum_rows(xs, c.next(), xs.len()), after.values()),
        after.values()[running_total(c.next(), xs.len()) as int] == field_sum(binding_values(xs)),
{
    let w = after.values();
    let values = binding_values(xs);
    let first = c.next();
    let n = xs.len();
    let start = after.witnesses.take((first + n) as int);
    lemma_values_are_assignment(after);
    lemma_modulus_is_large();
    lemma_constants();
    assert(values.take(0) =~= Seq::<nat>::empty());
    assert(values.take(n as int) =~= values);
    assert forall|i: int| 0 <= i < first + n implies after.witnesses[i] == start[i] by {}
    assert(after.witnesses[0] == start[0]);
    // what each variable holds
    assert forall|i: int| 0 <= i < n implies w[#[trigger] xs[i].index as int] == values[i] by {
        assert(c.binds(xs[i]));
        assert(after.witnesses[xs[i].index as int] == start[xs[i].index as int]);
        lemma_element_of_montgomery(xs[i].value);
        lemma_small_mod(xs[i].value, modulus());
    }
    assert forall|k: int| 0 <= k <= n implies w[running_total(first, k as nat) as int]
        == #[trigger] field_sum(values.take(k)) by {
        if k > 0 {
            assert(after.witnesses[first + k - 1] == start[first + k - 1]);
            lemma_field_sum_step(values, (k - 1) as nat);
            lemma_field_closed(field_sum(values.take(k - 1)), values[k - 1]);
            lemma_element_of_montgomery(field_sum(values.take(k)));
            lemma_small_mod(field_sum(values.take(k)), modulus());
        }
    }
    // the rows that add up hold
    let rows = sum_rows(xs, first, n);
    assert forall|i: int| 0 <= i < rows.len() implies row_holds(#[trigger] rows[i], w) by {
        lemma_addition_row(running_total(first, i as nat), xs[i].index, (first + i) as nat, w);
        lemma_field_sum_step(values, i as nat);
        assert(c.binds(xs[i]));
        assert(w[first + i] == field_sum(values.take(i + 1)));
        assert(w[running_total(first, i as nat) as int] == field_sum(values.take(i)));
    }
}

/// Under every assignment under which the rows of the sum gadget hold and
/// the zero variable holds zero, what the variables hold adds up to the
/// expected sum.
pub proof fn lemma_sum_rows_sound(c: Circuit, xs: Seq<Binding>, expected: nat, w: Seq<nat>)
    requires
        is_assignment(w),
        0 < w.len(),
        w[0] == 0,
        expected < modulus(),
        sum_circuit(c, xs, expected).holds_from(c.rows.len(), w),
    ensures
        field_sum(assigned(xs, w)) == expected,
{
    let after = sum_circuit(c, xs, expected);
    let n = xs.len();
    let total = running_total(c.next(), n);
    let rows = sum_rows(xs, c.next(), n);
    assert forall|i: int| 0 <= i < rows.len() implies row_holds(#[trigger] rows[i], w) by {
        assert(after.rows[c.rows.len() + i] == rows[i]);
    }
    lemma_running_totals(xs, c.next(), w, n);
    assert(assigned(xs, w).take(n as int) =~= assigned(xs, w));
    assert(after.rows[(c.rows.len() + n) as int] == constant_row(total, 0, Some(fneg(expected))));
    assert(row_holds(after.rows[(c.rows.len() + n) as int], w));
    lemma_modulus_is_large();
    lemma_constant_row(total, 0, Some(fneg(expected)), w);
    lemma_cancel(w[total as int], expected);
}

/// The witnesses that the sum gadget allocates for bound variables satisfy
/// its rows exactly when the values of the variables add up to the expected
/// sum.
pub proof fn lemma_sum_circuit_holds(c: Circuit, xs: Seq<Binding>, expected: nat)
    requires
        forall|i: int| 0 <= i < xs.len() ==> c.binds(#[trigger] xs[i]),
        c.has_zero(),
        expected < modulus(),
    ensures
        sum_circuit(c, xs, expected).satisfied_from(c.rows.len()) == (field_sum(binding_values(xs))
            == expected),
{
    let after = sum_circuit(c, xs, expected);
    let w = after.values();
    let n = xs.len();
    let total = running_total(c.next(), n);
    let rows = sum_rows(xs, c.next(), n);
    let last = constant_row(total, 0, Some(fneg(expected)));
    assert(after.witnesses.take((c.next() + n) as int) =~= c.witnesses + sum_witnesses(
        binding_values(xs),
        n,
    ));
    lemma_running_totals_hold(c, xs, after);
    lemma_values_are_assignment(after);
    lemma_modulus_is_large();
    // the last row holds exactly when the total is the expected sum
    lemma_constant_row(total, 0, Some(fneg(expected)), w);
    lemma_cancel(w[total as int], expected);
    lemma_appended_rows(c, sum_witnesses(binding_values(xs), n), rows.push(last));
    assert(rows.push(last)[n as int] == last);
    if field_sum(binding_values(xs)) == expected {
        assert forall|i: int| 0 <= i < rows.push(last).len() implies row_holds(
            #[trigger] rows.push(last)[i],
            w,
        ) by {
            if i < n {
                assert(rows.push(last)[i] == rows[i]);
            }
        }
    }
}

/// Under every assignment under which the rows of the sum gadget with a
/// private target hold and the zero variable holds zero, what the variables
/// hold adds up to what the variable of the target holds.
pub proof fn lemma_private_sum_rows_sound(
    c: Circuit,
    xs: Seq<Binding>,
    expected: nat,
    w: Seq<nat>,
)
    requires
        is_assignment(w),
        0 < w.len(),
        w[0] == 0,
        private_sum_circuit(c, xs, expected).holds_from(c.rows.len(), w),
    ensures
        c.next() + xs.len() < w.len(),
        field_sum(assigned(xs, w)) == w[(c.next() + xs.len()) as int],
{
    let after = private_sum_circuit(c, xs, expected);
    let n = xs.len();
    let total = running_total(c.next(), n);
    let rows = sum_rows(xs, c.next(), n);
    assert forall|i: int| 0 <= i < rows.len() implies row_holds(#[trigger] rows[i], w) by {
        assert(after.rows[c.rows.len() + i] == rows[i]);
    }
    lemma_running_totals(xs, c.next(), w, n);
    assert(assigned(xs, w).take(n as int) =~= assigned(xs, w));
    assert(after.rows[(c.rows.len() + n) as int] == equality_row(total, c.next() + n));
    assert(row_holds(after.rows[(c.rows.len() + n) as int], w));
    lemma_equality_row(total, c.next() + n, w);
}

/// The witnesses that the sum gadget with a private target allocates for
/// bound variables satisfy its rows exactly when the values of the variables
/// add up to the target.
pub proof fn lemma_private_sum_circuit_holds(c: Circuit, xs: Seq<Binding>, expected: nat)
    requires
        forall|i: int| 0 <= i < xs.len() ==> c.binds(#[trigger] xs[i]),
        c.has_zero(),
        expected < modulus(),
    ensures
        private_sum_circuit(c, xs, expected).satisfied_from(c.rows.len()) == (field_sum(
            binding_values(xs),
        ) == expected),
{
    let after = private_sum_circuit(c, xs, expected);
    let w = after.values();
    let n = xs.len();
    let total = running_total(c.next(), n);
    let rows = sum_rows(xs, c.next(), n);
    let last = equality_row(total, c.next() + n);
    let witnesses = sum_witnesses(binding_values(xs), n).push(montgomery(expected));
    assert(after.witnesses.take((c.next() + n) as int) =~= c.witnesses + sum_witnesses(
        binding_values(xs),
        n,
    ));
    lemma_running_totals_hold(c, xs, after);
    lemma_values_are_assignment(after);
    lemma_modulus_is_large();
    // the last row holds exactly when the total is what the new variable holds
    lemma_element_of_montgomery(expected);
    lemma_small_mod(expected, modulus());
    assert(w[(c.next() + n) as int] == expected);
    lemma_equality_row(total, c.next() + n, w);
    lemma_appended_rows(c, witnesses, rows.push(last));
    assert(rows.push(last)[n as int] == last);
    if field_sum(binding_values(xs)) == expected {
        assert forall|i: int| 0 <= i < rows.push(last).len() implies row_holds(
            #[trigger] rows.push(last)[i],
            w,
        ) by {
            if i < n {
                assert(rows.push(last)[i] == rows[i]);
            }
        }
    }
}

/// The masked sum is a field element.
pub proof fn lemma_masked_sum_bound(values: Seq<nat>, bits: Seq<nat>, k: nat)
    ensures
        masked_sum(values, bits, k) < modulus(),
    decreases k,
{
    lemma_modulus_is_large();
    if k > 0 {
        lemma_field_closed(
            masked_sum(values, bits, (k - 1) as nat),
            fmul(values[k - 1], bits[k - 1]),
        );
    }
}

/// Under an assignment under which the rows of the product gadget hold and
/// the zero variable holds zero, the variable of the masked total after `k`
/// positions holds the sum of the first `k` products, and at the last of
/// these positions the two products agree.
pub proof fn lemma_product_totals(
    c: Circuit,
    xs: Seq<Binding>,
    bits: Seq<Binding>,
    x: Binding,
    w: Seq<nat>,
    k: nat,
)
    requires
        is_assignment(w),
        0 < w.len(),
        w[0] == 0,
        xs.len() == bits.len(),
        k <= xs.len(),
        product_circuit(c, xs, bits, x).holds_from(c.rows.len(), w),
    ensures
        masked_total(c.next(), k) < w.len(),
        w[masked_total(c.next(), k) as int] == masked_sum(assigned(xs, w), assigned(bits, w), k),
        k > 0 ==> x.index < w.len() && fmul(
            w[xs[k - 1].index as int],
            w[bits[k - 1].index as int],
        ) == fmul(w[x.index as int], w[bits[k - 1].index as int]),
    decreases k,
{
    if k > 0 {
        let i = (k - 1) as int;
        let n = xs.len();
        let after = product_circuit(c, xs, bits, x);
        let steps = product_steps_circuit(c, xs, bits, x, n);
        let first = c.next() + 3 * i;
        let base = c.rows.len() + 4 * i;
        lemma_product_totals(c, xs, bits, x, w, i as nat);
        lemma_product_steps_shape(c, xs, bits, x, n);
        assert(has_product_step(steps, c, xs, bits, x, i));
        assert(after.rows[base] == steps.rows[base]);
        assert(after.rows[base + 1] == steps.rows[base + 1]);
        assert(after.rows[base + 2] == steps.rows[base + 2]);
        assert(after.rows[base + 3] == steps.rows[base + 3]);
        assert(row_holds(after.rows[base], w));
        assert(row_holds(after.rows[base + 1], w));
        assert(row_holds(after.rows[base + 2], w));
        assert(row_holds(after.rows[base + 3], w));
        lemma_product_row(xs[i].index, bits[i].index, first as nat, w);
        lemma_product_row(x.index, bits[i].index, (first + 1) as nat, w);
        lemma_equality_row(first as nat, (first + 1) as nat, w);
        lemma_addition_row(masked_total(c.next(), i as nat), first as nat, (first + 2) as nat, w);
    }
}

/// Under every assignment under which the rows of the product gadget hold
/// and the zero variable holds zero, at each position what the element's
/// variable holds times what the bit's variable holds is what the variable
/// of the value holds times the bit, and these products add up to what the
/// variable of the value holds.
pub proof fn lemma_product_rows_sound(
    c: Circuit,
    xs: Seq<Binding>,
    bits: Seq<Binding>,
    x: Binding,
    w: Seq<nat>,
)
    requires
        is_assignment(w),
        0 < w.len(),
        w[0] == 0,
        xs.len() == bits.len(),
        product_circuit(c, xs, bits, x).holds_from(c.rows.len(), w),
    ensures
        x.index < w.len(),
        masks_agree(assigned(xs, w), assigned(bits, w), w[x.index as int]),
        masked_sum(assigned(xs, w), assigned(bits, w), xs.len()) == w[x.index as int],
{
    let n = xs.len();
    let after = product_circuit(c, xs, bits, x);
    let total = masked_total(c.next(), n);
    lemma_product_steps_shape(c, xs, bits, x, n);
    assert(after.rows[(c.rows.len() + 4 * n) as int] == equality_row(total, x.index));
    assert(row_holds(after.rows[(c.rows.len() + 4 * n) as int], w));
    lemma_product_totals(c, xs, bits, x, w, n);
    lemma_equality_row(total, x.index, w);
    assert forall|i: int| 0 <= i < n implies fmul(
        #[trigger] assigned(xs, w)[i],
        assigned(bits, w)[i],
    ) == fmul(w[x.index as int], assigned(bits, w)[i]) by {
        lemma_product_totals(c, xs, bits, x, w, (i + 1) as nat);
    }
}

/// The witnesses that the product gadget allocates for bound variables
/// satisfy its rows exactly when at each position the element times its bit
/// is the value times the bit, and the elements times their bits add up to
/// the value.
pub proof fn lemma_product_circuit_holds(
    c: Circuit,
    xs: Seq<Binding>,
    bits: Seq<Binding>,
    x: Binding,
)
    requires
        xs.len() == bits.len(),
        forall|i: int| 0 <= i < xs.len() ==> c.binds(#[trigger] xs[i]),
        forall|i: int| 0 <= i < bits.len() ==> c.binds(#[trigger] bits[i]),
        c.binds(x),
        c.witnesses[0] == 0,
    ensures
        product_circuit(c, xs, bits, x).satisfied_from(c.rows.len()) == (masks_agree(
            binding_values(xs),
            binding_values(bits),
            x.value,
        ) && masked_sum(binding_values(xs), binding_values(bits), xs.len()) == x.value),
{
    let n = xs.len();
    let steps = product_steps_circuit(c, xs, bits, x, n);
    let after = product_circuit(c, xs, bits, x);
    let w = after.values();
    let values = binding_values(xs);
    let masks = binding_values(bits);
    let first = c.next();
    let base = c.rows.len();
    lemma_product_steps_shape(c, xs, bits, x, n);
    lemma_values_are_assignment(after);
    lemma_modulus_is_large();
    lemma_constants();
    assert(w[x.index as int] == x.value) by {
        lemma_element_of_montgomery(x.value);
        lemma_small_mod(x.value, modulus());
    }
    assert forall|i: int| 0 <= i < n implies w[#[trigger] xs[i].index as int] == values[i]
        && w[bits[i].index as int] == masks[i] by {
        assert(c.binds(xs[i]));
        assert(c.binds(bits[i]));
        lemma_element_of_montgomery(xs[i].value);
        lemma_small_mod(xs[i].value, modulus());
        lemma_element_of_montgomery(bits[i].value);
        lemma_small_mod(bits[i].value, modulus());
    }
    // what the variables of each step hold
    assert forall|i: int| 0 <= i < n implies {
        &&& #[trigger] w[first + 3 * i] == fmul(values[i], masks[i])
        &&& w[first + 3 * i + 1] == fmul(x.value, masks[i])
        &&& w[first + 3 * i + 2] == masked_sum(values, masks, (i + 1) as nat)
    } by {
        assert(has_product_step(steps, c, xs, bits, x, i));
        assert(after.witnesses[first + 3 * i] == steps.witnesses[first + 3 * i]);
        assert(after.witnesses[first + 3 * i + 1] == steps.witnesses[first + 3 * i + 1]);
        assert(after.witnesses[first + 3 * i + 2] == steps.witnesses[first + 3 * i + 2]);
        lemma_field_closed(values[i], masks[i]);
        lemma_field_closed(x.value, masks[i]);
        lemma_masked_sum_bound(values, masks, (i + 1) as nat);
        lemma_element_of_montgomery(fmul(values[i], masks[i]));
        lemma_element_of_montgomery(fmul(x.value, masks[i]));
        lemma_element_of_montgomery(masked_sum(values, masks, (i + 1) as nat));
        lemma_small_mod(fmul(values[i], masks[i]), modulus());
        lemma_small_mod(fmul(x.value, masks[i]), modulus());
        lemma_small_mod(masked_sum(values, masks, (i + 1) as nat), modulus());
    }
    assert forall|k: nat| k <= n implies w[masked_total(first, k) as int] == #[trigger] masked_sum(
        values,
        masks,
        k,
    ) by {
        if k > 0 {
            assert(w[first + 3 * (k - 1)] == fmul(values[k - 1], masks[k - 1]));
        }
    }
    // the rows of each step: three hold, and the third asks the products to agree
    assert forall|i: int| 0 <= i < n implies {
        &&& row_holds(#[trigger] after.rows[base + 4 * i], w)
        &&& row_holds(after.rows[base + 4 * i + 1], w)
        &&& row_holds(after.rows[base + 4 * i + 2], w) == (fmul(values[i], masks[i]) == fmul(
            x.value,
            masks[i],
        ))
        &&& row_holds(after.rows[base + 4 * i + 3], w)
    } by {
        assert(has_product_step(steps, c, xs, bits, x, i));
        assert(after.rows[base + 4 * i] == steps.rows[base + 4 * i]);
        assert(after.rows[base + 4 * i + 1] == steps.rows[base + 4 * i + 1]);
        assert(after.rows[base + 4 * i + 2] == steps.rows[base + 4 * i + 2]);
        assert(after.rows[base + 4 * i + 3] == steps.rows[base + 4 * i + 3]);
        assert(c.binds(xs[i]));
        assert(c.binds(bits[i]));
        assert(w[first + 3 * i] == fmul(values[i], masks[i]));
        lemma_product_row(xs[i].index, bits[i].index, (first + 3 * i) as nat, w);
        lemma_product_row(x.index, bits[i].index, (first + 3 * i + 1) as nat, w);
        lemma_equality_row((first + 3 * i) as nat, (first + 3 * i + 1) as nat, w);
        lemma_addition_row(
            masked_total(first, i as nat),
            (first + 3 * i) as nat,
            (first + 3 * i + 2) as nat,
            w,
        );
        assert(w[masked_total(first, i as nat) as int] == masked_sum(values, masks, i as nat));
    }
    // the last row asks the masked total to be the value
    let total = masked_total(first, n);
    assert(after.rows[(base + 4 * n) as int] == equality_row(total, x.index));
    assert(w[total as int] == masked_sum(values, masks, n));
    lemma_equality_row(total, x.index, w);
    if masks_agree(values, masks, x.value) && masked_sum(values, masks, n) == x.value {
        assert forall|j: int| base <= j < after.rows.len() implies row_holds(
            #[trigger] after.rows[j],
            w,
        ) by {
            if j < base + 4 * n {
                let i = (j - base) / 4;
                assert(row_holds(after.rows[base + 4 * i], w));
                assert(fmul(values[i], masks[i]) == fmul(x.value, masks[i]));
            }
        }
    } else if !masks_agree(values, masks, x.value) {
        let i = choose|i: int|
            0 <= i < values.len() && fmul(values[i], masks[i]) != fmul(x.value, masks[i]);
        assert(row_holds(after.rows[base + 4 * i], w));
        assert(!row_holds(after.rows[base + 4 * i + 2], w));
    } else {
        assert(!row_holds(after.rows[(base + 4 * n) as int], w));
    }
}

/// The indicator of `v` adds up to the number of times that `v` occurs, and
/// the elements times their indicator bits add up to `v` times that number,
/// both in the field.
pub proof fn lemma_indicator_sums(set: Seq<nat>, v: nat, k: nat)
    requires
        k <= set.len(),
        v < modulus(),
    ensures
        occurrences(set.take(k as int), v) <= k,
        field_sum(indicator(set, v).take(k as int)) == occurrences(set.take(k as int), v)
            % modulus(),
        masked_sum(set, indicator(set, v), k) == (v * occurrences(set.take(k as int), v))
            % modulus(),
    decreases k,
{
    let r = modulus() as int;
    let bits = indicator(set, v);
    lemma_modulus_is_large();
    if k == 0 {
        assert(bits.take(0) =~= Seq::<nat>::empty());
        assert(set.take(0) =~= Seq::<nat>::empty());
        assert(v * 0 == 0) by (nonlinear_arith);
        lemma_small_mod(0, modulus());
    } else {
        let j = (k - 1) as nat;
        lemma_indicator_sums(set, v, j);
        lemma_field_sum_step(bits, j);
        assert(set.take(k as int).drop_last() =~= set.take(j as int));
        let before = occurrences(set.take(j as int), v);
        let bit = bits[j as int];
        assert(occurrences(set.take(k as int), v) == before + bit);
        // the sum of the bits
        lemma_add_mod_noop(before as int, bit as int, r);
        lemma_small_mod(bit, modulus());
        // the sum of the masked elements
        assert(set[j as int] * bit == v * bit) by (nonlinear_arith)
            requires
                bit == 1 ==> set[j as int] == v,
                bit != 1 ==> bit == 0,
        ;
        assert(v * (before + bit) == v * before + v * bit) by (nonlinear_arith);
        lemma_add_mod_noop((v * before) as int, (v * bit) as int, r);
    }
}

/// Where a set has fewer elements than the field, its indicator of `v` adds
/// up to one exactly when `v` occurs in it exactly once, and then the
/// elements times their indicator bits add up to `v`.
pub proof fn lemma_indicator_of_one(set: Seq<nat>, v: nat)
    requires
        set.len() < modulus(),
        v < modulus(),
    ensures
        (field_sum(indicator(set, v)) == 1) == (occurrences(set, v) == 1),
        occurrences(set, v) == 1 ==> masked_sum(set, indicator(set, v), set.len()) == v,
        masks_agree(set, indicator(set, v), v),
{
    let bits = indicator(set, v);
    lemma_modulus_is_large();
    lemma_indicator_sums(set, v, set.len());
    assert(bits.take(set.len() as int) =~= bits);
    assert(set.take(set.len() as int) =~= set);
    lemma_small_mod(occurrences(set, v), modulus());
    if occurrences(set, v) == 1 {
        assert(v * 1 == v) by (nonlinear_arith);
        lemma_small_mod(v, modulus());
    }
}

/// Under every assignment under which the rows hold that allocate and
/// constrain `k` indicator bits, the variable of each bit holds a value that
/// passes the bit gadget's test.
pub proof fn lemma_indicator_rows_sound(c: Circuit, bits: Seq<nat>, k: nat, w: Seq<nat>)
    requires
        is_assignment(w),
        k <= bits.len(),
        indicator_circuit(c, bits, k).holds_from(c.rows.len(), w),
    ensures
        forall|i: int|
            0 <= i < k ==> c.next() + 3 * i < w.len() && passes_bit_test(
                #[trigger] w[c.next() + 3 * i],
            ),
    decreases k,
{
    if k > 0 {
        let before = indicator_circuit(c, bits, (k - 1) as nat);
        let after = indicator_circuit(c, bits, k);
        let block = bit_rows(before.next(), before.next() + 1);
        lemma_indicator_shape(c, bits, (k - 1) as nat);
        assert forall|j: int| c.rows.len() <= j < before.rows.len() implies row_holds(
            #[trigger] before.rows[j],
            w,
        ) by {
            assert(after.rows[j] == before.rows[j]);
        }
        lemma_indicator_rows_sound(c, bits, (k - 1) as nat, w);
        assert forall|t: int| 0 <= t < block.len() implies row_holds(#[trigger] block[t], w) by {
            assert(after.rows[before.rows.len() + t] == block[t]);
        }
        lemma_bit_rows_sound(before.next(), before.next() + 1, w);
    }
}

/// Under every assignment under which the rows of the membership gadget on a
/// public set hold and the zero variable holds zero, the variables of the
/// set hold its elements, the variable of each bit holds a value that passes
/// the bit gadget's test, and what the variables of the bits hold adds up to
/// one.
pub proof fn lemma_membership_rows_sound(c: Circuit, set: Seq<nat>, v: nat, w: Seq<nat>)
    requires
        is_assignment(w),
        0 < w.len(),
        w[0] == 0,
        forall|i: int| 0 <= i < set.len() ==> set[i] < modulus(),
        membership_circuit(c, set, v).holds_from(c.rows.len(), w),
    ensures
        forall|i: int| 0 <= i < set.len() ==> #[trigger] w[c.next() + i] == set[i],
        forall|i: int|
            0 <= i < set.len() ==> passes_bit_test(#[trigger] w[c.next() + set.len() + 3 * i]),
        field_sum(assigned(indicator_bindings(c.next() + set.len(), indicator(set, v)), w)) == 1,
{
    let n = set.len();
    let bits = indicator(set, v);
    let fixed = fixed_set_circuit(c, set, n);
    let marked = indicator_circuit(fixed, bits, n);
    let after = membership_circuit(c, set, v);
    lemma_fixed_set_shape(c, set, n);
    lemma_indicator_shape(fixed, bits, n);
    lemma_modulus_is_large();
    assert(after.extends(marked));
    // the elements
    assert forall|i: int| 0 <= i < n implies #[trigger] w[c.next() + i] == set[i] by {
        assert(fixed.rows[c.rows.len() + i] == constant_row((c.next() + i) as nat, set[i], None));
        assert(marked.rows[c.rows.len() + i] == fixed.rows[c.rows.len() + i]);
        assert(after.rows[c.rows.len() + i] == marked.rows[c.rows.len() + i]);
        assert(row_holds(after.rows[c.rows.len() + i], w));
        lemma_constant_row((c.next() + i) as nat, set[i], None, w);
        lemma_small_mod(w[c.next() + i], modulus());
    }
    // the bits
    assert forall|j: int| fixed.rows.len() <= j < marked.rows.len() implies row_holds(
        #[trigger] marked.rows[j],
        w,
    ) by {
        assert(after.rows[j] == marked.rows[j]);
    }
    lemma_indicator_rows_sound(fixed, bits, n, w);
    // their sum
    lemma_sum_rows_sound(marked, indicator_bindings(fixed.next(), bits), 1, w);
}

/// Under every assignment under which the rows of the membership gadget on a
/// private set hold and the zero variable holds zero, the variable of each
/// bit holds a value that passes the bit gadget's test, what the variables
/// of the bits hold adds up to one, at each position the element times its
/// bit is the value times the bit, and the elements times their bits add up
/// to the value.
pub proof fn lemma_private_membership_rows_sound(
    c: Circuit,
    xs: Seq<Binding>,
    x: Binding,
    w: Seq<nat>,
)
    requires
        is_assignment(w),
        0 < w.len(),
        w[0] == 0,
        private_membership_circuit(c, xs, x).holds_from(c.rows.len(), w),
    ensures
        x.index < w.len(),
        forall|i: int| 0 <= i < xs.len() ==> passes_bit_test(#[trigger] w[c.next() + 3 * i]),
        field_sum(
            assigned(indicator_bindings(c.next(), indicator(binding_values(xs), x.value)), w),
        ) == 1,
        masks_agree(
            assigned(xs, w),
            assigned(indicator_bindings(c.next(), indicator(binding_values(xs), x.value)), w),
            w[x.index as int],
        ),
        masked_sum(
            assigned(xs, w),
            assigned(indicator_bindings(c.next(), indicator(binding_values(xs), x.value)), w),
            xs.len(),
        ) == w[x.index as int],
{
    let n = xs.len();
    let bits = indicator(binding_values(xs), x.value);
    let marks = indicator_bindings(c.next(), bits);
    let marked = indicator_circuit(c, bits, n);
    let added = sum_circuit(marked, marks, 1);
    let after = private_membership_circuit(c, xs, x);
    lemma_indicator_shape(c, bits, n);
    lemma_product_steps_shape(added, xs, marks, x, n);
    lemma_modulus_is_large();
    assert(after.extends(added));
    assert(added.extends(marked));
    // the bits
    assert forall|j: int| c.rows.len() <= j < marked.rows.len() implies row_holds(
        #[trigger] marked.rows[j],
        w,
    ) by {
        assert(added.rows[j] == marked.rows[j]);
        assert(after.rows[j] == added.rows[j]);
    }
    lemma_indicator_rows_sound(c, bits, n, w);
    // their sum
    assert forall|j: int| marked.rows.len() <= j < added.rows.len() implies row_holds(
        #[trigger] added.rows[j],
        w,
    ) by {
        assert(after.rows[j] == added.rows[j]);
    }
    lemma_sum_rows_sound(marked, marks, 1, w);
    // the products
    lemma_product_rows_sound(added, xs, marks, x, w);
}

} // verus!
