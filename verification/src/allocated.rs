//! A field element bound to its variable in a composer.

use crate::circuit::{Binding, binding_values, Circuit, circuit_of};
use crate::field::{
    in_field, lemma_element_of_montgomery, lemma_residue_of_value, scalar_residue, scalar_value,
};
use dusk_plonk::prelude::{BlsScalar, StandardComposer, Variable};
use vstd::prelude::*;

verus! {

/// A scalar together with the variable that was allocated for it.
#[derive(Clone, Copy, Debug)]
pub struct AllocatedScalar {
    /// The variable in the composer.
    pub var: Variable,
    /// The scalar that the variable holds.
    pub scalar: BlsScalar,
}

impl AllocatedScalar {
    /// The position of the variable among the witnesses.
    pub open spec fn index(self) -> nat {
        crate::circuit::variable_index(self.var)
    }

    /// The field element that the scalar stands for.
    pub open spec fn value(self) -> nat {
        scalar_value(self.scalar)
    }

    /// The pair of the variable's index and the field element.
    pub open spec fn binding(self) -> Binding {
        Binding { index: self.index(), value: self.value() }
    }

    /// Whether the pair is bound in the composer: the scalar is reduced, and
    /// the variable is one of the composer's and holds that scalar.
    pub open spec fn bound_in(self, c: StandardComposer) -> bool {
        in_field(self.scalar) && circuit_of(c).binds(self.binding())
    }

    /// Allocates a new variable that holds `scalar`.
    pub fn allocate(composer: &mut StandardComposer, scalar: BlsScalar) -> (r: AllocatedScalar)
        ensures
            r.scalar == scalar,
            r.index() == circuit_of(*old(composer)).next(),
            circuit_of(*final(composer)) == circuit_of(*old(composer)).extended(
                seq![scalar_residue(scalar)],
                seq![],
            ),
            in_field(scalar) ==> r.bound_in(*final(composer)),
            circuit_of(*final(composer)).extends(circuit_of(*old(composer))),
    {
        let var = composer.add_input(scalar);
        proof {
            let before = circuit_of(*old(composer));
            let after = before.extended(seq![scalar_residue(scalar)], seq![]);
            assert(circuit_of(*composer).witnesses =~= after.witnesses);
            assert(circuit_of(*composer).rows =~= after.rows);
            if in_field(scalar) {
                lemma_residue_of_value(scalar);
            }
        }
        AllocatedScalar { var, scalar }
    }
}

/// The bindings of a sequence of allocated scalars.
pub open spec fn bindings_of(s: Seq<AllocatedScalar>) -> Seq<Binding> {
    Seq::new(s.len(), |i: int| s[i].binding())
}

/// The field elements of a sequence of allocated scalars.
pub open spec fn allocated_values(s: Seq<AllocatedScalar>) -> Seq<nat> {
    binding_values(bindings_of(s))
}

/// Whether every allocated scalar of a sequence is bound in the composer.
pub open spec fn all_bound_in(s: Seq<AllocatedScalar>, c: StandardComposer) -> bool {
    forall|i: int| 0 <= i < s.len() ==> (#[trigger] s[i]).bound_in(c)
}

/// A binding stays bound when the circuit grows, and a bound variable holds
/// a reduced scalar that stands for the binding's value.
pub proof fn lemma_bound_extends(earlier: Circuit, later: Circuit, b: Binding)
    requires
        earlier.binds(b),
        later.extends(earlier),
    ensures
        later.binds(b),
        later.witnesses[b.index as int] < crate::field::modulus(),
        later.value(b.index) == b.value,
{
    lemma_element_of_montgomery(b.value);
    vstd::arithmetic::div_mod::lemma_small_mod(b.value, crate::field::modulus());
}

/// Allocated scalars stay bound when the composer's circuit grows.
pub proof fn lemma_all_bound_extends(
    s: Seq<AllocatedScalar>,
    earlier: StandardComposer,
    later: StandardComposer,
)
    requires
        all_bound_in(s, earlier),
        circuit_of(later).extends(circuit_of(earlier)),
    ensures
        all_bound_in(s, later),
{
    assert forall|i: int| 0 <= i < s.len() implies (#[trigger] s[i]).bound_in(later) by {
        lemma_bound_extends(circuit_of(earlier), circuit_of(later), s[i].binding());
    }
}

} // verus!
