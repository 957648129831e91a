use dusk_plonk::prelude::{
    BlsScalar, CommitKey, OpeningKey, Proof, Prover, PublicParameters, StandardComposer, Verifier,
};
use plonk_gadgets::bit::bit_gadget;
use plonk_gadgets::field::{difference_with_inverse, is_reduced};
use plonk_gadgets::set::{
    inequality_gadget, private_set_membership_gadget, private_vector_non_membership_gadget,
    private_vector_sum_gadget, set_membership_gadget, set_uniqueness_gadget,
    vector_non_membership_gadget, vector_product_gadget, vector_sum_gadget,
};
use plonk_gadgets::{AllocatedScalar, Error as GadgetError};

fn keys() -> (CommitKey, OpeningKey) {
    let pub_params = PublicParameters::setup(1 << 8, &mut rand::thread_rng()).unwrap();
    pub_params.trim(1 << 7).unwrap()
}

fn scalars(values: &[u64]) -> Vec<BlsScalar> {
    values.iter().map(|x| BlsScalar::from(*x)).collect()
}

fn allocate_all(composer: &mut StandardComposer, values: &[u64]) -> Vec<AllocatedScalar> {
    values
        .iter()
        .map(|x| AllocatedScalar::allocate(composer, BlsScalar::from(*x)))
        .collect()
}

// Proves the prover's circuit and returns the proof with the public inputs.
fn prove(prover: &mut Prover, ck: &CommitKey) -> (Proof, Vec<BlsScalar>) {
    let pi = prover.mut_cs().construct_dense_pi_vec();
    prover.preprocess(ck).unwrap();
    (prover.prove(ck).unwrap(), pi)
}

// Whether the verifier's circuit accepts the proof.
fn accepts(
    verifier: &mut Verifier,
    ck: &CommitKey,
    vk: &OpeningKey,
    proof: &Proof,
    pi: &Vec<BlsScalar>,
) -> bool {
    verifier.preprocess(ck).unwrap();
    verifier.verify(proof, vk, pi).is_ok()
}

fn uniqueness_circuit(composer: &mut StandardComposer, values: &[u64]) -> Result<(), GadgetError> {
    let vector = allocate_all(composer, values);
    set_uniqueness_gadget(composer, &vector)
}

fn sum_circuit(composer: &mut StandardComposer, values: &[u64], sum: u64) -> Result<(), GadgetError> {
    let vector = allocate_all(composer, values);
    vector_sum_gadget(composer, &vector, sum)
}

fn private_sum_circuit(
    composer: &mut StandardComposer,
    values: &[u64],
    sum: u64,
) -> Result<(), GadgetError> {
    let vector = allocate_all(composer, values);
    private_vector_sum_gadget(composer, &vector, BlsScalar::from(sum))
}

fn product_circuit(
    composer: &mut StandardComposer,
    values: &[u64],
    bits: &[u64],
    value: u64,
) -> Result<(), GadgetError> {
    let vector = allocate_all(composer, values);
    let bits_vector = allocate_all(composer, bits);
    let value = AllocatedScalar::allocate(composer, BlsScalar::from(value));
    vector_product_gadget(composer, &vector, &bits_vector, value)
}

fn private_membership_circuit(
    composer: &mut StandardComposer,
    values: &[u64],
    value: u64,
) -> Result<(), GadgetError> {
    let vector = allocate_all(composer, values);
    let value = AllocatedScalar::allocate(composer, BlsScalar::from(value));
    private_set_membership_gadget(composer, &vector, value)
}

fn private_non_membership_circuit(
    composer: &mut StandardComposer,
    values: &[u64],
    value: u64,
) -> Result<(), GadgetError> {
    let vector = allocate_all(composer, values);
    let value = AllocatedScalar::allocate(composer, BlsScalar::from(value));
    private_vector_non_membership_gadget(composer, &vector, value)
}

fn non_membership_circuit(
    composer: &mut StandardComposer,
    values: &[u64],
    value: u64,
) -> Result<(), GadgetError> {
    let value = AllocatedScalar::allocate(composer, BlsScalar::from(value));
    vector_non_membership_gadget(composer, &scalars(values), value)
}

fn inequality_circuit(composer: &mut StandardComposer, a: u64, b: u64) -> Result<(), GadgetError> {
    let a = AllocatedScalar::allocate(composer, BlsScalar::from(a));
    let b = AllocatedScalar::allocate(composer, BlsScalar::from(b));
    inequality_gadget(composer, a, b)
}

#[test]
fn allocate_keeps_the_scalar_and_takes_a_new_variable() {
    let mut composer = StandardComposer::new();
    let size = composer.circuit_size();
    let a = AllocatedScalar::allocate(&mut composer, BlsScalar::from(7));
    let b = AllocatedScalar::allocate(&mut composer, BlsScalar::from(7));
    assert_eq!(a.scalar, BlsScalar::from(7));
    assert_eq!(b.scalar, BlsScalar::from(7));
    assert_ne!(a.var, b.var);
    assert_ne!(a.var, composer.zero_var());
    // no row is appended
    assert_eq!(composer.circuit_size(), size);
}

#[test]
fn difference_with_inverse_gives_the_difference_and_its_inverse() {
    let (diff, inv) = difference_with_inverse(&BlsScalar::from(7), &BlsScalar::from(3)).unwrap();
    assert_eq!(diff, BlsScalar::from(4));
    assert_eq!(diff * inv, BlsScalar::one());
    assert_eq!(inv, BlsScalar::from(4).invert().unwrap());

    // the difference is taken in the field
    let (diff, inv) = difference_with_inverse(&BlsScalar::from(3), &BlsScalar::from(7)).unwrap();
    assert_eq!(diff, -BlsScalar::from(4));
    assert_eq!(diff * inv, BlsScalar::one());
}

#[test]
fn difference_with_inverse_fails_on_equal_elements() {
    assert_eq!(
        difference_with_inverse(&BlsScalar::from(3), &BlsScalar::from(3)),
        Err(GadgetError::NonExistingInverse)
    );
    assert_eq!(
        difference_with_inverse(&BlsScalar::zero(), &BlsScalar::zero()),
        Err(GadgetError::NonExistingInverse)
    );
}

#[test]
fn bit_gadget_is_built_for_every_value_and_appends_three_rows() {
    for value in [0u64, 1, 2, 7, u64::MAX] {
        let mut composer = StandardComposer::new();
        let x = AllocatedScalar::allocate(&mut composer, BlsScalar::from(value));
        let size = composer.circuit_size();
        assert_eq!(bit_gadget(&mut composer, x), Ok(()));
        assert_eq!(composer.circuit_size(), size + 3);
    }
}

#[test]
fn inequality_gadget_appends_four_rows_or_nothing() {
    let mut composer = StandardComposer::new();
    let a = AllocatedScalar::allocate(&mut composer, BlsScalar::from(3));
    let b = AllocatedScalar::allocate(&mut composer, BlsScalar::from(4));
    let c = AllocatedScalar::allocate(&mut composer, BlsScalar::from(3));
    let size = composer.circuit_size();

    assert_eq!(inequality_gadget(&mut composer, a, b), Ok(()));
    assert_eq!(composer.circuit_size(), size + 4);

    // equal elements: the error, no row and no variable
    assert_eq!(
        inequality_gadget(&mut composer, a, c),
        Err(GadgetError::NonExistingInverse)
    );
    assert_eq!(composer.circuit_size(), size + 4);
    let next = AllocatedScalar::allocate(&mut composer, BlsScalar::from(9));

    let mut other = StandardComposer::new();
    let a = AllocatedScalar::allocate(&mut other, BlsScalar::from(3));
    let b = AllocatedScalar::allocate(&mut other, BlsScalar::from(4));
    AllocatedScalar::allocate(&mut other, BlsScalar::from(3));
    assert_eq!(inequality_gadget(&mut other, a, b), Ok(()));
    let expected = AllocatedScalar::allocate(&mut other, BlsScalar::from(9));
    assert_eq!(next.var, expected.var);
}

#[test]
fn inequality_gadget_verifies_for_different_elements() {
    let (ck, vk) = keys();
    let mut prover = Prover::new(b"inequality");
    assert_eq!(inequality_circuit(prover.mut_cs(), 3, 4), Ok(()));
    let (proof, pi) = prove(&mut prover, &ck);

    // the verifier does not know the elements
    let mut verifier = Verifier::new(b"inequality");
    assert_eq!(inequality_circuit(verifier.mut_cs(), 0, 1), Ok(()));
    assert!(accepts(&mut verifier, &ck, &vk, &proof, &pi));
}

#[test]
fn uniqueness_of_three_distinct_elements_verifies() {
    let (ck, vk) = keys();
    let mut prover = Prover::new(b"uniqueness");
    assert_eq!(uniqueness_circuit(prover.mut_cs(), &[5, 3, 9]), Ok(()));
    // one inequality, four rows, for each of the three pairs
    let mut plain = StandardComposer::new();
    allocate_all(&mut plain, &[5, 3, 9]);
    assert_eq!(prover.mut_cs().circuit_size(), plain.circuit_size() + 12);
    let (proof, pi) = prove(&mut prover, &ck);

    let mut verifier = Verifier::new(b"uniqueness");
    assert_eq!(uniqueness_circuit(verifier.mut_cs(), &[0, 1, 2]), Ok(()));
    assert!(accepts(&mut verifier, &ck, &vk, &proof, &pi));
}

#[test]
fn uniqueness_fails_for_every_repeated_pair() {
    for values in [[4u64, 4, 7], [4, 7, 4], [7, 4, 4], [4, 4, 4]] {
        let mut composer = StandardComposer::new();
        assert_eq!(
            uniqueness_circuit(&mut composer, &values),
            Err(GadgetError::NonExistingInverse)
        );
    }
    let mut composer = StandardComposer::new();
    assert_eq!(
        uniqueness_circuit(&mut composer, &[1, 2, 3, 4, 5, 3]),
        Err(GadgetError::NonExistingInverse)
    );
    let mut composer = StandardComposer::new();
    assert_eq!(uniqueness_circuit(&mut composer, &[1, 2]), Ok(()));
}

#[test]
fn uniqueness_stops_at_the_first_repeated_pair() {
    // pairs in order: (0,1) (0,2) (0,3) (1,2) (1,3) (2,3); (1,3) is the first repeated one
    let mut composer = StandardComposer::new();
    let vector = allocate_all(&mut composer, &[1, 2, 3, 2]);
    let size = composer.circuit_size();
    assert_eq!(
        set_uniqueness_gadget(&mut composer, &vector),
        Err(GadgetError::NonExistingInverse)
    );
    assert_eq!(composer.circuit_size(), size + 4 * 4);
}

#[test]
fn non_membership_scenario() {
    let (ck, vk) = keys();

    // 5 is not in {3, 4}: built, and verified against the same set
    let mut prover = Prover::new(b"non-membership");
    assert_eq!(non_membership_circuit(prover.mut_cs(), &[3, 4], 5), Ok(()));
    let (proof, pi) = prove(&mut prover, &ck);
    let mut verifier = Verifier::new(b"non-membership");
    assert_eq!(non_membership_circuit(verifier.mut_cs(), &[3, 4], 0), Ok(()));
    assert!(accepts(&mut verifier, &ck, &vk, &proof, &pi));

    // against another set the proof fails
    let mut verifier = Verifier::new(b"non-membership");
    assert_eq!(non_membership_circuit(verifier.mut_cs(), &[5, 6], 0), Ok(()));
    assert!(!accepts(&mut verifier, &ck, &vk, &proof, &pi));

    // 3 is in {3, 4}: not built
    let mut prover = Prover::new(b"non-membership");
    assert_eq!(
        non_membership_circuit(prover.mut_cs(), &[3, 4], 3),
        Err(GadgetError::NonExistingInverse)
    );
}

#[test]
fn non_membership_appends_five_rows_for_each_element() {
    let mut composer = StandardComposer::new();
    let value = AllocatedScalar::allocate(&mut composer, BlsScalar::from(9));
    let size = composer.circuit_size();
    assert_eq!(
        vector_non_membership_gadget(&mut composer, &scalars(&[1, 2, 3]), value),
        Ok(())
    );
    assert_eq!(composer.circuit_size(), size + 15);

    // an empty set holds nothing
    let size = composer.circuit_size();
    assert_eq!(
        vector_non_membership_gadget(&mut composer, &scalars(&[]), value),
        Ok(())
    );
    assert_eq!(composer.circuit_size(), size);

    // it stops at the first element that is the value, after fixing it
    let size = composer.circuit_size();
    assert_eq!(
        vector_non_membership_gadget(&mut composer, &scalars(&[1, 2, 9, 4, 9]), value),
        Err(GadgetError::NonExistingInverse)
    );
    assert_eq!(composer.circuit_size(), size + 2 * 5 + 1);
}

#[test]
fn private_non_membership_is_built_exactly_for_absent_values() {
    let (ck, vk) = keys();
    let mut prover = Prover::new(b"private non-membership");
    let before = {
        let mut plain = StandardComposer::new();
        allocate_all(&mut plain, &[3, 4, 0]);
        plain.circuit_size()
    };
    assert_eq!(private_non_membership_circuit(prover.mut_cs(), &[3, 4], 5), Ok(()));
    // four rows for each element, and no constant
    assert_eq!(prover.mut_cs().circuit_size(), before + 8);
    let (proof, pi) = prove(&mut prover, &ck);

    // the verifier knows neither the set nor the value
    let mut verifier = Verifier::new(b"private non-membership");
    assert_eq!(private_non_membership_circuit(verifier.mut_cs(), &[1, 2], 0), Ok(()));
    assert!(accepts(&mut verifier, &ck, &vk, &proof, &pi));

    let mut composer = StandardComposer::new();
    assert_eq!(
        private_non_membership_circuit(&mut composer, &[3, 4], 4),
        Err(GadgetError::NonExistingInverse)
    );
}

// A bit gadget, so that the circuit is not trivial, and the sum gadget on
// an empty vector.
fn empty_sum_circuit(composer: &mut StandardComposer, sum: u64) -> Result<(), GadgetError> {
    let bit = AllocatedScalar::allocate(composer, BlsScalar::one());
    bit_gadget(composer, bit)?;
    let size = composer.circuit_size();
    let built = vector_sum_gadget(composer, &Vec::new(), sum);
    // one row, on the zero variable
    assert_eq!(composer.circuit_size(), size + 1);
    built
}

#[test]
fn an_empty_vector_adds_up_to_zero() {
    let (ck, vk) = keys();

    let mut prover = Prover::new(b"sum");
    assert_eq!(empty_sum_circuit(prover.mut_cs(), 0), Ok(()));
    let (proof, pi) = prove(&mut prover, &ck);
    let mut verifier = Verifier::new(b"sum");
    assert_eq!(empty_sum_circuit(verifier.mut_cs(), 0), Ok(()));
    assert!(accepts(&mut verifier, &ck, &vk, &proof, &pi));

    // and to nothing else
    let mut prover = Prover::new(b"sum");
    assert_eq!(empty_sum_circuit(prover.mut_cs(), 1), Ok(()));
    let (proof, pi) = prove(&mut prover, &ck);
    let mut verifier = Verifier::new(b"sum");
    assert_eq!(empty_sum_circuit(verifier.mut_cs(), 0), Ok(()));
    assert!(!accepts(&mut verifier, &ck, &vk, &proof, &pi));
}

#[test]
fn sum_gadget_appends_one_row_for_each_element_and_one_more() {
    let mut composer = StandardComposer::new();
    let vector = allocate_all(&mut composer, &[1, 2, 3, 4]);
    let size = composer.circuit_size();
    assert_eq!(vector_sum_gadget(&mut composer, &vector, 10), Ok(()));
    assert_eq!(composer.circuit_size(), size + 5);
    // the expected sum is the only public input, and it enters negated
    let pi = composer.construct_dense_pi_vec();
    assert_eq!(pi[size + 4], -BlsScalar::from(10));
    assert_eq!(pi.iter().filter(|p| **p != BlsScalar::zero()).count(), 1);
}

#[test]
fn sum_with_a_private_target() {
    let (ck, vk) = keys();

    let mut prover = Prover::new(b"private sum");
    assert_eq!(private_sum_circuit(prover.mut_cs(), &[1, 2, 3], 6), Ok(()));
    // the target is no public input
    assert!(prover
        .mut_cs()
        .construct_dense_pi_vec()
        .iter()
        .all(|p| *p == BlsScalar::zero()));
    let (proof, pi) = prove(&mut prover, &ck);
    let mut verifier = Verifier::new(b"private sum");
    assert_eq!(private_sum_circuit(verifier.mut_cs(), &[0, 0, 0], 0), Ok(()));
    assert!(accepts(&mut verifier, &ck, &vk, &proof, &pi));

    let mut prover = Prover::new(b"private sum");
    assert_eq!(private_sum_circuit(prover.mut_cs(), &[1, 2, 3], 7), Ok(()));
    let (proof, pi) = prove(&mut prover, &ck);
    let mut verifier = Verifier::new(b"private sum");
    assert_eq!(private_sum_circuit(verifier.mut_cs(), &[0, 0, 0], 0), Ok(()));
    assert!(!accepts(&mut verifier, &ck, &vk, &proof, &pi));
}

#[test]
fn product_gadget_ties_the_bits_to_the_value() {
    let (ck, vk) = keys();

    // the bit marks the position that holds the value
    let mut prover = Prover::new(b"product");
    assert_eq!(product_circuit(prover.mut_cs(), &[3, 4], &[1, 0], 3), Ok(()));
    let (proof, pi) = prove(&mut prover, &ck);
    let mut verifier = Verifier::new(b"product");
    assert_eq!(product_circuit(verifier.mut_cs(), &[0, 0], &[0, 0], 0), Ok(()));
    assert!(accepts(&mut verifier, &ck, &vk, &proof, &pi));

    // the bit marks a position that holds another element
    let mut prover = Prover::new(b"product");
    assert_eq!(product_circuit(prover.mut_cs(), &[3, 4], &[0, 1], 3), Ok(()));
    let (proof, pi) = prove(&mut prover, &ck);
    let mut verifier = Verifier::new(b"product");
    assert_eq!(product_circuit(verifier.mut_cs(), &[0, 0], &[0, 0], 0), Ok(()));
    assert!(!accepts(&mut verifier, &ck, &vk, &proof, &pi));
}

#[test]
fn product_gadget_appends_four_rows_for_each_position_and_one_more() {
    let mut composer = StandardComposer::new();
    let vector = allocate_all(&mut composer, &[3, 4, 5]);
    let bits = allocate_all(&mut composer, &[0, 1, 0]);
    let value = AllocatedScalar::allocate(&mut composer, BlsScalar::from(4));
    let size = composer.circuit_size();
    assert_eq!(vector_product_gadget(&mut composer, &vector, &bits, value), Ok(()));
    assert_eq!(composer.circuit_size(), size + 13);
}

#[test]
fn membership_in_a_private_set() {
    let (ck, vk) = keys();
    struct Case {
        set: [u64; 2],
        value: u64,
        expected: bool,
    }
    let cases = [
        Case { set: [3, 4], value: 3, expected: true },
        Case { set: [3, 4], value: 5, expected: false },
        Case { set: [3, 3], value: 3, expected: false },
    ];
    for case in cases.iter() {
        let mut prover = Prover::new(b"private membership");
        assert_eq!(private_membership_circuit(prover.mut_cs(), &case.set, case.value), Ok(()));
        let (proof, pi) = prove(&mut prover, &ck);
        let mut verifier = Verifier::new(b"private membership");
        assert_eq!(private_membership_circuit(verifier.mut_cs(), &[0, 0], 0), Ok(()));
        assert_eq!(accepts(&mut verifier, &ck, &vk, &proof, &pi), case.expected);
    }
}

#[test]
fn membership_gadget_appends_five_rows_for_each_element_and_one_more() {
    let mut composer = StandardComposer::new();
    let value = AllocatedScalar::allocate(&mut composer, BlsScalar::from(4));
    let size = composer.circuit_size();
    assert_eq!(set_membership_gadget(&mut composer, &scalars(&[3, 4, 5]), value), Ok(()));
    // for each element one constant and three rows of its bit, then the sum
    assert_eq!(composer.circuit_size(), size + 3 + 9 + 4);
    // the bits are to add up to one, which is public
    let pi = composer.construct_dense_pi_vec();
    assert_eq!(pi[size + 15], -BlsScalar::one());
}

#[test]
fn building_twice_gives_circuits_that_verify_each_other() {
    let (ck, vk) = keys();

    let mut first = Prover::new(b"twice");
    assert_eq!(non_membership_circuit(first.mut_cs(), &[3, 4], 5), Ok(()));
    let first_size = first.mut_cs().circuit_size();
    let (first_proof, first_pi) = prove(&mut first, &ck);

    let mut second = Prover::new(b"twice");
    assert_eq!(non_membership_circuit(second.mut_cs(), &[3, 4], 5), Ok(()));
    assert_eq!(second.mut_cs().circuit_size(), first_size);
    let (second_proof, second_pi) = prove(&mut second, &ck);
    assert_eq!(first_pi, second_pi);

    let mut verifier = Verifier::new(b"twice");
    assert_eq!(non_membership_circuit(verifier.mut_cs(), &[3, 4], 5), Ok(()));
    verifier.preprocess(&ck).unwrap();
    assert!(verifier.verify(&first_proof, &vk, &second_pi).is_ok());
    assert!(verifier.verify(&second_proof, &vk, &first_pi).is_ok());
}

#[test]
fn building_twice_fails_alike() {
    for _ in 0..2 {
        let mut composer = StandardComposer::new();
        assert_eq!(
            non_membership_circuit(&mut composer, &[3, 4], 4),
            Err(GadgetError::NonExistingInverse)
        );
        let mut composer = StandardComposer::new();
        assert_eq!(
            uniqueness_circuit(&mut composer, &[3, 4, 3]),
            Err(GadgetError::NonExistingInverse)
        );
    }
}

#[test]
fn private_membership_appends_eight_rows_for_each_element_and_two_more() {
    let mut composer = StandardComposer::new();
    let vector = allocate_all(&mut composer, &[3, 4, 5]);
    let value = AllocatedScalar::allocate(&mut composer, BlsScalar::from(4));
    let size = composer.circuit_size();
    assert_eq!(private_set_membership_gadget(&mut composer, &vector, value), Ok(()));
    // three rows for each bit, the sum, and the product
    assert_eq!(composer.circuit_size(), size + 9 + 4 + 13);
}

#[test]
fn gadgets_on_empty_vectors_append_their_last_row_alone() {
    let mut composer = StandardComposer::new();
    let value = AllocatedScalar::allocate(&mut composer, BlsScalar::from(4));
    let none: Vec<AllocatedScalar> = Vec::new();

    let size = composer.circuit_size();
    assert_eq!(vector_product_gadget(&mut composer, &none, &none, value), Ok(()));
    assert_eq!(composer.circuit_size(), size + 1);

    let size = composer.circuit_size();
    assert_eq!(set_membership_gadget(&mut composer, &scalars(&[]), value), Ok(()));
    assert_eq!(composer.circuit_size(), size + 1);

    let size = composer.circuit_size();
    assert_eq!(private_set_membership_gadget(&mut composer, &none, value), Ok(()));
    assert_eq!(composer.circuit_size(), size + 2);

    let size = composer.circuit_size();
    assert_eq!(private_vector_non_membership_gadget(&mut composer, &none, value), Ok(()));
    assert_eq!(composer.circuit_size(), size);

    let size = composer.circuit_size();
    assert_eq!(
        private_vector_sum_gadget(&mut composer, &none, BlsScalar::zero()),
        Ok(())
    );
    assert_eq!(composer.circuit_size(), size + 1);
}

#[test]
fn a_gadget_after_another_takes_the_next_variables() {
    // the variables that a gadget allocates are counted by the rows that tie them
    let mut composer = StandardComposer::new();
    let x = AllocatedScalar::allocate(&mut composer, BlsScalar::one());
    assert_eq!(bit_gadget(&mut composer, x), Ok(()));
    let after_bit = AllocatedScalar::allocate(&mut composer, BlsScalar::zero());

    let mut other = StandardComposer::new();
    let x = AllocatedScalar::allocate(&mut other, BlsScalar::one());
    // the bit gadget allocates two variables
    AllocatedScalar::allocate(&mut other, BlsScalar::zero());
    AllocatedScalar::allocate(&mut other, BlsScalar::zero());
    let expected = AllocatedScalar::allocate(&mut other, BlsScalar::zero());
    assert_eq!(after_bit.var, expected.var);
    assert_ne!(x.var, expected.var);

    // the inequality gadget allocates four
    let mut composer = StandardComposer::new();
    let a = AllocatedScalar::allocate(&mut composer, BlsScalar::from(1));
    let b = AllocatedScalar::allocate(&mut composer, BlsScalar::from(2));
    assert_eq!(inequality_gadget(&mut composer, a, b), Ok(()));
    let after_inequality = AllocatedScalar::allocate(&mut composer, BlsScalar::zero());
    let mut other = StandardComposer::new();
    for _ in 0..6 {
        AllocatedScalar::allocate(&mut other, BlsScalar::zero());
    }
    let expected = AllocatedScalar::allocate(&mut other, BlsScalar::zero());
    assert_eq!(after_inequality.var, expected.var);
}

#[test]
fn is_reduced_tells_the_scalars_below_the_order() {
    // what the arithmetic gives is reduced
    assert!(is_reduced(&BlsScalar::zero()));
    assert!(is_reduced(&BlsScalar::one()));
    assert!(is_reduced(&BlsScalar::from(u64::MAX)));
    assert!(is_reduced(&-BlsScalar::one()));
    assert!(is_reduced(&BlsScalar::from(7).invert().unwrap()));

    // the order itself is not, nor anything above it
    let order = [
        0xffffffff00000001,
        0x53bda402fffe5bfe,
        0x3339d80809a1d805,
        0x73eda753299d7d48,
    ];
    assert!(!is_reduced(&BlsScalar(order)));
    assert!(!is_reduced(&BlsScalar([u64::MAX; 4])));
    assert!(!is_reduced(&BlsScalar([order[0] + 1, order[1], order[2], order[3]])));
    assert!(!is_reduced(&BlsScalar([0, order[1] + 1, order[2], order[3]])));
    assert!(!is_reduced(&BlsScalar([0, 0, order[2] + 1, order[3]])));
    assert!(!is_reduced(&BlsScalar([0, 0, 0, order[3] + 1])));

    // the order less one is, and so is every lower limb below an equal upper one
    assert!(is_reduced(&BlsScalar([order[0] - 1, order[1], order[2], order[3]])));
    assert!(is_reduced(&BlsScalar([u64::MAX, order[1] - 1, order[2], order[3]])));
    assert!(is_reduced(&BlsScalar([u64::MAX, u64::MAX, order[2] - 1, order[3]])));
    assert!(is_reduced(&BlsScalar([u64::MAX, u64::MAX, u64::MAX, order[3] - 1])));
}

#[test]
fn bit_gadget_is_built_alike_for_bits_and_for_other_values() {
    // the rows do not depend on the value
    let mut sizes = Vec::new();
    for value in [0u64, 1, 2, 5] {
        let mut composer = StandardComposer::new();
        let x = AllocatedScalar::allocate(&mut composer, BlsScalar::from(value));
        assert_eq!(bit_gadget(&mut composer, x), Ok(()));
        let next = AllocatedScalar::allocate(&mut composer, BlsScalar::zero());
        sizes.push((composer.circuit_size(), next.var));
    }
    assert!(sizes.iter().all(|s| *s == sizes[0]));
}
