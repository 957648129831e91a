use dusk_plonk::prelude::{BlsScalar, Error, Prover, PublicParameters, StandardComposer, Verifier};
use plonk_gadgets::set::{set_membership_gadget, vector_non_membership_gadget, vector_sum_gadget};
use plonk_gadgets::{AllocatedScalar, Error as GadgetError};

struct NonMembershipCase {
    prover_vector: Vec<BlsScalar>,
    verifier_vector: Vec<BlsScalar>,
    witness: BlsScalar,
    expected_witness: bool,
    expected_prover: bool,
    desc: String,
}

struct SumCase {
    vector: Vec<BlsScalar>,
    sum: u64,
    expected: bool,
}

struct MembershipCase {
    prover_set: Vec<BlsScalar>,
    verifier_set: Vec<BlsScalar>,
    value: BlsScalar,
    expected: bool,
    desc: String,
}

// The circuit runs the non-membership gadget, which constrains the witness
// not to be part of the vector.
fn non_membership_circuit(
    composer: &mut StandardComposer,
    vector: &Vec<BlsScalar>,
    witness: BlsScalar,
) -> Result<(), GadgetError> {
    let v = AllocatedScalar::allocate(composer, witness);
    vector_non_membership_gadget(composer, &vector, v)
}

// The circuit runs the membership gadget, which constrains the value to be
// part of the set.
fn membership_circuit(
    composer: &mut StandardComposer,
    set: &Vec<BlsScalar>,
    value: BlsScalar,
) -> Result<(), GadgetError> {
    let assigned_value = AllocatedScalar::allocate(composer, value);
    set_membership_gadget(composer, set, assigned_value)
}

#[test]
fn test_vector_non_membership_gadget() -> Result<(), Error> {
    // Generate Composer & Public Parameters
    let pub_params = PublicParameters::setup(1 << 8, &mut rand::thread_rng())?;
    let (ck, vk) = pub_params.trim(1 << 7)?;

    let test_cases: Vec<NonMembershipCase> = vec![
        NonMembershipCase {
            prover_vector: vec![BlsScalar::from(3), BlsScalar::from(4)],
            verifier_vector: vec![BlsScalar::from(3), BlsScalar::from(4)],
            witness: BlsScalar::from(5),
            desc: String::from("Element not part of the vector, should pass"),
            expected_witness: true,
            expected_prover: true,
        },
        NonMembershipCase {
            prover_vector: vec![BlsScalar::from(3), BlsScalar::from(4)],
            verifier_vector: vec![BlsScalar::from(3), BlsScalar::from(4)],
            witness: BlsScalar::from(3),
            desc: String::from("Element part of vector, prover shouldnt construct a valid proof"),
            expected_witness: false,
            expected_prover: false,
        },
        NonMembershipCase {
            prover_vector: vec![BlsScalar::from(3), BlsScalar::from(3), BlsScalar::from(5)],
            verifier_vector: vec![BlsScalar::from(3), BlsScalar::from(3), BlsScalar::from(5)],
            witness: BlsScalar::from(4),
            desc: String::from(
                "Duplicate elements in the vector, shouldn't matter for neither of the parties",
            ),
            expected_witness: true,
            expected_prover: true,
        },
        NonMembershipCase {
            prover_vector: vec![BlsScalar::from(3)],
            verifier_vector: vec![BlsScalar::from(3), BlsScalar::from(4), BlsScalar::from(5)],
            witness: BlsScalar::from(6),
            desc: String::from(
                "Verifier vector has different lenght, shouldn't accept trivial proof",
            ),
            expected_witness: false,
            expected_prover: true,
        },
        NonMembershipCase {
            prover_vector: vec![BlsScalar::from(3), BlsScalar::from(4)],
            verifier_vector: vec![BlsScalar::from(5), BlsScalar::from(6)],
            witness: BlsScalar::from(7),
            desc: String::from("Prover and verifier vectors same length, different elements"),
            expected_witness: false,
            expected_prover: true,
        },
    ];

    for case in test_cases.iter() {
        println!("{}", case.desc);

        let mut prover = Prover::new(b"testing");
        if case.expected_prover {
            assert!(
                non_membership_circuit(prover.mut_cs(), &case.prover_vector, case.witness).is_ok()
            );
        } else {
            assert!(
                non_membership_circuit(prover.mut_cs(), &case.prover_vector, case.witness).is_err()
            );
            continue;
        }
        let pi = prover.mut_cs().construct_dense_pi_vec().clone();
        prover.preprocess(&ck)?;
        let proof = prover.prove(&ck)?;

        let mut verifier = Verifier::new(b"testing");
        assert!(
            non_membership_circuit(verifier.mut_cs(), &case.verifier_vector, BlsScalar::zero())
                .is_ok()
        );
        verifier.preprocess(&ck)?;
        if case.expected_witness {
            assert!(verifier.verify(&proof, &vk, &pi).is_ok());
        } else {
            assert!(verifier.verify(&proof, &vk, &pi).is_err());
        }
    }

    Ok(())
}

#[test]
fn test_vector_sum_gadget() -> Result<(), Error> {
    // Generate Composer & Public Parameters
    let pub_params = PublicParameters::setup(1 << 8, &mut rand::thread_rng())?;
    let (ck, vk) = pub_params.trim(1 << 7)?;
    let test_cases = vec![
        SumCase {
            vector: vec![1, 0, 0, 0]
                .iter()
                .map(|x| BlsScalar::from(*x))
                .collect(),
            sum: 1,
            expected: true,
        },
        SumCase {
            vector: vec![1, 2, 3, 4]
                .iter()
                .map(|x| BlsScalar::from(*x))
                .collect(),
            sum: 10,
            expected: true,
        },
        SumCase {
            vector: vec![0, 0, 0, 0]
                .iter()
                .map(|x| BlsScalar::from(*x))
                .collect(),
            sum: 0,
            expected: true,
        },
        SumCase {
            vector: vec![1, 2, 3, 4]
                .iter()
                .map(|x| BlsScalar::from(*x))
                .collect(),
            sum: 12,
            expected: false,
        },
    ];

    for case in test_cases.into_iter() {
        let mut prover = Prover::default();

        let allocated_vector: Vec<AllocatedScalar> = case
            .vector
            .iter()
            .map(|x| AllocatedScalar::allocate(prover.mut_cs(), *x))
            .collect();
        assert!(vector_sum_gadget(prover.mut_cs(), &allocated_vector, case.sum).is_ok());
        let pi = prover.mut_cs().construct_dense_pi_vec().clone();
        prover.preprocess(&ck)?;
        let proof = prover.prove(&ck)?;

        let mut verifier = Verifier::default();
        let allocated_vector: Vec<AllocatedScalar> = case
            .vector
            .iter()
            .map(|x| AllocatedScalar::allocate(verifier.mut_cs(), *x))
            .collect();

        assert!(vector_sum_gadget(verifier.mut_cs(), &allocated_vector, 0).is_ok());
        verifier.preprocess(&ck)?;
        if case.expected {
            assert!(verifier.verify(&proof, &vk, &pi).is_ok());
        } else {
            assert!(verifier.verify(&proof, &vk, &pi).is_err());
        }
    }
    Ok(())
}

#[test]
fn test_set_membership_gadget() -> Result<(), Error> {
    // Generate Composer & Public Parameters
    let pub_params = PublicParameters::setup(1 << 8, &mut rand::thread_rng())?;
    let (ck, vk) = pub_params.trim(1 << 7)?;

    let test_cases: Vec<MembershipCase> = vec![
        MembershipCase {
            prover_set: vec![BlsScalar::from(3), BlsScalar::from(4)],
            verifier_set: vec![BlsScalar::from(3), BlsScalar::from(4)],
            value: BlsScalar::from(3),
            desc: String::from("Element part of the set, should pass"),
            expected: true,
        },
        MembershipCase {
            prover_set: vec![BlsScalar::from(3), BlsScalar::from(4)],
            verifier_set: vec![BlsScalar::from(3), BlsScalar::from(4)],
            value: BlsScalar::from(5),
            desc: String::from("Element not part of set, should fail"),
            expected: false,
        },
        MembershipCase {
            prover_set: vec![BlsScalar::from(3), BlsScalar::from(3)],
            verifier_set: vec![BlsScalar::from(3), BlsScalar::from(3)],
            value: BlsScalar::from(3),
            desc: String::from("Duplicate elements in the set"),
            expected: false,
        },
        MembershipCase {
            prover_set: vec![BlsScalar::from(3)],
            verifier_set: vec![BlsScalar::from(3), BlsScalar::from(4), BlsScalar::from(5)],
            value: BlsScalar::from(3),
            desc: String::from("Verifier set has different lenght, shouldn't accept trivial proof"),
            expected: false,
        },
        MembershipCase {
            prover_set: vec![BlsScalar::from(3), BlsScalar::from(4)],
            verifier_set: vec![BlsScalar::from(5), BlsScalar::from(6)],
            value: BlsScalar::from(3),
            desc: String::from("Prover and verifier sets same length, different elements"),
            expected: false,
        },
        MembershipCase {
            prover_set: vec![BlsScalar::from(3), BlsScalar::from(4)],
            verifier_set: vec![BlsScalar::from(3), BlsScalar::from(6)],
            value: BlsScalar::from(3),
            desc: String::from("Prover and verifier sets same length, some different elements"),
            expected: false,
        },
    ];

    for case in test_cases.iter() {
        println!("{}", case.desc);

        let mut prover = Prover::new(b"testing");
        assert!(membership_circuit(prover.mut_cs(), &case.prover_set, case.value).is_ok());
        let pi = prover.mut_cs().construct_dense_pi_vec().clone();
        prover.preprocess(&ck)?;
        let proof = prover.prove(&ck)?;

        let mut verifier = Verifier::new(b"testing");
        assert!(membership_circuit(verifier.mut_cs(), &case.verifier_set, BlsScalar::zero()).is_ok());
        verifier.preprocess(&ck)?;
        if case.expected {
            assert!(verifier.verify(&proof, &vk, &pi).is_ok());
        } else {
            assert!(verifier.verify(&proof, &vk, &pi).is_err());
        }
    }

    Ok(())
}
