use dusk_plonk::prelude::{BlsScalar, Error, Prover, PublicParameters, StandardComposer, Verifier};
use plonk_gadgets::bit::bit_gadget;
use plonk_gadgets::{AllocatedScalar, Error as GadgetError};

struct BitCase {
    val: u64,
    expected: bool,
}

fn bit_circuit(composer: &mut StandardComposer, bit: u64) -> Result<(), GadgetError> {
    let a = AllocatedScalar::allocate(composer, BlsScalar::from(bit));

    bit_gadget(composer, a)
}

#[test]
fn test_is_bit() -> Result<(), Error> {
    // Generate Composer & Public Parameters
    let pub_params = PublicParameters::setup(1 << 10, &mut rand::thread_rng())?;
    let (ck, vk) = pub_params.trim(1 << 9)?;

    let test_cases: Vec<BitCase> = vec![
        BitCase {
            val: 0,
            expected: true,
        },
        BitCase {
            val: 1,
            expected: true,
        },
        BitCase {
            val: 2,
            expected: false,
        },
    ];

    for case in test_cases.iter() {
        let mut prover = Prover::new(b"testing");
        assert!(bit_circuit(prover.mut_cs(), case.val).is_ok());
        prover.preprocess(&ck)?;
        let proof = prover.prove(&ck)?;

        let mut verifier = Verifier::new(b"testing");
        assert!(bit_circuit(verifier.mut_cs(), 0).is_ok());
        verifier.preprocess(&ck).expect("Preprocessing error");
        if case.expected {
            assert!(verifier
                .verify(&proof, &vk, &vec![BlsScalar::zero()])
                .is_ok())
        } else {
            assert!(verifier
                .verify(&proof, &vk, &vec![BlsScalar::zero()])
                .is_err())
        };
    }

    Ok(())
}
