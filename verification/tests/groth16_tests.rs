use bellman::Circuit;
use bellman::ConstraintSystem;
use bellman::SynthesisError;
use bls12_381::Bls12;
use bls12_381::Scalar;
use groth16::create_random_proof;
use groth16::generate_random_parameters;
use groth16::prepare_verifying_key;
use groth16::verify_proof;
use rand::thread_rng;
use zk_ledger::lifecycle::prepare_witness;
use zk_ledger::lifecycle::public_inputs;
use zk_ledger::lifecycle::ProofSystem;

/// The transition relation synthesized for the proving backend: the two
/// linear balance constraints plus a 64-bit decomposition of the declared
/// new sender balance, so a field-wrapped underflow is unsatisfiable.
#[derive(Clone)]
struct TransferCircuit {
    sender_balance: Option<u64>,
    amount: Option<u64>,
    receiver_balance: Option<u64>,
    new_sender_balance: Option<Scalar>,
    new_receiver_balance: Option<Scalar>,
    new_sender_bits: Option<u64>,
}

impl TransferCircuit {
    fn empty() -> TransferCircuit {
        TransferCircuit {
            sender_balance: None,
            amount: None,
            receiver_balance: None,
            new_sender_balance: None,
            new_receiver_balance: None,
            new_sender_bits: None,
        }
    }

    fn honest(sender: u64, amount: u64, receiver: u64, new_sender: u64, new_receiver: u64) -> TransferCircuit {
        TransferCircuit {
            sender_balance: Some(sender),
            amount: Some(amount),
            receiver_balance: Some(receiver),
            new_sender_balance: Some(Scalar::from(new_sender)),
            new_receiver_balance: Some(Scalar::from(new_receiver)),
            new_sender_bits: Some(new_sender),
        }
    }

    /// The known-bad assignment an overdrafting prover would try: the new
    /// sender balance computed by field subtraction, wrapping past zero.
    fn field_wrapped(sender: u64, amount: u64, receiver: u64) -> TransferCircuit {
        TransferCircuit {
            sender_balance: Some(sender),
            amount: Some(amount),
            receiver_balance: Some(receiver),
            new_sender_balance: Some(Scalar::from(sender) - Scalar::from(amount)),
            new_receiver_balance: Some(Scalar::from(receiver) + Scalar::from(amount)),
            new_sender_bits: Some(0),
        }
    }
}

fn scalar_assignment(v: Option<u64>) -> Result<Scalar, SynthesisError> {
    v.map(Scalar::from).ok_or(SynthesisError::AssignmentMissing)
}

impl Circuit<Scalar> for TransferCircuit {
    fn synthesize<CS: ConstraintSystem<Scalar>>(self, cs: &mut CS) -> Result<(), SynthesisError> {
        let sender = cs.alloc(|| "sender_balance", || scalar_assignment(self.sender_balance))?;
        let amount = cs.alloc(|| "amount", || scalar_assignment(self.amount))?;
        let receiver = cs.alloc(|| "receiver_balance", || scalar_assignment(self.receiver_balance))?;
        let new_sender = cs.alloc_input(
            || "new_sender_balance",
            || self.new_sender_balance.ok_or(SynthesisError::AssignmentMissing),
        )?;
        let new_receiver = cs.alloc_input(
            || "new_receiver_balance",
            || self.new_receiver_balance.ok_or(SynthesisError::AssignmentMissing),
        )?;

        cs.enforce(
            || "sender_balance - amount = new_sender_balance",
            |lc| lc + sender - amount,
            |lc| lc + CS::one(),
            |lc| lc + new_sender,
        );
        cs.enforce(
            || "receiver_balance + amount = new_receiver_balance",
            |lc| lc + receiver + amount,
            |lc| lc + CS::one(),
            |lc| lc + new_receiver,
        );

        let mut bits = Vec::new();
        for i in 0..64 {
            let bit = cs.alloc(
                || format!("new sender bit {}", i),
                || {
                    self.new_sender_bits
                        .map(|v| Scalar::from((v >> i) & 1))
                        .ok_or(SynthesisError::AssignmentMissing)
                },
            )?;
            cs.enforce(
                || format!("bit {} is boolean", i),
                |lc| lc + bit,
                |lc| lc + CS::one() - bit,
                |lc| lc,
            );
            bits.push(bit);
        }
        cs.enforce(
            || "new sender balance fits 64 bits",
            |mut lc| {
                let mut coeff = Scalar::from(1);
                for bit in &bits {
                    lc = lc + (coeff, *bit);
                    coeff = coeff + coeff;
                }
                lc
            },
            |lc| lc + CS::one(),
            |lc| lc + new_sender,
        );
        Ok(())
    }
}

#[test]
fn valid_witness_verifies_and_perturbed_inputs_fail() {
    let mut rng = thread_rng();
    let params = generate_random_parameters::<Bls12, _, _>(TransferCircuit::empty(), &mut rng)
        .expect("setup must succeed");
    let pvk = prepare_verifying_key(&params.vk);

    let circuit = prepare_witness(100, 30, 50).expect("sufficient funds must prepare");
    let mut system = ProofSystem::new();
    system.record_setup(vec![1], vec![2]).expect("first setup must succeed");
    let witness = system.prove_request(&circuit).expect("a satisfied witness is admitted");

    let proof = create_random_proof(
        TransferCircuit::honest(
            witness.sender_balance,
            witness.amount,
            witness.receiver_balance,
            witness.new_sender_balance,
            witness.new_receiver_balance,
        ),
        &params,
        &mut rng,
    )
    .expect("proving a satisfied witness must succeed");

    let declared: Vec<Scalar> = public_inputs(&witness).iter().map(|v| Scalar::from(*v)).collect();
    assert!(verify_proof(&pvk, &proof, &declared).is_ok());

    let perturbed = vec![Scalar::from(71), Scalar::from(80)];
    assert!(verify_proof(&pvk, &proof, &perturbed).is_err());

    let wrong_arity = vec![Scalar::from(70)];
    assert!(verify_proof(&pvk, &proof, &wrong_arity).is_err());
}

#[test]
fn field_wrapped_underflow_is_unprovable() {
    let mut rng = thread_rng();
    let params = generate_random_parameters::<Bls12, _, _>(TransferCircuit::empty(), &mut rng)
        .expect("setup must succeed");
    let pvk = prepare_verifying_key(&params.vk);

    let wrapped = TransferCircuit::field_wrapped(5, 10, 0);
    let claimed = vec![
        Scalar::from(5) - Scalar::from(10),
        Scalar::from(10),
    ];
    match create_random_proof(wrapped, &params, &mut rng) {
        Ok(proof) => assert!(verify_proof(&pvk, &proof, &claimed).is_err()),
        Err(_) => {},
    }
}
