use zk_ledger::anchor::process_update;
use zk_ledger::anchor::Anchor;
use zk_ledger::anchor::ProcessError;
use zk_ledger::anchor::StateAccount;
use zk_ledger::lifecycle::prepare_witness;
use zk_ledger::lifecycle::public_inputs;
use zk_ledger::lifecycle::ProofError;
use zk_ledger::lifecycle::ProofSystem;
use zk_ledger::relation::TransactionCircuit;

#[test]
fn insufficient_funds_witness_is_unprovable() {
    assert!(prepare_witness(5, 10, 0).is_none());

    let mut system = ProofSystem::new();
    system.record_setup(vec![1, 2], vec![3, 4]).expect("first setup must succeed");
    let wrapped = TransactionCircuit {
        sender_balance: Some(5),
        amount: Some(10),
        receiver_balance: Some(0),
        new_sender_balance: Some(5u64.wrapping_sub(10)),
        new_receiver_balance: Some(10),
    };
    assert!(!wrapped.is_satisfied());
    assert_eq!(system.prove_request(&wrapped), Err(ProofError::ConstraintUnsatisfied));
}

#[test]
fn sufficient_funds_witness_is_admitted() {
    let circuit = prepare_witness(100, 30, 50).expect("sufficient funds must prepare");
    assert!(circuit.is_satisfied());

    let mut system = ProofSystem::new();
    assert_eq!(system.prove_request(&circuit), Err(ProofError::NotSetUp));
    system.record_setup(vec![1], vec![2]).expect("first setup must succeed");
    let witness = system.prove_request(&circuit).expect("a satisfied witness is admitted");
    assert_eq!(witness.new_sender_balance, 70);
    assert_eq!(witness.new_receiver_balance, 80);
    assert_eq!(public_inputs(&witness), vec![70, 80]);
}

#[test]
fn missing_assignment_is_refused() {
    let mut system = ProofSystem::new();
    system.record_setup(Vec::new(), Vec::new()).expect("first setup must succeed");
    let incomplete = TransactionCircuit {
        sender_balance: Some(100),
        amount: None,
        receiver_balance: Some(50),
        new_sender_balance: Some(70),
        new_receiver_balance: Some(80),
    };
    assert_eq!(system.prove_request(&incomplete), Err(ProofError::MissingAssignment));
}

#[test]
fn setup_runs_once() {
    let mut system = ProofSystem::new();
    assert_eq!(system.record_setup(vec![9], vec![8]), Ok(()));
    assert_eq!(system.record_setup(vec![7], vec![6]), Err(ProofError::AlreadySetUp));
    assert_eq!(system.proving_key, Some(vec![9]));
    assert_eq!(system.verifying_key, Some(vec![8]));
}

#[test]
fn verdict_rejects_malformed_public_inputs() {
    let mut system = ProofSystem::new();
    system.record_setup(vec![1], vec![2]).expect("first setup must succeed");
    assert!(system.verification_verdict(&vec![70, 80], true));
    assert!(!system.verification_verdict(&vec![70, 80], false));
    assert!(!system.verification_verdict(&vec![70], true));
    assert!(!system.verification_verdict(&vec![70, 80, 90], true));
    assert!(!system.verification_verdict(&Vec::new(), true));

    let idle = ProofSystem::new();
    assert!(!idle.verification_verdict(&vec![70, 80], true));
}

#[test]
fn witness_overflow_is_refused() {
    assert!(prepare_witness(10, 5, u64::MAX).is_none());
    assert!(prepare_witness(10, 0, u64::MAX).is_some());
}

#[test]
fn account_payload_roundtrip() {
    let account = StateAccount { state: vec![1, 2, 3, 4, 5] };
    let bytes = account.save();
    assert_eq!(bytes.len(), 9);
    let loaded = StateAccount::load(bytes.as_slice()).expect("a saved payload must load");
    assert_eq!(loaded.state, vec![1, 2, 3, 4, 5]);
}

#[test]
fn account_payload_rejects_bad_frames() {
    assert_eq!(StateAccount::load(&[1, 2]), Err(ProcessError::InvalidAccountData));
    assert_eq!(StateAccount::load(&[9, 0, 0, 0, 1]), Err(ProcessError::InvalidAccountData));
}

#[test]
fn instruction_decision_follows_verification() {
    let updated = process_update(true, &[7, 7, 7]).expect("a verified proof updates the payload");
    assert_eq!(updated.state, vec![7, 7, 7]);
    assert_eq!(process_update(false, &[7, 7, 7]), Err(ProcessError::InvalidInstructionData));
}

#[test]
fn anchor_moves_only_on_verified_roots() {
    let genesis = vec![0u8; 32];
    let mut anchor = Anchor::new(genesis.clone());
    assert_eq!(anchor.head(), &genesis);

    let next = vec![1u8; 32];
    assert!(!anchor.submit(false, next.clone()));
    assert_eq!(anchor.head(), &genesis);

    assert!(anchor.submit(true, next.clone()));
    assert_eq!(anchor.head(), &next);

    assert!(!anchor.submit(true, vec![2u8; 16]));
    assert_eq!(anchor.head(), &next);
}
