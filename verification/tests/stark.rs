use qchain::keys::Keypair;
use qchain::pubkey::Pubkey;
use qchain::stark::{
    address_limbs, build_trace, is_valid_u64, limbs_to_address, verify_batch, verify_batch_bound_to_state, BindingError,
    ProofOutcome, PublicInputs, RowField, RowStateBinding, Side, StateBindingError, TransferStep, VerifyError, COL_FROM_AFTER,
    COL_FROM_BEFORE, FIELD_MODULUS, MIN_TRACE_LENGTH, TRACE_WIDTH,
};
use qchain::state_account::{AlgorithmId, StateAccount, COMBO_HYBRID_ED25519_ML_DSA_65};
use qchain::store::{InMemoryStore, StateStore};
use qchain::tree::{MerkleProof, StateTree};
use winterfell::crypto::hashers::Blake3_256;
use winterfell::crypto::{DefaultRandomCoin, MerkleTree};
use winterfell::math::fields::f128::BaseElement;
use winterfell::math::{FieldElement, StarkField, ToElements};
use winterfell::matrix::ColMatrix;
use winterfell::{
    AcceptableOptions, Air, AirContext, Assertion, AuxRandElements, BatchingMethod, CompositionPoly, CompositionPolyTrace,
    ConstraintCompositionCoefficients, DefaultConstraintCommitment, DefaultConstraintEvaluator, DefaultTraceLde,
    EvaluationFrame, FieldExtension, PartitionOptions, Proof, ProofOptions, Prover, ProverError, StarkDomain, TraceInfo,
    TracePolyTable, TraceTable, TransitionConstraintDegree,
};

type Element = BaseElement;

#[derive(Clone, Debug)]
struct Columns(Vec<Vec<Element>>);

impl Columns {
    fn of(table: &PublicInputs) -> Self {
        Columns(table.columns.iter().map(|c| c.iter().map(|v| Element::new(*v)).collect()).collect())
    }
}

impl ToElements<Element> for Columns {
    fn to_elements(&self) -> Vec<Element> {
        self.0.iter().flat_map(|c| c.iter().copied()).collect()
    }
}

struct TransferAir {
    context: AirContext<Element>,
    columns: Columns,
}

impl Air for TransferAir {
    type BaseField = Element;
    type PublicInputs = Columns;

    fn new(trace_info: TraceInfo, columns: Columns, options: ProofOptions) -> Self {
        let degrees = vec![TransitionConstraintDegree::new(1), TransitionConstraintDegree::new(1)];
        let assertions = TRACE_WIDTH * trace_info.length();
        TransferAir { context: AirContext::new(trace_info, degrees, assertions, options), columns }
    }

    fn evaluate_transition<E: FieldElement + From<Self::BaseField>>(&self, frame: &EvaluationFrame<E>, _: &[E], result: &mut [E]) {
        let cur = frame.current();
        result[0] = cur[4] - (cur[0] - cur[2] - cur[3]);
        result[1] = cur[5] - (cur[1] + cur[2]);
    }

    fn get_assertions(&self) -> Vec<Assertion<Self::BaseField>> {
        let mut assertions = Vec::new();
        for (column, values) in self.columns.0.iter().enumerate() {
            for (step, value) in values.iter().enumerate() {
                assertions.push(Assertion::single(column, step, *value));
            }
        }
        assertions
    }

    fn context(&self) -> &AirContext<Self::BaseField> {
        &self.context
    }
}

struct TransferProver {
    options: ProofOptions,
}

type Hash = Blake3_256<Element>;

impl Prover for TransferProver {
    type BaseField = Element;
    type Air = TransferAir;
    type Trace = TraceTable<Element>;
    type HashFn = Hash;
    type VC = MerkleTree<Hash>;
    type RandomCoin = DefaultRandomCoin<Hash>;
    type TraceLde<E: FieldElement<BaseField = Element>> = DefaultTraceLde<E, Hash, Self::VC>;
    type ConstraintCommitment<E: FieldElement<BaseField = Element>> = DefaultConstraintCommitment<E, Hash, Self::VC>;
    type ConstraintEvaluator<'a, E: FieldElement<BaseField = Element>> = DefaultConstraintEvaluator<'a, TransferAir, E>;

    fn get_pub_inputs(&self, trace: &Self::Trace) -> Columns {
        Columns((0..TRACE_WIDTH).map(|c| trace.get_column(c).to_vec()).collect())
    }

    fn options(&self) -> &ProofOptions {
        &self.options
    }

    fn new_trace_lde<E: FieldElement<BaseField = Element>>(
        &self,
        trace_info: &TraceInfo,
        main_trace: &ColMatrix<Element>,
        domain: &StarkDomain<Element>,
        partition_option: PartitionOptions,
    ) -> (Self::TraceLde<E>, TracePolyTable<E>) {
        DefaultTraceLde::new(trace_info, main_trace, domain, partition_option)
    }

    fn build_constraint_commitment<E: FieldElement<BaseField = Element>>(
        &self,
        composition_poly_trace: CompositionPolyTrace<E>,
        columns: usize,
        domain: &StarkDomain<Element>,
        partition_options: PartitionOptions,
    ) -> (Self::ConstraintCommitment<E>, CompositionPoly<E>) {
        DefaultConstraintCommitment::new(composition_poly_trace, columns, domain, partition_options)
    }

    fn new_evaluator<'a, E: FieldElement<BaseField = Element>>(
        &self,
        air: &'a TransferAir,
        aux_rand_elements: Option<AuxRandElements<E>>,
        composition_coefficients: ConstraintCompositionCoefficients<E>,
    ) -> Self::ConstraintEvaluator<'a, E> {
        DefaultConstraintEvaluator::new(air, aux_rand_elements, composition_coefficients)
    }
}

fn prover() -> TransferProver {
    let options = ProofOptions::new(32, 8, 0, FieldExtension::None, 8, 31, BatchingMethod::Linear, BatchingMethod::Linear);
    TransferProver { options }
}

fn prove_batch(steps: &Vec<TransferStep>) -> Result<(Proof, PublicInputs), ProverError> {
    let table = build_trace(steps);
    let proof = prover().prove(TraceTable::init(Columns::of(&table).0))?;
    Ok((proof, table))
}

fn check_proof(proof: Proof, table: &PublicInputs) -> ProofOutcome {
    if proof.trace_info().width() != TRACE_WIDTH {
        return ProofOutcome::Malformed;
    }
    let options = AcceptableOptions::MinConjecturedSecurity(95);
    match winterfell::verify::<TransferAir, Hash, DefaultRandomCoin<Hash>, MerkleTree<Hash>>(proof, Columns::of(table), &options) {
        Ok(()) => ProofOutcome::Accepted,
        Err(e) => ProofOutcome::Rejected(e.to_string()),
    }
}

fn verify_proved(proof: Proof, table: PublicInputs) -> Result<(), VerifyError> {
    verify_batch(&check_proof(proof, &table), &table)
}

fn verify_bound(proof: Proof, table: PublicInputs, bindings: &Vec<RowStateBinding>) -> Result<(), StateBindingError> {
    assert!(table.is_table());
    verify_batch_bound_to_state(&check_proof(proof, &table), &table, bindings)
}

fn addr(n: u8) -> [u8; 32] {
    [n; 32]
}

fn fresh_key() -> Pubkey {
    Keypair::generate().unwrap().pubkey()
}

fn wallet(balance: u64) -> StateAccount {
    StateAccount {
        balance,
        nonce: 0,
        algorithm_id: AlgorithmId(COMBO_HYBRID_ED25519_ML_DSA_65),
        owner: Pubkey::system_program_id(),
        code_hash: [0u8; 32],
        data: vec![],
    }
}

/// An account and the proof of it, under the root of the moment.
struct Snapshot {
    root: [u8; 32],
    account: StateAccount,
    proof: MerkleProof,
}

fn snapshot(store: &InMemoryStore, key: &Pubkey) -> Snapshot {
    let tree = StateTree::new();
    let account = store.get(key).unwrap_or(wallet(0));
    Snapshot { root: tree.root(store), account, proof: tree.prove(store, key) }
}

fn binding(from_before: Snapshot, to_before: Snapshot, from_after: Snapshot, to_after: Snapshot) -> RowStateBinding {
    RowStateBinding {
        root_before: from_before.root,
        root_after: from_after.root,
        from_before: from_before.account,
        from_after: from_after.account,
        to_before: to_before.account,
        to_after: to_after.account,
        from_proof_before: from_before.proof,
        from_proof_after: from_after.proof,
        to_proof_before: to_before.proof,
        to_proof_after: to_after.proof,
    }
}

/// Two wallets and the transfer of 300 with a fee of 10 between them.
struct Scene {
    alice: Pubkey,
    bob: Pubkey,
    binding: RowStateBinding,
}

fn scene() -> Scene {
    let mut store = InMemoryStore::new();
    let alice = fresh_key();
    let bob = fresh_key();
    store.set(alice, wallet(1_000));
    store.set(bob, wallet(200));
    let alice_before = snapshot(&store, &alice);
    let bob_before = snapshot(&store, &bob);
    store.set(alice, wallet(690));
    store.set(bob, wallet(500));
    let alice_after = snapshot(&store, &alice);
    let bob_after = snapshot(&store, &bob);
    Scene { alice, bob, binding: binding(alice_before, bob_before, alice_after, bob_after) }
}

fn step(from: &Pubkey, to: &Pubkey, from_before: u64, to_before: u64, amount: u64, fee: u64) -> TransferStep {
    TransferStep::conserving(from.to_bytes(), to.to_bytes(), from_before, to_before, amount, fee)
}

#[test]
fn a_valid_batch_of_transfers_proves_and_verifies() {
    let steps = vec![
        TransferStep::conserving(addr(1), addr(2), 1_000, 200, 300, 10),
        TransferStep::conserving(addr(3), addr(4), 500, 50, 100, 5),
        TransferStep::conserving(addr(5), addr(6), 2_000, 0, 1_500, 20),
    ];
    let (proof, pub_inputs) = prove_batch(&steps).unwrap();
    verify_proved(proof, pub_inputs).expect("a genuinely conserving batch must verify");
}

#[test]
fn tampering_with_a_reported_balance_after_proving_is_rejected() {
    let steps = vec![TransferStep::conserving(addr(1), addr(2), 1_000, 200, 300, 10)];
    let (proof, mut pub_inputs) = prove_batch(&steps).unwrap();
    pub_inputs.columns[COL_FROM_AFTER][0] += 1;
    assert!(verify_proved(proof, pub_inputs).is_err(), "a forged public input must be rejected");
}

#[test]
fn an_inconsistent_batch_produces_no_proof_that_verifies() {
    let mut steps = vec![TransferStep::conserving(addr(1), addr(2), 1_000, 200, 300, 10)];
    steps[0].from_after += 1;
    // There is no trace of this batch that a prover could commit to, so that the nearest
    // thing to a proof of it is that of the batch as it ought to be.
    let (proof, _) = prove_batch(&vec![TransferStep::conserving(addr(1), addr(2), 1_000, 200, 300, 10)]).unwrap();
    let pub_inputs = build_trace(&steps);
    assert!(verify_proved(proof, pub_inputs).is_err(), "an inconsistent batch must never have a verifying proof");
}

#[test]
fn padding_rows_are_transparent_and_dont_affect_verification() {
    let steps = vec![
        TransferStep::conserving(addr(1), addr(2), 10, 10, 1, 0),
        TransferStep::conserving(addr(3), addr(4), 20, 20, 2, 0),
        TransferStep::conserving(addr(5), addr(6), 30, 30, 3, 0),
    ];
    let (proof, pub_inputs) = prove_batch(&steps).unwrap();
    assert_eq!(pub_inputs.columns[COL_FROM_BEFORE].len(), 8, "3 real rows clamp up to the shortest table (8)");
    verify_proved(proof, pub_inputs).unwrap();
}

#[test]
fn is_valid_u64_accepts_the_full_u64_range_and_rejects_beyond_it() {
    assert!(is_valid_u64(Element::ZERO.as_int()));
    assert!(is_valid_u64(Element::new(u64::MAX as u128).as_int()));
    assert!(!is_valid_u64(Element::new(u64::MAX as u128 + 1).as_int()));
    assert!(!is_valid_u64((Element::ZERO - Element::ONE).as_int()));
    assert!(!is_valid_u64((Element::ZERO - Element::new(500)).as_int()));
}

#[test]
fn an_out_of_range_disguised_negative_amount_is_rejected_even_though_the_stark_proof_alone_would_accept_it() {
    let from_before = Element::new(1_000);
    let to_before = Element::new(1_000);
    let fee = Element::new(10);
    let amount = Element::ZERO - Element::new(500);
    let from_after = from_before - amount - fee;
    let to_after = to_before + amount;

    let mut columns: Vec<Vec<Element>> = vec![vec![Element::ZERO; MIN_TRACE_LENGTH]; TRACE_WIDTH];
    columns[0][0] = from_before;
    columns[1][0] = to_before;
    columns[2][0] = amount;
    columns[3][0] = fee;
    columns[4][0] = from_after;
    columns[5][0] = to_after;
    let trace = TraceTable::init(columns);

    let prover = prover();
    let raw = prover.get_pub_inputs(&trace);
    let pub_inputs = PublicInputs { columns: raw.0.iter().map(|c| c.iter().map(|e| e.as_int()).collect()).collect() };
    let proof = prover.prove(trace).expect("both conservation equations hold as field arithmetic, so the STARK proof itself succeeds");

    match verify_proved(proof, pub_inputs) {
        Err(VerifyError::ValueOutOfU64Range { column: 2, step: 0 }) => {}
        Err(other) => panic!("expected the range check on column 2 (amount) to reject this, got a different error: {other:?}"),
        Ok(()) => panic!("a disguised out-of-range amount must never verify"),
    }
}

#[test]
fn a_genuine_transfer_binds_to_a_real_merkle_root_transition() {
    let s = scene();
    let (proof, pub_inputs) = prove_batch(&vec![step(&s.alice, &s.bob, 1_000, 200, 300, 10)]).unwrap();
    verify_bound(proof, pub_inputs, &vec![s.binding]).expect("a genuine transfer must bind to the real Merkle root transition");
}

#[test]
fn a_transfer_to_a_brand_new_recipient_binds_correctly() {
    let mut store = InMemoryStore::new();
    let alice = fresh_key();
    let bob = fresh_key();
    store.set(alice, wallet(1_000));
    let alice_before = snapshot(&store, &alice);
    let bob_before = snapshot(&store, &bob);
    assert!(bob_before.proof.leaf_value_hash.is_none(), "bob must not have a row yet");
    store.set(alice, wallet(690));
    store.set(bob, wallet(300));
    let row = binding(alice_before, bob_before, snapshot(&store, &alice), snapshot(&store, &bob));

    let (proof, pub_inputs) = prove_batch(&vec![step(&alice, &bob, 1_000, 0, 300, 10)]).unwrap();
    verify_bound(proof, pub_inputs, &vec![row])
        .expect("a transfer to a genuinely brand-new recipient must bind correctly via its real exclusion proof");
}

#[test]
fn an_exclusion_proof_claiming_a_nonzero_balance_is_rejected() {
    let mut store = InMemoryStore::new();
    let alice = fresh_key();
    let bob = fresh_key();
    store.set(alice, wallet(1_000));
    let alice_before = snapshot(&store, &alice);
    let mut bob_before = snapshot(&store, &bob);
    bob_before.account = wallet(500);
    store.set(alice, wallet(690));
    store.set(bob, wallet(800));
    let row = binding(alice_before, bob_before, snapshot(&store, &alice), snapshot(&store, &bob));

    let (proof, pub_inputs) = prove_batch(&vec![step(&alice, &bob, 1_000, 500, 300, 10)]).unwrap();
    match verify_bound(proof, pub_inputs, &vec![row]) {
        Err(StateBindingError::Binding(BindingError::ExclusionProofClaimsNonzeroBalance { row: 0, field: RowField::ToBefore })) => {}
        other => panic!("expected ExclusionProofClaimsNonzeroBalance on to_before, got {other:?}"),
    }
}

#[test]
fn a_sequence_of_two_transfers_chains_real_roots_correctly() {
    let mut store = InMemoryStore::new();
    let alice = fresh_key();
    let bob = fresh_key();
    let carol = fresh_key();
    store.set(alice, wallet(1_000));
    store.set(bob, wallet(200));
    store.set(carol, wallet(50));

    let alice_before_0 = snapshot(&store, &alice);
    let bob_before_0 = snapshot(&store, &bob);
    store.set(alice, wallet(690));
    store.set(bob, wallet(500));
    let row_0 = binding(alice_before_0, bob_before_0, snapshot(&store, &alice), snapshot(&store, &bob));

    let bob_before_1 = snapshot(&store, &bob);
    let carol_before_1 = snapshot(&store, &carol);
    store.set(bob, wallet(395));
    store.set(carol, wallet(150));
    let row_1 = binding(bob_before_1, carol_before_1, snapshot(&store, &bob), snapshot(&store, &carol));

    let steps = vec![step(&alice, &bob, 1_000, 200, 300, 10), step(&bob, &carol, 500, 50, 100, 5)];
    let (proof, pub_inputs) = prove_batch(&steps).unwrap();
    verify_bound(proof, pub_inputs, &vec![row_0, row_1]).expect("a real two-step chain of root transitions must bind successfully");
}

#[test]
fn a_binding_with_broken_root_sequencing_is_rejected() {
    let s = scene();
    let one = step(&s.alice, &s.bob, 1_000, 200, 300, 10);
    let (proof, pub_inputs) = prove_batch(&vec![one, one]).unwrap();
    let again = RowStateBinding {
        root_before: s.binding.root_before,
        root_after: s.binding.root_after,
        from_before: s.binding.from_before.clone(),
        from_after: s.binding.from_after.clone(),
        to_before: s.binding.to_before.clone(),
        to_after: s.binding.to_after.clone(),
        from_proof_before: s.binding.from_proof_before.clone(),
        from_proof_after: s.binding.from_proof_after.clone(),
        to_proof_before: s.binding.to_proof_before.clone(),
        to_proof_after: s.binding.to_proof_after.clone(),
    };
    match verify_bound(proof, pub_inputs, &vec![s.binding, again]) {
        Err(StateBindingError::Binding(BindingError::RootSequenceMismatch { row: 0 })) => {}
        other => panic!("expected a RootSequenceMismatch at row 0, got {other:?}"),
    }
}

#[test]
fn a_binding_whose_balance_doesnt_match_the_stark_is_rejected() {
    let mut s = scene();
    let (proof, pub_inputs) = prove_batch(&vec![step(&s.alice, &s.bob, 1_000, 200, 300, 10)]).unwrap();
    s.binding.from_before = wallet(999);
    match verify_bound(proof, pub_inputs, &vec![s.binding]) {
        Err(StateBindingError::Binding(BindingError::BalanceMismatch { row: 0, field: RowField::FromBefore })) => {}
        other => panic!("expected a BalanceMismatch on from_before at row 0, got {other:?}"),
    }
}

#[test]
fn a_binding_whose_merkle_proof_is_for_the_wrong_address_is_rejected() {
    let mut store = InMemoryStore::new();
    let alice = fresh_key();
    let bob = fresh_key();
    let mallory = fresh_key();
    store.set(alice, wallet(1_000));
    store.set(bob, wallet(200));
    store.set(mallory, wallet(50));
    let mut alice_before = snapshot(&store, &alice);
    alice_before.proof = snapshot(&store, &mallory).proof;
    let bob_before = snapshot(&store, &bob);
    store.set(alice, wallet(690));
    store.set(bob, wallet(500));
    let row = binding(alice_before, bob_before, snapshot(&store, &alice), snapshot(&store, &bob));

    let (proof, pub_inputs) = prove_batch(&vec![step(&alice, &bob, 1_000, 200, 300, 10)]).unwrap();
    match verify_bound(proof, pub_inputs, &vec![row]) {
        Err(StateBindingError::Binding(BindingError::AddressMismatch { row: 0, side: Side::From })) => {}
        other => panic!("expected an AddressMismatch on 'from' at row 0, got {other:?}"),
    }
}

#[test]
fn a_binding_against_a_stale_root_is_rejected() {
    let mut s = scene();
    let (proof, pub_inputs) = prove_batch(&vec![step(&s.alice, &s.bob, 1_000, 200, 300, 10)]).unwrap();
    s.binding.root_after = s.binding.root_before;
    match verify_bound(proof, pub_inputs, &vec![s.binding]) {
        Err(StateBindingError::Binding(BindingError::MerkleProofFailed { row: 0, .. })) => {}
        other => panic!("expected a MerkleProofFailed (the 'after' proofs don't verify against the stale root), got {other:?}"),
    }
}

fn json_of_account(a: &StateAccount) -> serde_json::Value {
    serde_json::to_value((a.balance, a.nonce, a.algorithm_id.0, a.owner.to_bytes(), a.code_hash, &a.data)).unwrap()
}

fn account_of_json(v: &serde_json::Value) -> StateAccount {
    let (balance, nonce, algorithm, owner, code_hash, data): (u64, u64, u16, [u8; 32], [u8; 32], Vec<u8>) =
        serde_json::from_value(v.clone()).unwrap();
    StateAccount { balance, nonce, algorithm_id: AlgorithmId(algorithm), owner: Pubkey::new(owner), code_hash, data }
}

#[test]
fn public_inputs_and_row_state_binding_round_trip_through_real_json_and_a_verify_call() {
    let s = scene();
    let (proof, pub_inputs) = prove_batch(&vec![step(&s.alice, &s.bob, 1_000, 200, 300, 10)]).unwrap();

    let proof_hex = hex::encode(proof.to_bytes());
    let pub_inputs_json = serde_json::to_string(&pub_inputs.columns).unwrap();
    let proof_json = |p: &MerkleProof| serde_json::to_value((p.key, p.leaf_value_hash, &p.siblings)).unwrap();
    let b = &s.binding;
    let accounts = vec![json_of_account(&b.from_before), json_of_account(&b.from_after), json_of_account(&b.to_before), json_of_account(&b.to_after)];
    let proofs = vec![proof_json(&b.from_proof_before), proof_json(&b.from_proof_after), proof_json(&b.to_proof_before), proof_json(&b.to_proof_after)];
    let binding_json = serde_json::to_string(&(b.root_before, b.root_after, accounts, proofs)).unwrap();

    let round_tripped_proof = Proof::from_bytes(&hex::decode(&proof_hex).unwrap()).unwrap();
    let round_tripped_pub_inputs = PublicInputs::from_columns(&serde_json::from_str(&pub_inputs_json).unwrap()).unwrap();
    let (root_before, root_after, accounts, proofs): ([u8; 32], [u8; 32], Vec<serde_json::Value>, Vec<serde_json::Value>) =
        serde_json::from_str(&binding_json).unwrap();
    let proof_of = |v: &serde_json::Value| -> MerkleProof {
        let (key, leaf_value_hash, siblings): ([u8; 32], Option<[u8; 32]>, Vec<[u8; 32]>) = serde_json::from_value(v.clone()).unwrap();
        MerkleProof { key, leaf_value_hash, siblings }
    };
    let round_tripped = RowStateBinding {
        root_before,
        root_after,
        from_before: account_of_json(&accounts[0]),
        from_after: account_of_json(&accounts[1]),
        to_before: account_of_json(&accounts[2]),
        to_after: account_of_json(&accounts[3]),
        from_proof_before: proof_of(&proofs[0]),
        from_proof_after: proof_of(&proofs[1]),
        to_proof_before: proof_of(&proofs[2]),
        to_proof_after: proof_of(&proofs[3]),
    };

    verify_bound(round_tripped_proof, round_tripped_pub_inputs, &vec![round_tripped])
        .expect("a proof/public-inputs/binding round-tripped through real JSON must still verify");
}

#[test]
fn addresses_are_split_into_big_endian_numbers_and_put_together_again() {
    let mut address = [0u8; 32];
    address[7] = 1;
    address[8] = 1;
    assert_eq!(address_limbs(&address), [1, 1 << 56, 0, 0]);
    assert_eq!(limbs_to_address([1, 1 << 56, 0, 0]), address);
    let key = fresh_key().to_bytes();
    assert_eq!(limbs_to_address(address_limbs(&key)), key);
}

#[test]
fn every_other_refusal_has_its_own_words() {
    let table = build_trace(&vec![]);
    assert_eq!(table.columns.len(), TRACE_WIDTH);
    assert!(matches!(verify_batch(&ProofOutcome::Malformed, &table), Err(VerifyError::Malformed)));
    let refused = verify_batch(&ProofOutcome::Rejected("bad".to_string()), &table).unwrap_err();
    assert_eq!(refused.message(), "STARK proof did not verify: bad");
    let range = VerifyError::ValueOutOfU64Range { column: 2, step: 0 };
    assert_eq!(range.message(), "public value at column 2, step 0 exceeds u64::MAX - not a real non-negative u64");
    let mut rows = vec![];
    for _ in 0..9 {
        rows.push(scene().binding);
    }
    match verify_batch_bound_to_state(&ProofOutcome::Accepted, &table, &rows) {
        Err(StateBindingError::Binding(e @ BindingError::TooManyBindings { max: 8, got: 9 })) => {
            assert_eq!(e.message(), "expected at most 8 row bindings (one per real or padding row), got 9");
        }
        other => panic!("expected TooManyBindings, got {other:?}"),
    }
    let refused = verify_batch_bound_to_state(&ProofOutcome::Malformed, &table, &vec![]);
    assert!(matches!(refused, Err(StateBindingError::Stark(VerifyError::Malformed))));
}

#[test]
fn a_received_table_has_all_columns_and_elements_of_the_field() {
    let narrow: Vec<Vec<u128>> = vec![vec![1]; TRACE_WIDTH - 1];
    let e = PublicInputs::from_columns(&narrow).unwrap_err();
    assert_eq!(e.message(), "expected 14 PublicInputs columns, got 13");
    let raw: Vec<Vec<u128>> = vec![vec![7, u128::MAX, FIELD_MODULUS, FIELD_MODULUS - 1]; TRACE_WIDTH];
    let table = PublicInputs::from_columns(&raw).unwrap();
    for column in &table.columns {
        let elements: Vec<u128> = raw[0].iter().map(|v| Element::new(*v).as_int()).collect();
        assert_eq!(*column, elements);
    }
    assert_eq!(table.columns[0], vec![7, u128::MAX - FIELD_MODULUS, 0, FIELD_MODULUS - 1]);
}
