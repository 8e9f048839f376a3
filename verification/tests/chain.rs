use qchain::account::{Account, STAKING_RESERVE_UNITS, TOTAL_SUPPLY_UNITS, TREASURY_ALLOCATION_UNITS};
use qchain::block::{find_block, Block};
use qchain::keymap::KeyMap;
use qchain::keys::{verify, Keypair, MlDsaPair};
use qchain::ledger::{Holdings, Ledger, Program, ProgramProcessor, ProgramRegistry, TxError, TxFailure};
use qchain::memo_program::{memo_program_id, MemoProgram};
use qchain::poh::{verify_poh_sequence, Poh, PohEntry};
use qchain::programs::default_program_registry;
use qchain::pubkey::{Pubkey, PubkeyError};
use qchain::stake::{stake_program_id, StakeState, StakeStatus};
use qchain::stake_program::{StakeInstruction, StakeProgram};
use qchain::supply::total_units;
use qchain::system_program::{SystemInstruction, SystemProgram};
use qchain::transaction::{Instruction, InstructionData, Transaction};
use sha2::{Digest, Sha256};

fn keypair() -> Keypair {
    Keypair::generate().unwrap()
}

struct NoopProgram;

impl ProgramProcessor for NoopProgram {
    fn outcome(&self, _: Holdings, _: InstructionData, _: Pubkey) -> (Holdings, Option<TxFailure>) {
        unreachable!()
    }

    fn in_range(&self, _: Holdings, _: InstructionData, _: Pubkey) -> bool {
        unreachable!()
    }

    fn process(&self, _: &mut KeyMap<Account>, _: &Instruction, _: &Pubkey) -> Result<(), TxError> {
        Ok(())
    }
}

struct FailingProgram;

impl ProgramProcessor for FailingProgram {
    fn outcome(&self, _: Holdings, _: InstructionData, _: Pubkey) -> (Holdings, Option<TxFailure>) {
        unreachable!()
    }

    fn in_range(&self, _: Holdings, _: InstructionData, _: Pubkey) -> bool {
        unreachable!()
    }

    fn process(&self, _: &mut KeyMap<Account>, _: &Instruction, _: &Pubkey) -> Result<(), TxError> {
        Err(TxError::ProgramError("boom".to_string()))
    }
}

fn with_program(id: Pubkey, code: Box<dyn ProgramProcessor>) -> ProgramRegistry {
    let mut programs = ProgramRegistry::new();
    programs.insert(id, Program { code });
    programs
}

fn bare(program_id: Pubkey) -> Instruction {
    Instruction { program_id, accounts: vec![], data: vec![] }
}

#[test]
fn rejects_transactions_with_bad_signatures() {
    let payer = keypair();
    let ix = bare(Pubkey::system_program_id());
    let mut tx = Transaction::new_signed(&payer, [0u8; 32], vec![ix]).unwrap();
    tx.message.recent_blockhash = [9u8; 32];
    let mut ledger = Ledger::new();
    let programs = with_program(Pubkey::system_program_id(), Box::new(NoopProgram));
    let leader = Pubkey::system_program_id();
    assert!(matches!(ledger.apply_transaction(&tx, &programs, &leader, 0), Err(TxError::InvalidSignature)));
}

#[test]
fn fee_is_charged_to_payer_and_credited_to_leader() {
    let payer = keypair();
    let leader = keypair().pubkey();
    let mut ledger = Ledger::new();
    ledger.airdrop(payer.pubkey(), 10_000);

    let tx = Transaction::new_signed(&payer, [0u8; 32], vec![bare(Pubkey::system_program_id())]).unwrap();
    let programs = with_program(Pubkey::system_program_id(), Box::new(NoopProgram));

    ledger.apply_transaction(&tx, &programs, &leader, 500).unwrap();
    assert_eq!(ledger.get_balance(&payer.pubkey()), 9_500);
    assert_eq!(ledger.get_balance(&leader), 500);
}

#[test]
fn fee_is_charged_even_if_instruction_fails() {
    let payer = keypair();
    let leader = keypair().pubkey();
    let mut ledger = Ledger::new();
    ledger.airdrop(payer.pubkey(), 10_000);

    let program_id = Pubkey::new([2u8; 32]);
    let tx = Transaction::new_signed(&payer, [0u8; 32], vec![bare(program_id)]).unwrap();
    let programs = with_program(program_id, Box::new(FailingProgram));

    assert!(ledger.apply_transaction(&tx, &programs, &leader, 500).is_err());
    assert_eq!(ledger.get_balance(&payer.pubkey()), 9_500);
    assert_eq!(ledger.get_balance(&leader), 500);
}

#[test]
fn airdrop_credits_balance_directly() {
    let mut ledger = Ledger::new();
    let pk = keypair().pubkey();
    ledger.airdrop(pk, 5_000);
    assert_eq!(ledger.get_balance(&pk), 5_000);
}

#[test]
fn block_bookkeeping() {
    let mut ledger = Ledger::new();
    assert!(ledger.latest_block().is_none());
    let mut poh = Poh::new([0u8; 32]);
    let entry: PohEntry = poh.tick();
    ledger.push_block(Block {
        slot: 1,
        leader: keypair().pubkey(),
        previous_blockhash: [0u8; 32],
        blockhash: entry.hash,
        poh_entries: vec![entry.clone()],
        transactions: vec![],
        airdrops: vec![],
    });
    assert_eq!(ledger.latest_block().unwrap().blockhash, entry.hash);
}

#[test]
fn tick_chain_is_verifiable() {
    let seed = [7u8; 32];
    let mut poh = Poh::new(seed);
    let entries: Vec<_> = (0..10).map(|_| poh.tick()).collect();
    assert!(verify_poh_sequence(seed, &entries));
}

#[test]
fn mixed_data_is_verifiable_and_order_dependent() {
    let seed = [3u8; 32];
    let mut poh = Poh::new(seed);
    let mut entries = vec![poh.tick()];
    entries.push(poh.record(b"tx-1"));
    entries.push(poh.tick());
    entries.push(poh.record(b"tx-2"));
    assert!(verify_poh_sequence(seed, &entries));
}

#[test]
fn tampering_breaks_verification() {
    let seed = [1u8; 32];
    let mut poh = Poh::new(seed);
    let mut entries = vec![poh.record(b"tx-1"), poh.tick()];
    entries[0].mixed_data = Some(b"tx-9".to_vec());
    assert!(!verify_poh_sequence(seed, &entries));
}

fn moving(payer: &Keypair) -> Transaction {
    let to = keypair().pubkey();
    let ix = Instruction { program_id: Pubkey::system_program_id(), accounts: vec![payer.pubkey(), to], data: vec![1, 2, 3] };
    Transaction::new_signed(payer, [0u8; 32], vec![ix]).unwrap()
}

#[test]
fn signed_transaction_verifies() {
    let payer = keypair();
    let tx = moving(&payer);
    assert!(tx.verify_signature());
}

#[test]
fn tampered_transaction_fails_verification() {
    let payer = keypair();
    let mut tx = moving(&payer);
    tx.message.instructions[0].data = vec![9, 9, 9];
    assert!(!tx.verify_signature());
}

#[test]
fn forged_key_bundle_fails_verification() {
    let payer = keypair();
    let attacker = keypair();
    let mut tx = moving(&payer);
    tx.message.payer_keys = attacker.public_key_bundle();
    assert!(!tx.verify_signature());
}

#[test]
fn sign_and_verify_roundtrip() {
    let kp = keypair();
    let msg = b"hello supersol";
    let sig = kp.sign(msg).unwrap();
    assert!(verify(&kp.public_key_bundle(), msg, &sig));
}

#[test]
fn tampered_message_fails_verification() {
    let kp = keypair();
    let sig = kp.sign(b"hello supersol").unwrap();
    assert!(!verify(&kp.public_key_bundle(), b"goodbye supersol", &sig));
}

#[test]
fn wrong_key_fails_verification() {
    let kp = keypair();
    let other = keypair();
    let sig = kp.sign(b"hello supersol").unwrap();
    assert!(!verify(&other.public_key_bundle(), b"hello supersol", &sig));
}

#[test]
fn keypair_bytes_roundtrip() {
    let kp = keypair();
    let bytes = kp.to_bytes();
    let kp2 = Keypair::from_bytes(&bytes).unwrap();
    assert_eq!(kp.pubkey(), kp2.pubkey());
    let sig = kp2.sign(b"hello supersol").unwrap();
    assert!(verify(&kp2.public_key_bundle(), b"hello supersol", &sig));
}

#[test]
fn pubkey_display_and_parse_roundtrip() {
    let kp = keypair();
    let s = kp.pubkey().to_string();
    let parsed: Pubkey = s.parse().unwrap();
    assert_eq!(kp.pubkey(), parsed);
}

#[test]
fn address_is_bound_to_both_public_keys() {
    let kp = keypair();
    let mut bundle = kp.public_key_bundle();
    bundle.ed25519[0] ^= 0xFF;
    assert_ne!(bundle.to_address(), kp.pubkey());
}

#[test]
fn writes_memo_data_into_owned_account() {
    let target = keypair().pubkey();
    let mut accounts = KeyMap::new();
    accounts.insert(target.to_bytes(), Account::new_wallet(memo_program_id()));
    let ix = Instruction { program_id: memo_program_id(), accounts: vec![target], data: b"hello".to_vec() };
    MemoProgram.process(&mut accounts, &ix, &target).unwrap();
    assert_eq!(accounts.get(&target.to_bytes()).unwrap().data, b"hello");
}

#[test]
fn rejects_writing_to_unowned_account() {
    let target = keypair().pubkey();
    let mut accounts = KeyMap::new();
    accounts.insert(target.to_bytes(), Account::new_wallet(Pubkey::system_program_id()));
    let ix = Instruction { program_id: memo_program_id(), accounts: vec![target], data: b"hello".to_vec() };
    assert!(MemoProgram.process(&mut accounts, &ix, &target).is_err());
}

fn stake_account(authority: Pubkey, balance: u64, status: StakeStatus) -> Account {
    let state = StakeState { authority, validator: Pubkey::system_program_id(), status };
    Account { balance, owner: stake_program_id(), data: state.encode(), executable: false }
}

fn state_of(accounts: &KeyMap<Account>, key: &Pubkey) -> StakeState {
    StakeState::decode(&accounts.get(&key.to_bytes()).unwrap().data).unwrap()
}

#[test]
fn initialize_sets_active_state() {
    let authority = keypair().pubkey();
    let stake_pk = keypair().pubkey();
    let mut accounts = KeyMap::new();
    accounts.insert(stake_pk.to_bytes(), Account::new_wallet(stake_program_id()));

    let ix = Instruction {
        program_id: stake_program_id(),
        accounts: vec![stake_pk],
        data: StakeInstruction::Initialize { authority, validator: Pubkey::system_program_id() }.encode(),
    };
    StakeProgram.process(&mut accounts, &ix, &authority).unwrap();

    let state = state_of(&accounts, &stake_pk);
    assert_eq!(state.status, StakeStatus::Active);
    assert_eq!(state.authority, authority);
}

#[test]
fn only_authority_can_deactivate() {
    let authority = keypair().pubkey();
    let attacker = keypair().pubkey();
    let stake_pk = keypair().pubkey();
    let mut accounts = KeyMap::new();
    accounts.insert(stake_pk.to_bytes(), stake_account(authority, 1_000, StakeStatus::Active));

    let ix = Instruction { program_id: stake_program_id(), accounts: vec![stake_pk], data: StakeInstruction::Deactivate.encode() };
    assert!(StakeProgram.process(&mut accounts, &ix, &attacker).is_err());
    StakeProgram.process(&mut accounts, &ix, &authority).unwrap();
    assert_eq!(state_of(&accounts, &stake_pk).status, StakeStatus::Deactivated);
}

#[test]
fn withdraw_requires_deactivation_first() {
    let authority = keypair().pubkey();
    let stake_pk = keypair().pubkey();
    let dest = keypair().pubkey();
    let mut accounts = KeyMap::new();
    accounts.insert(stake_pk.to_bytes(), stake_account(authority, 1_000, StakeStatus::Active));

    let withdraw_ix = Instruction {
        program_id: stake_program_id(),
        accounts: vec![stake_pk, dest],
        data: StakeInstruction::Withdraw { amount: 500 }.encode(),
    };
    assert!(
        StakeProgram.process(&mut accounts, &withdraw_ix, &authority).is_err(),
        "withdrawing an active (not yet deactivated) stake must fail"
    );

    let deactivate_ix =
        Instruction { program_id: stake_program_id(), accounts: vec![stake_pk], data: StakeInstruction::Deactivate.encode() };
    StakeProgram.process(&mut accounts, &deactivate_ix, &authority).unwrap();
    StakeProgram.process(&mut accounts, &withdraw_ix, &authority).unwrap();

    assert_eq!(accounts.get(&stake_pk.to_bytes()).unwrap().balance, 500);
    assert_eq!(accounts.get(&dest.to_bytes()).unwrap().balance, 500);
}

#[test]
fn transfer_moves_balance() {
    let a = Pubkey::system_program_id();
    let from = keypair().pubkey();
    let to = keypair().pubkey();
    let mut accounts = KeyMap::new();
    accounts.insert(from.to_bytes(), Account { balance: 1_000, owner: a, data: vec![], executable: false });

    let ix = Instruction { program_id: a, accounts: vec![from, to], data: SystemInstruction::Transfer { amount: 400 }.encode() };
    SystemProgram.process(&mut accounts, &ix, &from).unwrap();
    assert_eq!(accounts.get(&from.to_bytes()).unwrap().balance, 600);
    assert_eq!(accounts.get(&to.to_bytes()).unwrap().balance, 400);
}

#[test]
fn transfer_fails_on_insufficient_funds() {
    let a = Pubkey::system_program_id();
    let from = keypair().pubkey();
    let to = keypair().pubkey();
    let mut accounts = KeyMap::new();
    accounts.insert(from.to_bytes(), Account::new_wallet(a));

    let ix = Instruction { program_id: a, accounts: vec![from, to], data: SystemInstruction::Transfer { amount: 1 }.encode() };
    assert!(matches!(SystemProgram.process(&mut accounts, &ix, &from), Err(TxError::InsufficientFunds)));
}

#[test]
fn requests_have_the_bytes_that_borsh_gives_them() {
    let owner = Pubkey::new([3u8; 32]);
    let create = SystemInstruction::CreateAccount { units: 258, owner };
    let mut expected = vec![0u8, 2, 1, 0, 0, 0, 0, 0, 0];
    expected.extend_from_slice(&[3u8; 32]);
    assert_eq!(create.encode(), expected);
    assert_eq!(SystemInstruction::Transfer { amount: 1 }.encode(), vec![1, 1, 0, 0, 0, 0, 0, 0, 0]);
    assert_eq!(StakeInstruction::Deactivate.encode(), vec![1]);
    assert_eq!(StakeInstruction::Withdraw { amount: 7 }.encode(), vec![2, 7, 0, 0, 0, 0, 0, 0, 0]);
    assert!(SystemInstruction::decode(&[]).is_err());
    assert!(SystemInstruction::decode(&[7]).is_err());
    assert!(SystemInstruction::decode(&[1, 0, 0, 0, 0, 0, 0, 0, 0, 0]).is_err());
    assert!(StakeInstruction::decode(&[1]).is_ok());
}

#[test]
fn a_message_has_the_bytes_that_borsh_gives_it() {
    let payer = keypair();
    let tx = moving(&payer);
    let mut expected = payer.pubkey().to_bytes().to_vec();
    let bundle = payer.public_key_bundle();
    expected.extend_from_slice(&bundle.ed25519);
    expected.extend_from_slice(&borsh::to_vec(&bundle.mldsa).unwrap());
    expected.extend_from_slice(&[0u8; 32]);
    expected.extend_from_slice(&1u32.to_le_bytes());
    expected.extend_from_slice(&tx.message.instructions[0].program_id.to_bytes());
    expected.extend_from_slice(&2u32.to_le_bytes());
    expected.extend_from_slice(&tx.message.instructions[0].accounts[0].to_bytes());
    expected.extend_from_slice(&tx.message.instructions[0].accounts[1].to_bytes());
    expected.extend_from_slice(&borsh::to_vec(&vec![1u8, 2, 3]).unwrap());
    assert_eq!(tx.message.encode().unwrap(), expected);
}

#[test]
fn a_transaction_without_funds_or_program_is_refused() {
    let payer = keypair();
    let leader = keypair().pubkey();
    let programs = default_program_registry();
    let mut ledger = Ledger::new();
    let tx = Transaction::new_signed(&payer, [0u8; 32], vec![bare(Pubkey::new([77u8; 32]))]).unwrap();
    assert!(matches!(ledger.apply_transaction(&tx, &programs, &leader, 500), Err(TxError::InsufficientFunds)));
    ledger.airdrop(payer.pubkey(), 1_000);
    let refusal = ledger.apply_transaction(&tx, &programs, &leader, 500).unwrap_err();
    assert!(matches!(refusal, TxError::UnknownProgram(k) if k == Pubkey::new([77u8; 32])));
    assert_eq!(ledger.get_balance(&payer.pubkey()), 500);
    assert_eq!(TxError::ProgramError("boom".to_string()).message(), "program error: boom");
}

#[test]
fn a_transfer_keeps_the_sum_of_all_balances() {
    let payer = keypair();
    let leader = keypair().pubkey();
    let to = keypair().pubkey();
    let programs = default_program_registry();
    let mut ledger = Ledger::new();
    ledger.airdrop(payer.pubkey(), 10_000);
    assert_eq!(total_units(&ledger), 10_000);
    let ix = Instruction {
        program_id: Pubkey::system_program_id(),
        accounts: vec![payer.pubkey(), to],
        data: SystemInstruction::Transfer { amount: 400 }.encode(),
    };
    let tx = Transaction::new_signed(&payer, [1u8; 32], vec![ix]).unwrap();
    ledger.apply_transaction(&tx, &programs, &leader, 500).unwrap();
    assert_eq!(ledger.get_balance(&to), 400);
    assert_eq!(total_units(&ledger), 10_000);
    assert_eq!(TREASURY_ALLOCATION_UNITS + STAKING_RESERVE_UNITS, TOTAL_SUPPLY_UNITS);
}

#[test]
fn an_airdrop_goes_no_higher_than_a_balance_can() {
    let mut ledger = Ledger::new();
    let key = Pubkey::new([1u8; 32]);
    ledger.airdrop(key, u64::MAX);
    ledger.airdrop(key, 5);
    assert_eq!(ledger.get_balance(&key), u64::MAX);
    assert!(ledger.get_account(&Pubkey::new([2u8; 32])).is_none());
}

#[test]
fn an_address_that_is_no_address_is_refused_in_words() {
    let wrong = Pubkey::parse("11");
    assert!(matches!(wrong, Err(PubkeyError::WrongLength(2))));
    assert_eq!(wrong.err().unwrap().message(), "invalid pubkey: expected 32 bytes, got 2");
    assert!("not-base58-0OIl".parse::<Pubkey>().is_err());
    assert_eq!(Pubkey::system_program_id().to_string(), bs58::encode([0u8; 32]).into_string());
}

#[test]
fn clocks_mix_the_hash_before_with_the_data() {
    let mut poh = Poh::new([5u8; 32]);
    let entry = poh.record(b"data");
    let mut hasher = Sha256::new();
    hasher.update([5u8; 32]);
    hasher.update(b"data");
    let expected: [u8; 32] = hasher.finalize().into();
    assert_eq!(entry.hash, expected);
    assert_eq!(poh.current_hash(), expected);
    assert_eq!(poh.tick_height(), 1);
    assert_eq!(entry.tick_height, 1);
}

#[test]
fn a_keypair_of_another_length_is_refused() {
    assert!(Keypair::from_bytes(&[0u8; 10]).is_err());
    let mut bytes = keypair().to_bytes();
    bytes.push(0);
    assert!(Keypair::from_bytes(&bytes).is_err());
}

#[test]
fn a_keypair_that_is_refused_says_why() {
    let mut bytes = keypair().to_bytes();
    bytes[..32].copy_from_slice(&[7u8; 32]);
    let said = Keypair::from_bytes(&bytes).err().unwrap().message();
    assert_eq!(
        said,
        "invalid ed25519 keypair bytes: signature error: Mismatched Keypair detected"
    );
    let mut bytes = keypair().to_bytes();
    for b in &mut bytes[64 + 128..64 + 128 + 640] {
        *b = 0xff;
    }
    let said = Keypair::from_bytes(&bytes).err().unwrap().message();
    assert!(said.starts_with("invalid ML-DSA-65 secret key: "));
    assert!(said.len() > "invalid ML-DSA-65 secret key: ".len());
}

#[test]
fn a_keypair_is_written_as_it_will_be_read() {
    let (bytes, read) = Keypair::generate_bytes().unwrap();
    assert_eq!(read.to_bytes(), bytes);
    assert_eq!(Keypair::from_bytes(&bytes).unwrap().pubkey(), read.pubkey());
    let (same, again) = Keypair::read_back(Some(read)).unwrap();
    assert_eq!((&same, again.to_bytes()), (&bytes, bytes.clone()));
    assert!(Keypair::read_back(None).is_none());
}

#[test]
fn a_block_is_found_by_its_slot() {
    let block = |slot: u64| Block {
        slot,
        leader: Pubkey::new([0u8; 32]),
        previous_blockhash: [0u8; 32],
        blockhash: [0u8; 32],
        poh_entries: vec![],
        transactions: vec![],
        airdrops: vec![],
    };
    let log = vec![block(3), block(5)];
    assert_eq!(find_block(&log, 5), Some(1));
    assert_eq!(find_block(&log, 4), None);
}

#[test]
fn a_stake_goes_in_and_comes_out() {
    let authority = keypair().pubkey();
    let stranger = keypair().pubkey();
    let stake_pk = keypair().pubkey();
    let mut accounts = KeyMap::new();
    accounts.insert(stake_pk.to_bytes(), stake_account(authority, 1_000, StakeStatus::Deactivated));
    let take = |amount: u64| Instruction {
        program_id: stake_program_id(),
        accounts: vec![stake_pk, authority],
        data: StakeInstruction::Withdraw { amount }.encode(),
    };
    assert!(StakeProgram.process(&mut accounts, &take(1), &stranger).is_err());
    assert!(matches!(StakeProgram.process(&mut accounts, &take(1_001), &authority), Err(TxError::InsufficientFunds)));
    StakeProgram.process(&mut accounts, &take(1_000), &authority).unwrap();
    assert_eq!(accounts.get(&stake_pk.to_bytes()).unwrap().balance, 0);
    assert_eq!(accounts.get(&authority.to_bytes()).unwrap().balance, 1_000);
}

#[test]
fn keys_and_signatures_are_put_together_from_their_halves() {
    let kp = keypair();
    let bytes = kp.to_bytes();
    let secret: [u8; 32] = bytes[..32].try_into().unwrap();
    let pair = MlDsaPair { public: kp.public_key_bundle().mldsa, secret: bytes[64..].to_vec() };
    let again = Keypair::from_generated(Some(secret), Some(pair)).unwrap();
    assert_eq!(again.to_bytes(), bytes);
    assert!(Keypair::from_generated(Some(secret), None).is_none());
    let pair = MlDsaPair { public: kp.public_key_bundle().mldsa, secret: bytes[64..].to_vec() };
    assert!(Keypair::from_generated(None, Some(pair)).is_none());

    let signed = kp.sign(b"halves").unwrap();
    let same = again.sign_with(b"halves", Some(signed.mldsa.clone())).unwrap();
    assert_eq!(same.ed25519.to_bytes(), signed.ed25519.to_bytes());
    assert!(verify(&kp.public_key_bundle(), b"halves", &same));
    assert!(kp.sign_with(b"halves", None).is_none());

    let tx = moving(&kp);
    let id = tx.hash();
    assert_eq!(Transaction::with_signature(tx.message, Some(tx.signature)).unwrap().hash(), id);
    assert!(Transaction::with_signature(moving(&kp).message, None).is_none());
}
