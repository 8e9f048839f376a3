use qchain::account::{Account, BASE_FEE_UNITS, STAKING_RESERVE_UNITS, TOTAL_SUPPLY_UNITS, TREASURY_ALLOCATION_UNITS};
use qchain::client::{resolve_pubkey, stake_instructions, transfer_instruction, unstake_instruction, withdraw_instruction};
use qchain::hextext::hash_from_hex;
use qchain::keys::Keypair;
use qchain::ledger::{Ledger, Program};
use qchain::node::{ends_epoch, Genesis, MetaFile, NodeState, Param, RpcReply, RpcRequest};
use qchain::memo_program::memo_program_id;
use qchain::poh::verify_poh_sequence;
use qchain::pubkey::Pubkey;
use qchain::stake::{stake_program_id, StakeState, StakeStatus};
use qchain::stake_program::StakeProgram;
use qchain::supply::total_units;
use qchain::transaction::{Instruction, Transaction};

fn node() -> NodeState {
    NodeState::fresh(Genesis { poh_seed: [5u8; 32] }, Pubkey::new([8u8; 32]), true, 1_000_000, BASE_FEE_UNITS)
}

fn ask(n: &mut NodeState, method: &str, params: Vec<Param>) -> Result<RpcReply, String> {
    n.dispatch(&RpcRequest { method: method.to_string(), params }, None)
}

fn text(k: &Pubkey) -> Param {
    Param::Text(k.to_string())
}

fn balance(n: &mut NodeState, k: &Pubkey) -> u64 {
    match ask(n, "getBalance", vec![text(k)]) {
        Ok(RpcReply::Balance(units)) => units,
        other => panic!("expected a balance, got {other:?}"),
    }
}

#[test]
fn the_whole_supply_is_there_from_the_beginning() {
    let mut n = node();
    assert_eq!(total_units(&n.ledger), TOTAL_SUPPLY_UNITS as u128);
    assert_eq!(balance(&mut n, &Pubkey::treasury()), TREASURY_ALLOCATION_UNITS);
    assert_eq!(balance(&mut n, &Pubkey::staking_rewards_pool()), STAKING_RESERVE_UNITS);
    match ask(&mut n, "getSupply", vec![]).unwrap() {
        RpcReply::Supply { total_units, circulating_units, treasury_units } => {
            assert_eq!((total_units, treasury_units), (TOTAL_SUPPLY_UNITS, TREASURY_ALLOCATION_UNITS));
            assert_eq!(circulating_units, STAKING_RESERVE_UNITS);
        }
        other => panic!("expected the supply, got {other:?}"),
    }
}

#[test]
fn airdrops_come_out_of_the_treasury() {
    let mut n = node();
    let to = Keypair::generate().unwrap().pubkey();
    let done = ask(&mut n, "requestAirdrop", vec![text(&to), Param::Number(500)]).unwrap();
    match done {
        RpcReply::Airdropped { signature, slot } => {
            assert_eq!(slot, 0);
            assert_eq!(signature, hex::encode(n.poh.current_hash()));
        }
        other => panic!("expected an airdrop, got {other:?}"),
    }
    assert_eq!(balance(&mut n, &to), 500);
    assert_eq!(balance(&mut n, &Pubkey::treasury()), TREASURY_ALLOCATION_UNITS - 500);
    assert_eq!(total_units(&n.ledger), TOTAL_SUPPLY_UNITS as u128);
    assert_eq!(n.pending_airdrops, vec![(to, 500)]);
    let refused = ask(&mut n, "requestAirdrop", vec![text(&to), Param::Number(1_000_001)]);
    assert_eq!(refused.unwrap_err(), "amount exceeds faucet max of 1000000 units per request");
    assert_eq!(ask(&mut n, "requestAirdrop", vec![text(&to)]).unwrap_err(), "missing amount param (base units)");
    assert_eq!(ask(&mut n, "requestAirdrop", vec![]).unwrap_err(), "missing pubkey param");
    n.faucet_enabled = false;
    let refused = ask(&mut n, "requestAirdrop", vec![text(&to), Param::Number(1)]);
    assert_eq!(refused.unwrap_err(), "faucet disabled on this node (start it with --enable-faucet)");
}

#[test]
fn transactions_are_applied_and_end_up_in_a_block() {
    let mut n = node();
    let payer = Keypair::generate().unwrap();
    let to = Keypair::generate().unwrap().pubkey();
    ask(&mut n, "requestAirdrop", vec![text(&payer.pubkey()), Param::Number(10_000)]).unwrap();
    let tx = Transaction::new_signed(&payer, n.last_blockhash, vec![transfer_instruction(payer.pubkey(), to, 400)]).unwrap();
    let id = hex::encode(tx.hash());
    let request = RpcRequest { method: "sendTransaction".to_string(), params: vec![] };
    match n.dispatch(&request, Some(Ok(tx))).unwrap() {
        RpcReply::Sent { signature, slot, fee } => assert_eq!((signature, slot, fee), (id, 0, BASE_FEE_UNITS)),
        other => panic!("expected a signature, got {other:?}"),
    }
    assert_eq!(balance(&mut n, &to), 400);
    assert_eq!(balance(&mut n, &payer.pubkey()), 10_000 - 400 - BASE_FEE_UNITS);
    let leader = n.identity;
    assert_eq!(balance(&mut n, &leader), BASE_FEE_UNITS);
    n.tick();
    assert_eq!(n.pending_poh_entries.last().unwrap().tick_height, n.poh.tick_height());
    assert!(n.produce_block());
    assert!(!n.produce_block(), "there is nothing left for another block");
    let block = n.ledger.latest_block().unwrap();
    assert_eq!((block.slot, block.transactions.len(), block.airdrops.len(), block.poh_entries.len()), (1, 1, 1, 3));
    assert_eq!(block.previous_blockhash, [5u8; 32]);
    assert!(verify_poh_sequence([5u8; 32], &block.poh_entries));
    assert_eq!(block.blockhash, n.poh.current_hash());
    assert_eq!(n.slot, 1);
    let expected = hex::encode(n.last_blockhash);
    match ask(&mut n, "getLatestBlockhash", vec![]).unwrap() {
        RpcReply::Blockhash(text) => assert_eq!(text, expected),
        other => panic!("expected a hash, got {other:?}"),
    }
    assert_eq!(n.dispatch(&request, None).unwrap_err(), "missing transaction param");
    let refused = n.dispatch(&request, Some(Err("bad".to_string())));
    assert_eq!(refused.unwrap_err(), "invalid transaction: bad");
    let poor = Keypair::generate().unwrap();
    let tx = Transaction::new_signed(&poor, [0u8; 32], vec![]).unwrap();
    assert_eq!(n.dispatch(&request, Some(Ok(tx))).unwrap_err(), "insufficient funds");
    assert!(n.pending_txs.is_empty());
}

#[test]
fn questions_are_answered_from_what_there_is() {
    let mut n = node();
    assert!(matches!(ask(&mut n, "getHealth", vec![]), Ok(RpcReply::Health)));
    assert!(matches!(ask(&mut n, "getSlot", vec![]), Ok(RpcReply::Slot(0))));
    assert!(matches!(ask(&mut n, "getBlock", vec![Param::Number(3)]), Ok(RpcReply::BlockAt(3))));
    assert_eq!(ask(&mut n, "getBlock", vec![Param::Other]).unwrap_err(), "missing slot param");
    assert_eq!(ask(&mut n, "getNothing", vec![]).unwrap_err(), "unknown method: getNothing");
    match ask(&mut n, "getAccountInfo", vec![text(&Pubkey::treasury())]).unwrap() {
        RpcReply::Account { owner, balance, data, executable } => {
            assert_eq!(owner, Pubkey::system_program_id().to_string());
            assert_eq!((balance, data.as_str(), executable), (TREASURY_ALLOCATION_UNITS, "", false));
        }
        other => panic!("expected an account, got {other:?}"),
    }
    let nobody = Pubkey::new([77u8; 32]);
    assert!(matches!(ask(&mut n, "getAccountInfo", vec![text(&nobody)]), Ok(RpcReply::NoAccount)));
    let wrong = ask(&mut n, "getBalance", vec![Param::Text("11".to_string())]);
    assert_eq!(wrong.unwrap_err(), "invalid pubkey: expected 32 bytes, got 2");
}

#[test]
fn a_chain_is_taken_up_where_it_was_left_off() {
    let mut ledger = Ledger::new();
    ledger.airdrop(Pubkey::new([1u8; 32]), 9);
    let meta = MetaFile { slot: 12, last_blockhash: [3u8; 32] };
    let genesis = Genesis { poh_seed: [5u8; 32] };
    let n = NodeState::resumed(ledger, meta, genesis, Pubkey::new([8u8; 32]), false, 0, 1);
    assert!(n.balances_in_range());
    assert_eq!((n.slot, n.last_blockhash, n.ledger.get_balance(&Pubkey::new([1u8; 32]))), (12, [3u8; 32], 9));
    let mut rich = Ledger::new();
    rich.airdrop(Pubkey::new([1u8; 32]), u64::MAX);
    rich.airdrop(Pubkey::new([2u8; 32]), 1);
    let mut n = NodeState::resumed(rich, meta, genesis, Pubkey::new([8u8; 32]), false, 0, 1);
    assert!(!n.balances_in_range(), "it is taken up all the same");
    n.tick();
    assert!(n.produce_block());
    assert_eq!((n.slot, n.ledger.get_balance(&Pubkey::new([1u8; 32]))), (13, u64::MAX));
    assert!(ends_epoch(10, 5) && !ends_epoch(11, 5) && !ends_epoch(10, 0));
}

#[test]
fn every_node_ships_with_its_programs() {
    let payer = Keypair::generate().unwrap();
    let to = Pubkey::new([6u8; 32]);
    let mut ledger = Ledger::new();
    ledger.airdrop(payer.pubkey(), 10_000);
    let meta = MetaFile { slot: 12, last_blockhash: [3u8; 32] };
    let genesis = Genesis { poh_seed: [5u8; 32] };
    let mut n = NodeState::resumed(ledger, meta, genesis, Pubkey::new([8u8; 32]), false, 0, 1);
    let send = RpcRequest { method: "sendTransaction".to_string(), params: vec![] };
    let mut run = |n: &mut NodeState, ix: Instruction| {
        let tx = Transaction::new_signed(&payer, [0u8; 32], vec![ix]).unwrap();
        n.dispatch(&send, Some(Ok(tx)))
    };
    run(&mut n, transfer_instruction(payer.pubkey(), to, 400)).unwrap();
    assert_eq!(balance(&mut n, &to), 400);
    let nowhere = Instruction { program_id: Pubkey::new([9u8; 32]), accounts: vec![], data: vec![] };
    assert_eq!(run(&mut n, nowhere).unwrap_err(), format!("unknown program: {}", Pubkey::new([9u8; 32]).to_string()));
    let memo = Instruction { program_id: memo_program_id(), accounts: vec![], data: vec![1] };
    assert!(!run(&mut n, memo).unwrap_err().starts_with("unknown program"), "the memo program misses an account");
}

#[test]
fn a_client_stakes_and_takes_out_again() {
    let owner = Keypair::generate().unwrap();
    let leader = Pubkey::new([8u8; 32]);
    let stake = Keypair::generate().unwrap().pubkey();
    let mut n = node();
    n.programs.insert(stake_program_id(), Program { code: Box::new(StakeProgram) });
    ask(&mut n, "requestAirdrop", vec![text(&owner.pubkey()), Param::Number(100_000)]).unwrap();
    let send = RpcRequest { method: "sendTransaction".to_string(), params: vec![] };
    let mut run = |n: &mut NodeState, list| {
        let tx = Transaction::new_signed(&owner, [0u8; 32], list).unwrap();
        n.dispatch(&send, Some(Ok(tx)))
    };
    run(&mut n, stake_instructions(owner.pubkey(), stake, leader, 50_000)).unwrap();
    assert_eq!(balance(&mut n, &stake), 50_000);
    assert!(run(&mut n, vec![withdraw_instruction(stake, owner.pubkey(), 1)]).is_err(), "still active");
    run(&mut n, vec![unstake_instruction(stake)]).unwrap();
    run(&mut n, vec![withdraw_instruction(stake, owner.pubkey(), 50_000)]).unwrap();
    assert_eq!(balance(&mut n, &stake), 0);
    assert_eq!(balance(&mut n, &owner.pubkey()), 100_000 - 4 * BASE_FEE_UNITS);
}

#[test]
fn texts_stand_for_keys_and_hashes() {
    let key = Pubkey::new([7u8; 32]);
    assert_eq!(resolve_pubkey(&key.to_string(), None).unwrap(), key);
    assert_eq!(resolve_pubkey("file.json", Some(key)).unwrap(), key);
    let refused = resolve_pubkey("file.json", None).unwrap_err();
    assert_eq!(refused, "'file.json' is neither a valid base58 address nor a readable keypair file");
    assert_eq!(hash_from_hex(&hex::encode([9u8; 32])).unwrap(), [9u8; 32]);
    assert_eq!(hash_from_hex("0").unwrap_err().message(), "Odd number of digits");
    assert_eq!(hash_from_hex("00").unwrap_err().message(), "expected 32 bytes, got 1");
    for wrong in ["0g", "zz", "é0", "0'", "a\u{1}"] {
        let reason = hex::decode(wrong).unwrap_err().to_string();
        assert_eq!(hash_from_hex(wrong).unwrap_err().message(), reason);
    }
}

#[test]
fn the_reserve_pays_the_active_stakes_by_their_part() {
    let pool = Pubkey::staking_rewards_pool();
    let key = |b: u8| Pubkey::new([b; 32]);
    let put = |ledger: &mut Ledger, at: Pubkey, balance: u64, status: StakeStatus| {
        let state = StakeState { authority: key(9), validator: key(8), status };
        let account = Account { balance, owner: stake_program_id(), data: state.encode(), executable: false };
        ledger.accounts.insert(at.to_bytes(), account);
    };
    let fresh = || {
        let mut ledger = Ledger::new();
        ledger.airdrop(pool, 100);
        ledger.airdrop(key(7), 5);
        put(&mut ledger, key(10), 1, StakeStatus::Active);
        put(&mut ledger, key(11), 2, StakeStatus::Active);
        put(&mut ledger, key(12), 50, StakeStatus::Deactivated);
        ledger
    };
    let held = |l: &Ledger| [10, 11, 12, 7].map(|b| l.get_balance(&key(b)));

    let mut ledger = fresh();
    assert_eq!(ledger.distribute_staking_rewards(pool, 10), 9, "three and six, and one is left over");
    assert_eq!((held(&ledger), ledger.get_balance(&pool)), ([4, 8, 50, 5], 91));
    let mut ledger = fresh();
    assert_eq!(ledger.distribute_staking_rewards(pool, 1_000), 99, "no more than the reserve has");
    assert_eq!((held(&ledger), ledger.get_balance(&pool)), ([34, 68, 50, 5], 1));
    assert_eq!(ledger.distribute_staking_rewards(pool, 0), 0, "nothing switches them off");
    let mut bare = Ledger::new();
    bare.airdrop(pool, 100);
    assert_eq!((bare.distribute_staking_rewards(pool, 10), bare.get_balance(&pool)), (0, 100));

    let meta = MetaFile { slot: 20, last_blockhash: [3u8; 32] };
    let genesis = Genesis { poh_seed: [5u8; 32] };
    let mut n = NodeState::resumed(fresh(), meta, genesis, key(8), false, 0, 1);
    assert_eq!(n.pay_rewards(7, 10), 0, "the epoch is not over");
    assert_eq!(n.pay_rewards(5, 10), 9);
    assert_eq!(held(&n.ledger), [4, 8, 50, 5]);
}

#[test]
fn a_node_lets_go_of_old_blocks() {
    let meta = MetaFile { slot: 0, last_blockhash: [3u8; 32] };
    let mut n = NodeState::resumed(Ledger::new(), meta, Genesis { poh_seed: [5u8; 32] }, Pubkey::new([8u8; 32]), false, 0, 1);
    for _ in 0..4 {
        n.tick();
        assert!(n.produce_block());
    }
    n.keep_recent_blocks(9);
    assert_eq!(n.ledger.blocks.len(), 4);
    n.keep_recent_blocks(2);
    assert_eq!(n.ledger.blocks.iter().map(|b| b.slot).collect::<Vec<_>>(), vec![3, 4]);
    n.keep_recent_blocks(0);
    assert!(n.ledger.blocks.is_empty());
    assert_eq!(n.slot, 4);
}
