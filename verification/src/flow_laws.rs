//! What comes of it in the end: what a client or a wallet asks for is what the ledger does.
use crate::client::{create_stake_data, stake_data, transfer_data};
use crate::codec::le_value;
use crate::ledger::{applied, run_all, Program};
use crate::ledger_laws::{
    held, is_stake_of, law_instructions_run_in_turn, law_stakes_are_deactivated,
    law_stakes_are_opened, law_stakes_are_withdrawn, law_system_program_opens_accounts,
    law_transactions_are_carried_out, law_transfers_move_the_amount, Books,
};
use crate::node_laws::law_clients_ask_the_programs;
use crate::pubkey::Pubkey;
use crate::request_laws::{all_bytes_are, law_transfer_says_who_and_how_much};
use crate::stake_program::{stake_outcome, StakeInstruction};
use crate::system_program::system_outcome;
use crate::transaction::{transaction_good, InstructionData, Transaction};
use crate::wallet_derive::{address_named, Role};
use crate::wallet_requests::{wanted, Ask};
use vstd::prelude::*;

verus! {

/// The system program and the stake program can be called under their addresses.
pub open spec fn has_programs(programs: Map<[u8; 32], Program>, system: Pubkey, stakes: Pubkey) -> bool {
    &&& all_bytes_are(system, 0)
    &&& all_bytes_are(stakes, 3)
    &&& programs.contains_key(system.0)
    &&& programs.contains_key(stakes.0)
    &&& forall|m: Books, i: InstructionData, p: Pubkey| #[trigger]
        programs[system.0].code.outcome(m, i, p) == system_outcome(m, i, p)
    &&& forall|m: Books, i: InstructionData, p: Pubkey| #[trigger]
        programs[stakes.0].code.outcome(m, i, p) == stake_outcome(m, i, p)
}

proof fn lemma_same_address(a: Pubkey, b: Pubkey, byte: u8)
    requires
        all_bytes_are(a, byte),
        all_bytes_are(b, byte),
    ensures
        a == b,
{
    assert(a.0 =~= b.0);
}

/// A signed transaction with a client's transfer in it moves the units from its payer to the
/// receiver, and the fee to the collector, where the payer has both.
pub proof fn law_transfers_reach_their_receiver(
    m: Books,
    tx: Transaction,
    programs: Map<[u8; 32], Program>,
    system: Pubkey,
    stakes: Pubkey,
    collector: Pubkey,
    fee: u64,
    to: Pubkey,
    units: u64,
)
    requires
        transaction_good(tx),
        tx.message@.instructions == seq![transfer_data(tx.message.payer, to, units)],
        has_programs(programs, system, stakes),
        tx.message.payer != to,
        tx.message.payer != collector,
        to != collector,
        held(m, tx.message.payer) >= fee + units,
        held(m, to) + units <= u64::MAX,
        held(m, collector) + fee <= u64::MAX,
    ensures
        ({
            let payer = tx.message.payer;
            let r = applied(m, tx, programs, collector, fee);
            &&& r.1 is None
            &&& held(r.0, payer) == held(m, payer) - fee - units
            &&& held(r.0, to) == held(m, to) + units
            &&& held(r.0, collector) == held(m, collector) + fee
            &&& forall|k: Pubkey|
                k != payer && k != to && k != collector ==> #[trigger] held(r.0, k) == held(m, k)
        }),
{
    let payer = tx.message.payer;
    let call = transfer_data(payer, to, units);
    let paid = law_transactions_are_carried_out(m, tx, programs, collector, fee);
    law_clients_ask_the_programs(payer, to, units, Seq::empty(), payer, payer);
    lemma_same_address(call.program_id, system, 0);
    law_instructions_run_in_turn(programs, paid, call, Seq::empty(), payer);
    assert(seq![call] + Seq::<InstructionData>::empty() =~= seq![call]);
    assert(le_value(call.data.subrange(1, 9)) == units);
    crate::ledger_laws::law_system_program_transfers(paid, call, payer);
    law_transfers_move_the_amount(paid, payer, to, units);
    let done = programs[system.0].code.outcome(paid, call, payer);
    assert(held(paid, payer) == held(m, payer) - fee);
    assert(held(paid, to) == held(m, to)) by {
        assert(paid.contains_key(to.0) <==> m.contains_key(to.0));
    }
    law_instructions_run_in_turn(programs, done.0, call, Seq::empty(), payer);
    assert forall|k: Pubkey| k != payer && k != to && k != collector implies #[trigger] held(
        done.0,
        k,
    ) == held(m, k) by {
        assert(done.0.contains_key(k.0) <==> paid.contains_key(k.0));
        assert(paid.contains_key(k.0) <==> m.contains_key(k.0));
    }
    assert(done.0.contains_key(collector.0) <==> paid.contains_key(collector.0));
}

/// What a wallet asks for where it transfers is what a client asks for.
pub proof fn law_wallets_and_clients_ask_alike(payer: Pubkey, ask: Ask)
    ensures
        ask matches Ask::Transfer { to, amount } ==> (address_named(to@) matches Some(k) ==> wanted(
            payer,
            ask,
        ) == Ok::<InstructionData, Role>(transfer_data(payer, k, amount))),
{
    if let Ask::Transfer { to, amount } = ask {
        if let Some(k) = address_named(to@) {
            let call = transfer_data(payer, k, amount);
            law_transfer_says_who_and_how_much(payer, ask);
            law_clients_ask_the_programs(payer, k, amount, Seq::empty(), payer, payer);
            lemma_same_address(call.program_id, wanted(payer, ask)->Ok_0.program_id, 0);
            let a = call.data;
            let b = wanted(payer, ask)->Ok_0.data;
            crate::codec::lemma_le_value_round_trip(a.subrange(1, 9));
            crate::codec::lemma_le_value_round_trip(b.subrange(1, 9));
            assert(a.subrange(1, 9) == b.subrange(1, 9));
            assert forall|i: int| 0 <= i < 9 implies a[i] == b[i] by {
                if i > 0 {
                    assert(a.subrange(1, 9)[i - 1] == b.subrange(1, 9)[i - 1]);
                }
            }
            assert(a =~= b);
        }
    }
}

/// What is staked comes back: a client that opens a stake with some units, deactivates it and
/// withdraws them has in the end what it had, and the stake holds nothing.
pub proof fn law_stakes_come_back(
    m: Books,
    programs: Map<[u8; 32], Program>,
    system: Pubkey,
    stakes: Pubkey,
    payer: Pubkey,
    stake: Pubkey,
    validator: Pubkey,
    units: u64,
)
    requires
        has_programs(programs, system, stakes),
        payer != stake,
        !m.contains_key(stake.0),
        m.contains_key(payer.0),
        held(m, payer) >= units,
    ensures
        ({
            let calls = seq![
                create_stake_data(stake, units),
                stake_data(
                    seq![stake],
                    StakeInstruction::Initialize { authority: payer, validator },
                ),
                stake_data(seq![stake], StakeInstruction::Deactivate),
                stake_data(seq![stake, payer], StakeInstruction::Withdraw { amount: units }),
            ];
            let r = run_all(programs, m, calls, payer);
            &&& r.1 is None
            &&& held(r.0, payer) == held(m, payer)
            &&& held(r.0, stake) == 0
            &&& forall|k: Pubkey|
                k != payer && k != stake ==> #[trigger] held(r.0, k) == held(m, k)
        }),
{
    let none = Seq::<InstructionData>::empty();
    let c0 = create_stake_data(stake, units);
    let c1 = stake_data(
        seq![stake],
        StakeInstruction::Initialize { authority: payer, validator },
    );
    let c2 = stake_data(seq![stake], StakeInstruction::Deactivate);
    let c3 = stake_data(seq![stake, payer], StakeInstruction::Withdraw { amount: units });
    let calls = seq![c0, c1, c2, c3];
    law_clients_ask_the_programs(payer, stake, units, seq![stake], payer, validator);
    law_clients_ask_the_programs(payer, stake, units, seq![stake, payer], payer, validator);
    lemma_same_address(c0.program_id, system, 0);
    lemma_same_address(c1.program_id, stakes, 3);
    assert(c2.program_id == c1.program_id && c3.program_id == c1.program_id);
    assert(calls =~= seq![c0] + seq![c1, c2, c3]);
    assert(seq![c1, c2, c3] =~= seq![c1] + seq![c2, c3]);
    assert(seq![c2, c3] =~= seq![c2] + seq![c3]);
    assert(seq![c3] =~= seq![c3] + none);
    assert(le_value(c0.data.subrange(1, 9)) == units);
    assert(le_value(c3.data.subrange(1, 9)) == units);
    // The account is opened, for the stake program.
    assert(c0.data.subrange(9, 41) =~= stakes.0@);
    law_system_program_opens_accounts(m, c0, payer, stakes);
    let m1 = programs[system.0].code.outcome(m, c0, payer).0;
    law_instructions_run_in_turn(programs, m, c0, seq![c1, c2, c3], payer);
    assert(m1[stake.0].owner == stakes);
    // The stake is written into it.
    law_stakes_are_opened(m1, c1, payer, payer, validator);
    let m2 = programs[stakes.0].code.outcome(m1, c1, payer).0;
    law_instructions_run_in_turn(programs, m1, c1, seq![c2, c3], payer);
    let d2 = m2[stake.0].data;
    assert(d2.subrange(0, 32) =~= payer.0@);
    assert(d2.subrange(32, 64) =~= validator.0@);
    assert(is_stake_of(m2[stake.0], payer, validator));
    // It is deactivated.
    law_stakes_are_deactivated(m2, c2, payer, payer, validator);
    let m3 = programs[stakes.0].code.outcome(m2, c2, payer).0;
    law_instructions_run_in_turn(programs, m2, c2, seq![c3], payer);
    let d3 = m3[stake.0].data;
    assert(d3.subrange(0, 32) =~= payer.0@);
    assert(d3.subrange(32, 64) =~= validator.0@);
    assert(is_stake_of(m3[stake.0], payer, validator));
    // The units are withdrawn.
    assert(m3.contains_key(payer.0) <==> m2.contains_key(payer.0));
    assert(m2.contains_key(payer.0) <==> m1.contains_key(payer.0));
    assert(held(m3, payer) == held(m, payer) - units);
    law_stakes_are_withdrawn(m3, c3, payer, payer, validator);
    let m4 = programs[stakes.0].code.outcome(m3, c3, payer).0;
    law_instructions_run_in_turn(programs, m3, c3, none, payer);
    law_instructions_run_in_turn(programs, m4, c3, none, payer);
    assert forall|k: Pubkey| k != payer && k != stake implies #[trigger] held(m4, k) == held(m, k) by {
        assert(m4.contains_key(k.0) <==> m3.contains_key(k.0));
        assert(m3.contains_key(k.0) <==> m2.contains_key(k.0));
        assert(m2.contains_key(k.0) <==> m1.contains_key(k.0));
        assert(m1.contains_key(k.0) <==> m.contains_key(k.0));
    }
}

} // verus!
