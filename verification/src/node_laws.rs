//! What a node answers and does, and what a client asks of it.
use crate::block::Block;
use crate::client::{create_stake_data, stake_data, transfer_data, unresolved};
use crate::codec::{le_bytes, lemma_le_bytes_len, lemma_le_round_trip, lemma_pow256};
use crate::hash::sha256;
use crate::hextext::hex_chars;
use crate::layout_laws::number_at;
use crate::ledger::{applied, failure_words};
use crate::ledger_laws::{held, law_treasury_pays_out, now_holds, others_stay};
use crate::node::{
    address_param, airdrop_done, airdropped_from, answered, blocks_are_linked, follows,
    is_last_of_epoch, reply_of, sending_done, NodeState, Param, ReplyData, RpcReply,
};
use crate::pubkey::{base58, base58_decoded, treasury_bytes, Pubkey};
use crate::request_laws::{all_bytes_are, says_amount};
use crate::stake_program::StakeInstruction;
use crate::text::decimal;
use crate::transaction::{transaction_id, Transaction};
use vstd::prelude::*;
use vstd::string::*;
use vstd::utf8::*;

verus! {

/// The clock went on by one tick, over these bytes.
pub open spec fn ticked_over(a: NodeState, b: NodeState, data: Seq<u8>) -> bool {
    &&& b.poh.at() == sha256(a.poh.at()@ + data)
    &&& b.poh.height() == a.poh.height() + 1
}

/// The tick over these bytes is kept for the next block, after those that were.
pub open spec fn tick_is_kept(a: NodeState, b: NodeState, data: Seq<u8>) -> bool {
    let n = a.pending_poh_entries@.len() as int;
    &&& b.pending_poh_entries@.len() == n + 1
    &&& forall|i: int| 0 <= i < n ==> #[trigger] b.pending_poh_entries@[i] == a.pending_poh_entries@[i]
    &&& b.pending_poh_entries@[n].hash == b.poh.at()
    &&& b.pending_poh_entries@[n].tick_height == b.poh.height()
    &&& b.pending_poh_entries@[n].mixed_data matches Some(d) && d@ == data
}

/// Nothing that waits for the next block changed.
pub open spec fn nothing_more_waits(a: NodeState, b: NodeState) -> bool {
    &&& b.pending_txs == a.pending_txs
    &&& b.pending_airdrops == a.pending_airdrops
    &&& b.pending_poh_entries == a.pending_poh_entries
}

/// The node goes by the same rules and is at the same block.
pub open spec fn rules_and_tip_stay(a: NodeState, b: NodeState) -> bool {
    &&& b.programs == a.programs
    &&& b.identity == a.identity
    &&& b.faucet_enabled == a.faucet_enabled
    &&& b.faucet_max_units == a.faucet_max_units
    &&& b.fee_units == a.fee_units
    &&& b.slot == a.slot
    &&& b.last_blockhash == a.last_blockhash
    &&& b.ledger.blocks == a.ledger.blocks
}

/// A request for test funds that is in order: an address and a number.
pub open spec fn asks_for(params: Seq<Param>, to: Pubkey, amount: u64) -> bool {
    &&& params.len() >= 2
    &&& params[0] matches Param::Text(t) && base58_decoded(t@) == Ok::<Seq<u8>, Seq<char>>(to.0@)
    &&& params[1] == Param::Number(amount)
}

/// Test funds are given where the faucet is on, the amount is at most its largest, and the
/// treasury has it: the treasury pays it to the address, and the payment waits for the next
/// block. Otherwise nothing is paid, and the reason is told.
pub proof fn law_airdrops_are_paid_by_the_treasury(
    a: NodeState,
    b: NodeState,
    params: Seq<Param>,
    r: Result<RpcReply, String>,
    to: Pubkey,
    amount: u64,
    treasury: Pubkey,
)
    requires
        airdrop_done(a, b, params, r),
        asks_for(params, to, amount),
        treasury.0@ == treasury_bytes(),
        held(a.ledger.data(), to) + amount <= u64::MAX,
    ensures
        ({
            let m = a.ledger.data();
            let data = encode_utf8(
                "airdrop:"@ + base58(to.0@) + ":"@ + decimal(amount as nat),
            );
            let rich = m.contains_key(treasury.0) && m[treasury.0].balance >= amount;
            &&& rules_and_tip_stay(a, b)
            &&& !a.faucet_enabled ==> a == b && (r matches Err(e) && e@
                == "faucet disabled on this node (start it with --enable-faucet)"@)
            &&& a.faucet_enabled && amount > a.faucet_max_units ==> a == b && (r matches Err(e)
                && e@ == "amount exceeds faucet max of "@ + decimal(a.faucet_max_units as nat)
                + " units per request"@)
            &&& a.faucet_enabled && amount <= a.faucet_max_units && !rich ==> {
                &&& b.ledger.data() == m
                &&& nothing_more_waits(a, b)
                &&& ticked_over(a, b, data)
                &&& r matches Err(e) && e@ == "insufficient funds"@
            }
            &&& a.faucet_enabled && amount <= a.faucet_max_units && rich ==> {
                &&& others_stay(m, b.ledger.data(), treasury, to)
                &&& treasury == to ==> now_holds(m, b.ledger.data(), to, held(m, to))
                &&& treasury != to ==> now_holds(
                    m,
                    b.ledger.data(),
                    treasury,
                    held(m, treasury) - amount,
                ) && now_holds(m, b.ledger.data(), to, held(m, to) + amount)
                &&& b.pending_txs == a.pending_txs
                &&& b.pending_airdrops@ == a.pending_airdrops@.push((to, amount))
                &&& ticked_over(a, b, data)
                &&& tick_is_kept(a, b, data)
                &&& r matches Ok(RpcReply::Airdropped { signature, slot }) && slot == a.slot
                    && signature@ == hex_chars(b.poh.at()@)
            }
        }),
{
    assert(address_param(params, 0) == Ok::<Seq<u8>, Seq<char>>(to.0@));
    if a.faucet_enabled && amount <= a.faucet_max_units {
        let (t, k): (Pubkey, Pubkey) = choose|t: Pubkey, k: Pubkey| #[trigger]
            airdropped_from(a, b, t, k, amount, params, r);
        assert(airdropped_from(a, b, t, k, amount, params, r));
        assert(t.0 =~= treasury.0);
        assert(k.0 =~= to.0);
        law_treasury_pays_out(a.ledger.data(), treasury, to, amount);
        lemma_reply(r);
        let n = a.pending_poh_entries@.len() as int;
        if b.pending_poh_entries@.len() == n + 1 {
            assert(forall|i: int|
                0 <= i < n ==> #[trigger] b.pending_poh_entries@[i]
                    == b.pending_poh_entries@.drop_last()[i]);
        }
    }
}

proof fn lemma_reply(r: Result<RpcReply, String>)
    ensures
        reply_of(r) matches Ok(ReplyData::Airdropped { signature, slot }) ==> (r matches Ok(
            RpcReply::Airdropped { signature: s, slot: t },
        ) && s@ == signature && t == slot),
        reply_of(r) matches Ok(ReplyData::Sent { signature, slot, fee }) ==> (r matches Ok(
            RpcReply::Sent { signature: s, slot: t, fee: f },
        ) && s@ == signature && t == slot && f == fee),
        reply_of(r) matches Err(words) ==> (r matches Err(e) && e@ == words),
{
}

/// Requests for test funds that are not in order are told so and change nothing.
pub proof fn law_airdrops_that_ask_for_nothing(
    a: NodeState,
    b: NodeState,
    params: Seq<Param>,
    r: Result<RpcReply, String>,
)
    requires
        airdrop_done(a, b, params, r),
        a.faucet_enabled,
    ensures
        params.len() == 0 || !(params[0] is Text) ==> a == b && (r matches Err(e) && e@
            == "missing pubkey param"@),
        params.len() > 0 ==> (params[0] matches Param::Text(t) ==> {
            &&& base58_decoded(t@) matches Err(reason) ==> a == b && (r matches Err(e) && e@
                == reason)
            &&& base58_decoded(t@) matches Ok(k) ==> {
                &&& k.len() != 32 ==> a == b && (r matches Err(e) && e@
                    == "invalid pubkey: expected 32 bytes, got "@ + decimal(k.len()))
                &&& k.len() == 32 && (params.len() < 2 || !(params[1] is Number)) ==> a == b && (
                r matches Err(e) && e@ == "missing amount param (base units)"@)
            }
        }),
{
    lemma_reply(r);
}

/// A transaction that is sent is applied, with the fee of the node, which the node collects. One
/// that succeeds waits for the next block and is answered with its id; one that fails is told
/// why, and does not. Either way the clock goes on over its id.
pub proof fn law_transactions_are_applied(
    a: NodeState,
    b: NodeState,
    tx: Option<Result<Transaction, String>>,
    r: Result<RpcReply, String>,
)
    requires
        sending_done(a, b, tx, r),
    ensures
        rules_and_tip_stay(a, b),
        b.pending_airdrops == a.pending_airdrops,
        tx is None ==> a == b && (r matches Err(e) && e@ == "missing transaction param"@),
        tx matches Some(Err(why)) ==> a == b && (r matches Err(e) && e@ == "invalid transaction: "@
            + why@),
        tx matches Some(Ok(t)) ==> {
            let done = applied(a.ledger.data(), t, a.programs@, a.identity, a.fee_units);
            &&& b.ledger.data() == done.0
            &&& ticked_over(a, b, transaction_id(t)@)
            &&& done.1 matches Some(f) ==> nothing_more_waits(a, b) && (r matches Err(e) && e@
                == failure_words(f))
            &&& done.1 is None ==> {
                &&& b.pending_txs@ == a.pending_txs@.push(t)
                &&& tick_is_kept(a, b, transaction_id(t)@)
                &&& r matches Ok(RpcReply::Sent { signature, slot, fee }) && signature@
                    == hex_chars(transaction_id(t)@) && slot == a.slot && fee == a.fee_units
            }
        },
{
    lemma_reply(r);
    let n = a.pending_poh_entries@.len() as int;
    if b.pending_poh_entries@.len() == n + 1 {
        assert(forall|i: int|
            0 <= i < n ==> #[trigger] b.pending_poh_entries@[i]
                == b.pending_poh_entries@.drop_last()[i]);
    }
}

/// What is answered to questions that take no address, and to those that nobody knows.
pub proof fn law_plain_questions(
    n: NodeState,
    method: Seq<char>,
    params: Seq<Param>,
    r: Result<RpcReply, String>,
    treasury: Pubkey,
)
    requires
        answered(n, method, params, r),
        treasury.0@ == treasury_bytes(),
    ensures
        method == "getHealth"@ ==> r == Ok::<RpcReply, String>(RpcReply::Health),
        method == "getSlot"@ ==> r == Ok::<RpcReply, String>(RpcReply::Slot(n.slot)),
        method == "getLatestBlockhash"@ ==> (r matches Ok(RpcReply::Blockhash(t)) && t@
            == hex_chars(n.last_blockhash@)),
        method == "getSupply"@ ==> (r matches Ok(
            RpcReply::Supply { total_units, circulating_units, treasury_units },
        ) && total_units == 700_000_000_000_000_000 && treasury_units == held(
            n.ledger.data(),
            treasury,
        ) && circulating_units == if treasury_units > 700_000_000_000_000_000 {
            0
        } else {
            700_000_000_000_000_000 - treasury_units
        }),
        method == "getBlock"@ && params.len() > 0 ==> (params[0] matches Param::Number(k) ==> r
            == Ok::<RpcReply, String>(RpcReply::BlockAt(k))),
        method == "getBlock"@ && (params.len() == 0 || !(params[0] is Number)) ==> (r matches Err(e)
            && e@ == "missing slot param"@),
        method != "getHealth"@ && method != "getSlot"@ && method != "getLatestBlockhash"@ && method
            != "getSupply"@ && method != "getBalance"@ && method != "getAccountInfo"@ && method
            != "getBlock"@ ==> (r matches Err(e) && e@ == "unknown method: "@ + method),
{
    lemma_methods_differ();
    if method == "getSupply"@ {
        let t = choose|t: Pubkey|
            t.0@ == treasury_bytes() && reply_of(r) == Ok::<ReplyData, Seq<char>>(
                #[trigger] crate::node::supply_reply(n, t),
            );
        assert(t.0 =~= treasury.0);
    }
}

proof fn lemma_methods_differ()
    ensures
        "getHealth"@ != "getSlot"@,
        "getHealth"@ != "getLatestBlockhash"@,
        "getHealth"@ != "getSupply"@,
        "getHealth"@ != "getBalance"@,
        "getHealth"@ != "getAccountInfo"@,
        "getHealth"@ != "getBlock"@,
        "getSlot"@ != "getLatestBlockhash"@,
        "getSlot"@ != "getSupply"@,
        "getSlot"@ != "getBalance"@,
        "getSlot"@ != "getAccountInfo"@,
        "getSlot"@ != "getBlock"@,
        "getLatestBlockhash"@ != "getSupply"@,
        "getLatestBlockhash"@ != "getBalance"@,
        "getLatestBlockhash"@ != "getAccountInfo"@,
        "getLatestBlockhash"@ != "getBlock"@,
        "getSupply"@ != "getBalance"@,
        "getSupply"@ != "getAccountInfo"@,
        "getSupply"@ != "getBlock"@,
        "getBalance"@ != "getAccountInfo"@,
        "getBalance"@ != "getBlock"@,
        "getAccountInfo"@ != "getBlock"@,
{
    reveal_strlit("getHealth");
    reveal_strlit("getSlot");
    reveal_strlit("getLatestBlockhash");
    reveal_strlit("getSupply");
    reveal_strlit("getBalance");
    reveal_strlit("getAccountInfo");
    reveal_strlit("getBlock");
    assert("getHealth"@.len() == 9 && "getSlot"@.len() == 7 && "getLatestBlockhash"@.len() == 18
        && "getSupply"@.len() == 9 && "getBalance"@.len() == 10 && "getAccountInfo"@.len() == 14
        && "getBlock"@.len() == 8);
    assert("getHealth"@[3] == 'H' && "getSupply"@[3] == 'S');
}

/// What is answered to questions about an address: what it holds, nothing where it has no
/// account, and who owns its account, with its data in hexadecimal digits.
pub proof fn law_questions_about_addresses(
    n: NodeState,
    method: Seq<char>,
    params: Seq<Param>,
    r: Result<RpcReply, String>,
    key: Pubkey,
)
    requires
        answered(n, method, params, r),
        method == "getBalance"@ || method == "getAccountInfo"@,
    ensures
        address_param(params, 0) == Ok::<Seq<u8>, Seq<char>>(key.0@) ==> {
            let m = n.ledger.data();
            &&& method == "getBalance"@ ==> (r matches Ok(RpcReply::Balance(k)) && k == held(m, key))
            &&& method == "getAccountInfo"@ && !m.contains_key(key.0) ==> r == Ok::<
                RpcReply,
                String,
            >(RpcReply::NoAccount)
            &&& method == "getAccountInfo"@ && m.contains_key(key.0) ==> (r matches Ok(
                RpcReply::Account { owner, balance, data, executable },
            ) && owner@ == base58(m[key.0].owner.0@) && balance == m[key.0].balance && data@
                == hex_chars(m[key.0].data) && executable == m[key.0].executable)
        },
        address_param(params, 0) matches Err(words) ==> (r matches Err(e) && e@ == words),
{
    lemma_methods_differ();
    if address_param(params, 0) == Ok::<Seq<u8>, Seq<char>>(key.0@) {
        if method == "getBalance"@ {
            let k = choose|k: [u8; 32]|
                k@ == key.0@ && reply_of(r) == Ok::<ReplyData, Seq<char>>(
                    ReplyData::Balance(#[trigger] crate::node::balance_at(n, k)),
                );
            assert(k =~= key.0);
        } else {
            let k = choose|k: [u8; 32]|
                k@ == key.0@ && reply_of(r) == Ok::<ReplyData, Seq<char>>(
                    #[trigger] crate::node::account_reply(n, k),
                );
            assert(k =~= key.0);
        }
    }
}

/// The address that a request names.
pub proof fn law_addresses_of_requests(params: Seq<Param>, index: int, text: String)
    ensures
        0 <= index < params.len() && params[index] == Param::Text(text) ==> match base58_decoded(
            text@,
        ) {
            Err(reason) => address_param(params, index) == Err::<Seq<u8>, Seq<char>>(reason),
            Ok(b) => if b.len() == 32 {
                address_param(params, index) == Ok::<Seq<u8>, Seq<char>>(b)
            } else {
                address_param(params, index) == Err::<Seq<u8>, Seq<char>>(
                    "invalid pubkey: expected 32 bytes, got "@ + decimal(b.len()),
                )
            },
        },
        !(0 <= index < params.len()) || !(params[index] is Text) ==> address_param(params, index)
            == Err::<Seq<u8>, Seq<char>>("missing pubkey param"@),
{
}

/// Blocks are linked where each names the hash of the one before it and has the next slot.
pub proof fn law_blocks_are_linked(blocks: Seq<Block>, i: int)
    requires
        blocks_are_linked(blocks),
        0 < i < blocks.len(),
    ensures
        blocks[i].previous_blockhash == blocks[i - 1].blockhash,
        blocks[i].slot == blocks[i - 1].slot + 1,
{
    assert(follows(blocks, i - 1, i));
}

/// An epoch ends with every slot that its length divides, and never where it has none.
pub proof fn law_epochs_end(slot: u64, epoch_slots: u64, k: nat)
    ensures
        !is_last_of_epoch(slot, 0),
        epoch_slots > 0 && slot == k * epoch_slots ==> is_last_of_epoch(slot, epoch_slots),
        is_last_of_epoch(slot, epoch_slots) ==> slot == (slot / epoch_slots) * epoch_slots,
{
    if epoch_slots > 0 {
        vstd::arithmetic::div_mod::lemma_fundamental_div_mod(slot as int, epoch_slots as int);
        assert((slot as int / epoch_slots as int) * epoch_slots as int == epoch_slots as int * (
        slot as int / epoch_slots as int)) by (nonlinear_arith);
        if slot == k * epoch_slots {
            vstd::arithmetic::div_mod::lemma_mod_multiples_basic(k as int, epoch_slots as int);
        }
    }
}

/// What a client asks of the built-in programs.
pub proof fn law_clients_ask_the_programs(
    from: Pubkey,
    to: Pubkey,
    units: u64,
    accounts: Seq<Pubkey>,
    authority: Pubkey,
    validator: Pubkey,
)
    ensures
        ({
            let call = transfer_data(from, to, units);
            &&& all_bytes_are(call.program_id, 0)
            &&& call.accounts == seq![from, to]
            &&& says_amount(call.data, 1, units)
        }),
        ({
            let call = create_stake_data(to, units);
            &&& all_bytes_are(call.program_id, 0)
            &&& call.accounts == seq![to]
            &&& call.data.len() == 41 && call.data[0] == 0
            &&& number_at(call.data, 1, 8) == units
            &&& forall|i: int| 9 <= i < 41 ==> #[trigger] call.data[i] == 3
        }),
        ({
            let call = stake_data(accounts, StakeInstruction::Initialize { authority, validator });
            &&& all_bytes_are(call.program_id, 3)
            &&& call.accounts == accounts
            &&& call.data.len() == 65 && call.data[0] == 0
            &&& call.data.subrange(1, 33) == authority.0@
            &&& call.data.subrange(33, 65) == validator.0@
        }),
        stake_data(accounts, StakeInstruction::Deactivate).data == seq![1u8],
        says_amount(
            stake_data(accounts, StakeInstruction::Withdraw { amount: units }).data,
            2,
            units,
        ),
{
    lemma_le_bytes_len(units as nat, 8);
    lemma_pow256();
    lemma_le_round_trip(units as nat, 8);
    let t = transfer_data(from, to, units).data;
    assert(t.subrange(1, 9) =~= le_bytes(units as nat, 8));
    let c = create_stake_data(to, units).data;
    assert(c.subrange(1, 9) =~= le_bytes(units as nat, 8));
    let i = stake_data(accounts, StakeInstruction::Initialize { authority, validator }).data;
    assert(i.subrange(1, 33) =~= authority.0@);
    assert(i.subrange(33, 65) =~= validator.0@);
    let w = stake_data(accounts, StakeInstruction::Withdraw { amount: units }).data;
    assert(w.subrange(1, 9) =~= le_bytes(units as nat, 8));
}

/// What a client says about a text that names nobody.
pub proof fn law_unresolved_names_are_told(text: Seq<char>)
    ensures
        unresolved(text) == "'"@ + text
            + "' is neither a valid base58 address nor a readable keypair file"@,
{
}

/// A node is at its last block: that has its slot and its hash.
pub proof fn law_nodes_are_at_their_last_block(n: NodeState)
    requires
        n.wf(),
        n.ledger.blocks@.len() > 0,
    ensures
        n.slot == n.ledger.blocks@.last().slot,
        n.last_blockhash == n.ledger.blocks@.last().blockhash,
        blocks_are_linked(n.ledger.blocks@),
{
}

} // verus!
