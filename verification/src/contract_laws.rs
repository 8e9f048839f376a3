//! What each call of the contracts does to the accounts that it names, and on which calls the
//! contracts give up.
use crate::codec::{le_bytes, le_value, lemma_le_bytes_len, lemma_le_round_trip, lemma_pow256};
use crate::contract::{
    claimed, coherent, having_said, lemma_claimed_keeps, lemma_with_data_keeps, moved,
    numbers_bytes, pda, present, solvent, transferred, with_data, HostData, SlotData,
};
use crate::counter::{count_in, counted, counter_bytes, lemma_two_numbers, updates_in};
use crate::escrow::{offer_bytes, traded};
use crate::payments::{paid, paid_twice};
use crate::shared_counter::{added, shared_bytes};
use crate::token::{
    both_claimed, lemma_both_claimed, lemma_mint_bytes, lemma_tokens_bytes, lemma_two_writes,
    lowered, mint_bytes, minted, tokens_bytes,
};
use crate::vault::{lemma_vault_bytes, served, vault_bytes};
use vstd::prelude::*;
use vstd::utf8::*;

verus! {

/// The accounts at two places, with other balances there and, by their addresses, wherever
/// else the call names them; everything else is as it was.
pub open spec fn rebalanced_to(h: HostData, after: HostData, from: int, left: int, to: int, got: int) -> bool {
    &&& after == (HostData { slots: after.slots, ..h })
    &&& after.slots.len() == h.slots.len()
    &&& forall|i: int|
        0 <= i < h.slots.len() ==> (#[trigger] after.slots[i]) == (SlotData {
            balance: after.slots[i].balance,
            ..h.slots[i]
        })
    &&& forall|i: int|
        0 <= i < h.slots.len() ==> (#[trigger] after.slots[i]).balance == (if h.slots[i].address
            == h.slots[to].address {
            got
        } else if h.slots[i].address == h.slots[from].address {
            left
        } else {
            h.slots[i].balance as int
        })
}

/// A transfer between two accounts comes about exactly where the payer signed and has the
/// amount, the amount is not negative, and the receiver's balance stays a number; an account
/// in debt receives as if it had nothing. It takes the amount here and adds it there.
pub proof fn law_transfer_moves_the_amount(h: HostData, from: int, to: int, amount: i64)
    requires
        present(h, from),
        present(h, to),
        h.slots[from].address != h.slots[to].address,
    ensures
        ({
            let had = if h.slots[to].balance < 0 {
                0
            } else {
                h.slots[to].balance as int
            };
            let r = transferred(h, from, to, amount);
            if !h.slots[from].signer {
                r == Err::<HostData, Seq<Seq<char>>>(h.log.push("qchain-sdk: se requiere firma"@))
            } else if amount < 0 || amount > h.slots[from].balance || had + amount > i64::MAX {
                r == Err::<HostData, Seq<Seq<char>>>(h.log)
            } else {
                r matches Ok(after) && rebalanced_to(
                    h,
                    after,
                    from,
                    h.slots[from].balance - amount,
                    to,
                    had + amount,
                )
            }
        }),
{
}

/// A transfer from an account to itself, where it is signed and covered, changes nothing.
pub proof fn law_transfer_to_oneself_changes_nothing(h: HostData, from: int, to: int, amount: i64)
    requires
        coherent(h.slots),
        present(h, from),
        present(h, to),
        h.slots[from].address == h.slots[to].address,
        h.slots[from].signer,
        0 <= amount <= h.slots[from].balance,
    ensures
        transferred(h, from, to, amount) == Ok::<HostData, Seq<Seq<char>>>(h),
{
    let after = transferred(h, from, to, amount)->Ok_0;
    assert forall|i: int| 0 <= i < h.slots.len() implies after.slots[i] == h.slots[i] by {
        if h.slots[i].address == h.slots[from].address {
            assert(h.slots[i] == h.slots[from]);
        }
    }
    assert(after.slots =~= h.slots);
    assert(after =~= h);
}

/// A transfer to a place at which the call names no account takes the amount and tells the
/// ledger what was to arrive there.
pub proof fn law_transfer_to_nowhere_is_told(h: HostData, from: int, to: u32, amount: i64)
    requires
        present(h, from),
        !present(h, to as int),
        h.slots[from].signer,
        0 <= amount <= h.slots[from].balance,
    ensures
        transferred(h, from, to as int, amount) matches Ok(after) && {
            &&& after.stray == h.stray.push((to, amount))
            &&& after.slots[from].balance == h.slots[from].balance - amount
            &&& after.log == h.log
        },
{
}

/// The first places, up to this one, name accounts, each another.
pub open spec fn first_places_differ(h: HostData, last: int) -> bool {
    &&& last < h.slots.len()
    &&& forall|i: int, j: int|
        0 <= i < j <= last ==> (#[trigger] h.slots[i]).address != (#[trigger] h.slots[j]).address
}

/// The sum of up to three amounts.
pub open spec fn all_of(amounts: Seq<int>) -> int {
    (if amounts.len() > 0 {
        amounts[0]
    } else {
        0
    }) + (if amounts.len() > 1 {
        amounts[1]
    } else {
        0
    }) + (if amounts.len() > 2 {
        amounts[2]
    } else {
        0
    })
}

/// The first account pays these amounts to the accounts behind it, one each, or, where it
/// cannot, gives up having said what it was about.
pub open spec fn pays_out(
    h: HostData,
    said: Seq<char>,
    amounts: Seq<int>,
    outcome: Result<HostData, Seq<Seq<char>>>,
) -> bool {
    let log = h.log.push(said);
    if !h.slots[0].signer {
        outcome == Err::<HostData, Seq<Seq<char>>>(log.push("qchain-sdk: se requiere firma"@))
    } else if all_of(amounts) > h.slots[0].balance || exists|k: int|
        0 <= k < amounts.len() && (#[trigger] amounts[k] < 0 || h.slots[k + 1].balance + amounts[k]
            > i64::MAX) {
        outcome == Err::<HostData, Seq<Seq<char>>>(log)
    } else {
        outcome matches Ok(after) && {
            &&& after == (HostData { slots: after.slots, log, ..h })
            &&& after.slots.len() == h.slots.len()
            &&& forall|i: int|
                0 <= i < h.slots.len() ==> (#[trigger] after.slots[i]) == (SlotData {
                    balance: after.slots[i].balance,
                    ..h.slots[i]
                })
            &&& after.slots[0].balance == h.slots[0].balance - all_of(amounts)
            &&& forall|k: int|
                0 <= k < amounts.len() ==> after.slots[k + 1].balance == h.slots[k + 1].balance
                    + #[trigger] amounts[k]
            &&& forall|i: int|
                0 <= i < h.slots.len() && (forall|k: int|
                    0 <= k <= amounts.len() ==> h.slots[i].address != (
                    #[trigger] h.slots[k]).address) ==> #[trigger] after.slots[i] == h.slots[i]
        }
    }
}

/// What a payment does: the kinds 1, 2, 3 and 6 pay the amounts that they are given, kind 4
/// everything, and kind 5 as many ten-thousandths of the balance as it is given, each counted
/// in whole units. Nothing else is paid, and no other kind does anything.
pub proof fn law_payments_pay_what_is_asked(h: HostData, args: [i64; 4])
    requires
        solvent(h),
        coherent(h.slots),
    ensures
        args[0] == 1 && first_places_differ(h, 1) ==> pays_out(
            h,
            "transfer"@,
            seq![args[1] as int],
            paid(h, args),
        ),
        args[0] == 2 && first_places_differ(h, 2) ==> pays_out(
            h,
            "split2"@,
            seq![args[1] as int, args[2] as int],
            paid(h, args),
        ),
        args[0] == 3 && first_places_differ(h, 3) ==> pays_out(
            h,
            "split3"@,
            seq![args[1] as int, args[2] as int, args[3] as int],
            paid(h, args),
        ),
        args[0] == 4 && first_places_differ(h, 1) ==> pays_out(
            h,
            "sweep"@,
            seq![h.slots[0].balance as int],
            paid(h, args),
        ),
        args[0] == 5 && 0 <= args[1] <= 10_000 && first_places_differ(h, 1) ==> pays_out(
            h,
            "pct"@,
            seq![args[1] * (h.slots[0].balance as int / 10_000)],
            paid(h, args),
        ),
        args[0] == 5 && !(0 <= args[1] <= 10_000) ==> paid(h, args) == Err::<
            HostData,
            Seq<Seq<char>>,
        >(h.log.push("pct"@)),
        args[0] == 6 && first_places_differ(h, 2) ==> pays_out(
            h,
            "tip"@,
            seq![args[1] as int, args[2] as int],
            paid(h, args),
        ),
        !(1 <= args[0] <= 6) ==> paid(h, args) == Err::<HostData, Seq<Seq<char>>>(h.log),
{
    if args[0] == 1 && first_places_differ(h, 1) {
        lemma_pays_one(h, "transfer"@, args[1]);
    } else if args[0] == 4 && first_places_differ(h, 1) {
        lemma_pays_one(h, "sweep"@, h.slots[0].balance);
    } else if args[0] == 5 && 0 <= args[1] <= 10_000 && first_places_differ(h, 1) {
        let b = h.slots[0].balance as int;
        let n = args[1] * (b / 10_000);
        assert(n == (b / 10_000) * args[1]) by (nonlinear_arith)
            requires
                n == args[1] * (b / 10_000),
        ;
        assert(0 <= n <= b) by (nonlinear_arith)
            requires
                n == args[1] * (b / 10_000),
                0 <= args[1] <= 10_000,
                b >= 0,
        ;
        lemma_pays_one(h, "pct"@, n as i64);
    } else if args[0] == 2 && first_places_differ(h, 2) {
        lemma_pays_two(h, "split2"@, args[1], args[2]);
    } else if args[0] == 6 && first_places_differ(h, 2) {
        lemma_pays_two(h, "tip"@, args[1], args[2]);
    } else if args[0] == 3 && first_places_differ(h, 3) {
        lemma_pays_three(h, "split3"@, args[1], args[2], args[3]);
    }
}

proof fn lemma_pays_one(h: HostData, said: Seq<char>, x: i64)
    requires
        solvent(h),
        coherent(h.slots),
        first_places_differ(h, 1),
    ensures
        pays_out(
            h,
            said,
            seq![x as int],
            transferred(having_said(h, said), 0, 1, x),
        ),
{
    let s = having_said(h, said);
    assert(s.slots[0].address != s.slots[1].address);
    law_transfer_moves_the_amount(s, 0, 1, x);
    let amounts = seq![x as int];
    assert(amounts[0] == x);
    assert(h.slots[0].address == h.slots[0].address);
    assert(h.slots[1].address == h.slots[1].address);
}

proof fn lemma_keeps_order(h: HostData, after: HostData, from: int, left: int, to: int, got: int)
    requires
        solvent(h),
        coherent(h.slots),
        present(h, from),
        present(h, to),
        left >= 0,
        got >= 0,
        h.slots[from].address != h.slots[to].address,
        rebalanced_to(h, after, from, left, to, got),
    ensures
        solvent(after),
        coherent(after.slots),
{
    assert forall|i: int, j: int|
        #![trigger after.slots[i], after.slots[j]]
        0 <= i < after.slots.len() && 0 <= j < after.slots.len() && after.slots[i].address
            == after.slots[j].address implies after.slots[i] == after.slots[j] by {
        assert(h.slots[i] == h.slots[j]);
    }
    assert forall|i: int| 0 <= i < after.slots.len() implies (#[trigger] after.slots[i]).balance
        >= 0 by {
        assert(h.slots[i].balance >= 0);
    }
}

proof fn lemma_pays_two(h: HostData, said: Seq<char>, x: i64, y: i64)
    requires
        solvent(h),
        coherent(h.slots),
        first_places_differ(h, 2),
    ensures
        pays_out(
            h,
            said,
            seq![x as int, y as int],
            paid_twice(having_said(h, said), x, y),
        ),
{
    let s = having_said(h, said);
    assert(s.slots[0].address != s.slots[1].address);
    assert(s.slots[0].address != s.slots[2].address);
    assert(s.slots[1].address != s.slots[2].address);
    law_transfer_moves_the_amount(s, 0, 1, x);
    let amounts = seq![x as int, y as int];
    assert(amounts[0] == x && amounts[1] == y);
    let one = transferred(s, 0, 1, x);
    if one is Ok {
        let a = one->Ok_0;
        lemma_keeps_order(s, a, 0, s.slots[0].balance - x, 1, s.slots[1].balance + x);
        law_transfer_moves_the_amount(a, 0, 2, y);
    }
}

proof fn lemma_pays_three(h: HostData, said: Seq<char>, x: i64, y: i64, z: i64)
    requires
        solvent(h),
        coherent(h.slots),
        first_places_differ(h, 3),
    ensures
        pays_out(
            h,
            said,
            seq![x as int, y as int, z as int],
            match paid_twice(having_said(h, said), x, y) {
                Err(log) => Err(log),
                Ok(a) => transferred(a, 0, 3, z),
            },
        ),
{
    let s = having_said(h, said);
    assert(s.slots[0].address != s.slots[1].address);
    assert(s.slots[0].address != s.slots[2].address);
    assert(s.slots[1].address != s.slots[2].address);
    assert(s.slots[0].address != s.slots[3].address);
    assert(s.slots[1].address != s.slots[3].address);
    assert(s.slots[2].address != s.slots[3].address);
    law_transfer_moves_the_amount(s, 0, 1, x);
    let amounts = seq![x as int, y as int, z as int];
    assert(amounts[0] == x && amounts[1] == y && amounts[2] == z);
    let one = transferred(s, 0, 1, x);
    if one is Ok {
        let a = one->Ok_0;
        lemma_keeps_order(s, a, 0, s.slots[0].balance - x, 1, s.slots[1].balance + x);
        law_transfer_moves_the_amount(a, 0, 2, y);
        let two = transferred(a, 0, 2, y);
        if two is Ok {
            let b = two->Ok_0;
            lemma_keeps_order(a, b, 0, a.slots[0].balance - y, 2, a.slots[2].balance + y);
            law_transfer_moves_the_amount(b, 0, 3, z);
        }
    }
}

/// The number that a counter's data holds behind its first `at` bytes; nothing where the data
/// is shorter.
pub open spec fn word_at(data: Seq<u8>, at: int) -> nat {
    if data.len() >= at + 8 {
        le_value(data.subrange(at, at + 8))
    } else {
        0
    }
}

/// The account at a place, wherever the call names it, has other data and belongs to the
/// program where `own` says so; nothing else changes but that the contract said something.
pub open spec fn rewritten(
    h: HostData,
    after: HostData,
    at: int,
    own: bool,
    said: Seq<char>,
) -> bool {
    &&& after == (HostData { slots: after.slots, log: h.log.push(said), ..h })
    &&& after.slots.len() == h.slots.len()
    &&& forall|i: int|
        0 <= i < h.slots.len() ==> (#[trigger] after.slots[i]) == (if h.slots[i].address
            == h.slots[at].address {
            SlotData {
                data: after.slots[at].data,
                owned: own || h.slots[i].owned,
                ..h.slots[i]
            }
        } else {
            h.slots[i]
        })
}

proof fn lemma_word_value(data: Seq<u8>, at: int)
    requires
        0 <= at <= data.len() - 8,
    ensures
        le_value(data.subrange(at, at + 8)) <= u64::MAX,
{
    crate::codec::lemma_le_value_round_trip(data.subrange(at, at + 8));
    lemma_pow256();
}

/// What a counter does, where the first account signed: kind 1 sets it and forgets how often
/// it was changed, kind 2 adds and kind 3 subtracts, stopping at the largest and the smallest
/// number, and each counts one change more. The number stands in the first eight bytes of the
/// account's data, negative ones counted from the top, and the number of changes in the next
/// eight. Without the signature, and for any other kind, nothing happens.
pub proof fn law_counter_counts(h: HostData, args: [i64; 4])
    requires
        present(h, 0),
    ensures
        ({
            let data = h.slots[0].data;
            let count = if word_at(data, 0) >= 0x8000_0000_0000_0000 {
                word_at(data, 0) - 0x1_0000_0000_0000_0000
            } else {
                word_at(data, 0) as int
            };
            let wanted = if args[0] == 1 {
                args[1] as int
            } else if args[0] == 2 {
                count + args[1]
            } else {
                count - args[1]
            };
            let kept = if wanted > 0x7FFF_FFFF_FFFF_FFFF {
                0x7FFF_FFFF_FFFF_FFFFint
            } else if wanted < -0x8000_0000_0000_0000 {
                -0x8000_0000_0000_0000int
            } else {
                wanted
            };
            let changes = word_at(data, 8);
            if !h.slots[0].signer || !(1 <= args[0] <= 3) {
                counted(h, args) is None
            } else {
                counted(h, args) matches Some(after) && {
                    let new = after.slots[0].data;
                    &&& rewritten(
                        h,
                        after,
                        0,
                        false,
                        if args[0] == 1 {
                            "init"@
                        } else if args[0] == 2 {
                            "add"@
                        } else {
                            "sub"@
                        },
                    )
                    &&& new.len() == 16
                    &&& word_at(new, 0) == (if kept < 0 {
                        kept + 0x1_0000_0000_0000_0000
                    } else {
                        kept
                    })
                    &&& word_at(new, 8) == (if args[0] == 1 {
                        0
                    } else if changes < 0xFFFF_FFFF_FFFF_FFFF {
                        changes + 1
                    } else {
                        changes
                    })
                }
            }
        }),
{
    let data = h.slots[0].data;
    if data.len() >= 8 {
        lemma_word_value(data, 0);
    }
    if data.len() >= 16 {
        lemma_word_value(data, 8);
    }
    if h.slots[0].signer && 1 <= args[0] <= 3 {
        let after = counted(h, args)->0;
        let count = if args[0] == 1 {
            args[1]
        } else if args[0] == 2 {
            crate::counter::clamped(count_in(data) + args[1])
        } else {
            crate::counter::clamped(count_in(data) - args[1])
        };
        let updates = if args[0] == 1 {
            0u64
        } else {
            crate::counter::next_update(updates_in(data))
        };
        let bytes = counter_bytes(count, updates);
        lemma_two_numbers(crate::wallet_requests::word_of(count) as u64, updates);
        lemma_word_value(bytes, 0);
        lemma_word_value(bytes, 8);
        assert(after.slots[0].data == bytes);
    }
}

/// What the shared counter does, for anybody: where the second account is the one that the
/// program keeps its sum in, and the kind is 1, the amount, which may not be negative, is
/// added to the number in the first eight bytes, up to the largest, and the number in the next
/// eight grows by one.
pub proof fn law_shared_counter_adds(h: HostData, args: [i64; 4])
    ensures
        if !present(h, 1) || h.slots[1].address != pda(h.program, encode_utf8("global"@)) || args[0]
            != 1 || args[1] < 0 {
            added(h, args) is None
        } else {
            added(h, args) matches Some(after) && {
                let sum = word_at(h.slots[1].data, 0) + args[1];
                let hits = word_at(h.slots[1].data, 8) + 1;
                let new = after.slots[1].data;
                &&& rewritten(h, after, 1, true, "add"@)
                &&& new.len() == 16
                &&& word_at(new, 0) == if sum <= 0xFFFF_FFFF_FFFF_FFFF {
                    sum
                } else {
                    0xFFFF_FFFF_FFFF_FFFF
                }
                &&& word_at(new, 8) == if hits <= 0xFFFF_FFFF_FFFF_FFFF {
                    hits
                } else {
                    0xFFFF_FFFF_FFFF_FFFF
                }
            }
        },
{
    if added(h, args) is Some {
        let data = h.slots[1].data;
        if data.len() >= 8 {
            lemma_word_value(data, 0);
        }
        if data.len() >= 16 {
            lemma_word_value(data, 8);
        }
        let after = added(h, args)->0;
        let sum = crate::contract::capped_sum(crate::shared_counter::sum_in(data), args[1] as u64);
        let hits = crate::counter::next_update(updates_in(data));
        let bytes = shared_bytes(sum, hits);
        lemma_two_numbers(sum, hits);
        lemma_word_value(bytes, 0);
        lemma_word_value(bytes, 8);
        lemma_claimed_keeps(h, 1);
        let mid = having_said(claimed(h, 1), "add"@);
        assert(mid.slots[1].address == h.slots[1].address);
        lemma_with_data_keeps(mid, 1, bytes);
        assert(after.slots[1].data == bytes);
    }
}

/// Whoever published the program signed, as the first account.
pub open spec fn publisher_signed(h: HostData) -> bool {
    present(h, 0) && h.slots[0].signer && h.slots[0].address == h.deployer
}

/// What the vault does. Its account is the one that the program keeps under the name of a
/// vault; it is set up once its data has forty bytes: whoever may take money out, and how
/// much was put in.
///
/// - Kind 1 sets it up, for the publisher, who has to sign.
/// - Kind 2 takes money from the first account, which has to sign, into the vault, and adds it
///   to what was put in, up to the largest number.
/// - Kind 3 pays money out of the vault to the third account, where whoever may take it out
///   signed as the first.
///
/// A vault that is not set up, or set up already, an amount below zero and one that is not
/// there are refused, and so is every other kind.
pub proof fn law_vault_keeps_money(h: HostData, args: [i64; 4])
    requires
        solvent(h),
        coherent(h.slots),
        first_places_differ(h, 2),
    ensures
        ({
            let x = args[1];
            let data = h.slots[1].data;
            let r = served(h, args);
            let own = h.slots[1].address == pda(h.program, encode_utf8("vault"@));
            let admin = h.slots[0].address.0@ == data.subrange(0, 32);
            &&& r is Ok <==> own && {
                ||| args[0] == 1 && data.len() < 40 && publisher_signed(h)
                ||| args[0] == 2 && data.len() >= 40 && h.slots[0].signer && 0 <= x
                    <= h.slots[0].balance && h.slots[1].balance + x <= i64::MAX
                ||| args[0] == 3 && data.len() >= 40 && h.slots[0].signer && admin && 0 <= x
                    <= h.slots[1].balance && h.slots[2].balance + x <= i64::MAX
            }
            &&& r matches Ok(after) ==> args[0] == 1 ==> {
                &&& rewritten(h, after, 1, true, "init"@)
                &&& after.slots[1].data.len() == 40
                &&& after.slots[1].data.subrange(0, 32) == h.slots[0].address.0@
                &&& word_at(after.slots[1].data, 32) == 0
            }
            &&& r matches Ok(after) ==> args[0] == 2 ==> {
                &&& after.log == h.log.push("deposit"@)
                &&& after.slots[0].balance == h.slots[0].balance - x
                &&& after.slots[1].balance == h.slots[1].balance + x
                &&& after.slots[2] == h.slots[2]
                &&& after.slots[1].data.len() == 40
                &&& after.slots[1].data.subrange(0, 32) == data.subrange(0, 32)
                &&& word_at(after.slots[1].data, 32) == if word_at(data, 32) + x
                    <= 0xFFFF_FFFF_FFFF_FFFF {
                    word_at(data, 32) + x
                } else {
                    0xFFFF_FFFF_FFFF_FFFF
                }
            }
            &&& r matches Ok(after) ==> args[0] == 3 ==> {
                &&& after.log == h.log.push("withdraw"@)
                &&& after.slots[1].balance == h.slots[1].balance - x
                &&& after.slots[2].balance == h.slots[2].balance + x
                &&& after.slots[0] == h.slots[0]
                &&& after.slots[1].data == data
            }
            &&& !own ==> r == Err::<HostData, Seq<Seq<char>>>(
                h.log.push("accounts[1] no es la PDA de la bóveda"@),
            )
            &&& own && args[0] == 1 && data.len() >= 40 ==> r == Err::<HostData, Seq<Seq<char>>>(
                h.log.push("la bóveda ya está inicializada"@),
            )
            &&& own && (args[0] == 2 || args[0] == 3) && data.len() < 40 ==> r == Err::<
                HostData,
                Seq<Seq<char>>,
            >(h.log.push("la bóveda no está inicializada"@))
            &&& own && args[0] == 3 && data.len() >= 40 && x >= 0 && h.slots[0].signer && !admin
                ==> r == Err::<HostData, Seq<Seq<char>>>(
                h.log.push("sólo el admin puede retirar"@),
            )
        }),
{
    let x = args[1];
    let data = h.slots[1].data;
    let own = claimed(h, 1);
    assert(h.slots[0].address != h.slots[1].address);
    assert(h.slots[0].address != h.slots[2].address);
    assert(h.slots[1].address != h.slots[2].address);
    lemma_claimed_keeps(h, 1);
    assert(own.slots[0].address != own.slots[1].address);
    assert(own.slots[1].address != own.slots[2].address);
    assert(own.slots[0] == h.slots[0] && own.slots[2] == h.slots[2]);
    if data.len() >= 40 {
        lemma_word_value(data, 32);
    }
    if args[0] == 1 {
        let bytes = vault_bytes(h.slots[0].address.0@, 0);
        lemma_vault_bytes(h.slots[0].address.0@, 0);
        lemma_with_data_keeps(own, 1, bytes);
        lemma_word_value(bytes, 32);
    } else if args[0] == 2 && data.len() >= 40 && x >= 0 {
        law_transfer_moves_the_amount(own, 0, 1, x);
        let sum = crate::contract::capped_sum(crate::vault::deposits_in(data), x as u64);
        let bytes = vault_bytes(data.subrange(0, 32), sum);
        lemma_vault_bytes(data.subrange(0, 32), sum);
        lemma_word_value(bytes, 32);
        if transferred(own, 0, 1, x) is Ok {
            let paid_in = transferred(own, 0, 1, x)->Ok_0;
            assert(paid_in.slots[0].address == h.slots[0].address);
            assert(paid_in.slots[1].address == h.slots[1].address);
            assert(paid_in.slots[2] == h.slots[2]);
            lemma_with_data_keeps(paid_in, 1, bytes);
        }
    } else if args[0] == 3 && data.len() >= 40 && x >= 0 {
        if moved(own, 1, 2, x) is Some {
            let after = moved(own, 1, 2, x)->0;
            assert(after.slots[0] == own.slots[0]);
            assert(after.slots[1].data == data);
        }
    }
}

/// The account in which the token keeps what `holder` has.
pub open spec fn purse(h: HostData, holder: crate::pubkey::Pubkey) -> crate::pubkey::Pubkey {
    pda(h.program, seq![1u8] + holder.0@)
}

/// What the token does. Its own account, under the name of a mint, holds who may make tokens,
/// how many there are and how many there may be; the purse of each holder holds how many that
/// holder has. The first account has to sign, and no amount may be negative.
///
/// - Kind 1 sets the token up, once, for whoever signs: there are no tokens yet, and there may
///   be as many as the call says.
/// - Kind 2 makes tokens for the fourth account, up to the cap, where whoever set it up signs.
/// - Kind 3 moves tokens out of the signer's purse into that of the fourth account.
/// - Kind 4 destroys tokens in the signer's purse.
pub proof fn law_token_calls_succeed(h: HostData, args: [i64; 4])
    requires
        coherent(h.slots),
        first_places_differ(h, 2),
        h.slots.len() >= 4,
    ensures
        ({
            let n = args[1];
            let mint = pda(h.program, encode_utf8("mint"@));
            let signer = h.slots[0];
            let one = h.slots[1];
            let two = h.slots[2];
            let dest = h.slots[3].address;
            minted(h, args) is Ok <==> n >= 0 && signer.signer && {
                ||| args[0] == 1 && one.address == mint && one.data.len() < 48
                ||| {
                    &&& args[0] == 2 && one.address == mint && two.address == purse(h, dest)
                    &&& one.data.len() >= 48
                    &&& signer.address.0@ == one.data.subrange(0, 32)
                    &&& word_at(one.data, 32) + n <= word_at(one.data, 40)
                    &&& word_at(two.data, 0) + n <= 0xFFFF_FFFF_FFFF_FFFF
                }
                ||| {
                    &&& args[0] == 3 && one.address == purse(h, signer.address)
                    &&& two.address == purse(h, dest)
                    &&& n <= word_at(one.data, 0)
                    &&& word_at(two.data, 0) + n <= 0xFFFF_FFFF_FFFF_FFFF
                }
                ||| {
                    &&& args[0] == 4 && one.address == purse(h, signer.address)
                    &&& two.address == mint
                    &&& two.data.len() >= 48
                    &&& n <= word_at(one.data, 0)
                    &&& n <= word_at(two.data, 32)
                }
            }
        }),
{
    let one = h.slots[1];
    let two = h.slots[2];
    assert(h.slots[0].address != h.slots[1].address);
    assert(h.slots[1].address != h.slots[2].address);
    lemma_token_words(one.data);
    lemma_token_words(two.data);
    if args[0] == 3 || args[0] == 4 {
        let amount = args[1] as u64;
        let left = (crate::token::tokens_in(one.data) - amount) as u64;
        lemma_two_writes(h, 1, tokens_bytes(left), 2, Seq::empty());
        assert(lowered(h, amount).slots[2].data == two.data);
    }
}

proof fn lemma_token_words(data: Seq<u8>)
    ensures
        word_at(data, 0) <= u64::MAX,
        word_at(data, 32) <= u64::MAX,
        word_at(data, 40) <= u64::MAX,
        crate::token::tokens_in(data) == word_at(data, 0),
        data.len() >= 48 ==> crate::token::supply_in(data) == word_at(data, 32),
        data.len() >= 48 ==> crate::token::cap_in(data) == word_at(data, 40),
{
    if data.len() >= 8 {
        lemma_word_value(data, 0);
    }
    if data.len() >= 40 {
        lemma_word_value(data, 32);
    }
    if data.len() >= 48 {
        lemma_word_value(data, 40);
    }
}

/// What the calls of the token write: the bytes of its own account and of the purses.
pub proof fn law_token_calls_write(h: HostData, args: [i64; 4])
    requires
        coherent(h.slots),
        first_places_differ(h, 2),
        minted(h, args) is Ok,
    ensures
        ({
            let n = args[1];
            let after = minted(h, args)->Ok_0;
            let one = h.slots[1].data;
            let two = h.slots[2].data;
            let new_one = after.slots[1].data;
            let new_two = after.slots[2].data;
            &&& forall|i: int|
                0 <= i < h.slots.len() ==> (#[trigger] after.slots[i]).balance == h.slots[i].balance
                    && after.slots[i].address == h.slots[i].address && after.slots[i].signer
                    == h.slots[i].signer
            &&& after.slots[0] == h.slots[0]
            &&& args[0] == 1 ==> {
                &&& after.log == h.log.push("token:init"@)
                &&& new_one.len() == 48
                &&& new_one.subrange(0, 32) == h.slots[0].address.0@
                &&& word_at(new_one, 32) == 0
                &&& word_at(new_one, 40) == n
                &&& after.slots[2] == h.slots[2]
            }
            &&& args[0] == 2 ==> {
                &&& after.log == h.log.push("token:mint"@)
                &&& new_one.len() == 48
                &&& new_one.subrange(0, 32) == one.subrange(0, 32)
                &&& word_at(new_one, 32) == word_at(one, 32) + n
                &&& word_at(new_one, 40) == word_at(one, 40)
                &&& new_two.len() == 8
                &&& word_at(new_two, 0) == word_at(two, 0) + n
            }
            &&& args[0] == 3 ==> {
                &&& after.log == h.log.push("token:transfer"@)
                &&& new_one.len() == 8 && new_two.len() == 8
                &&& word_at(new_one, 0) == word_at(one, 0) - n
                &&& word_at(new_two, 0) == word_at(two, 0) + n
            }
            &&& args[0] == 4 ==> {
                &&& after.log == h.log.push("token:burn"@)
                &&& new_one.len() == 8
                &&& word_at(new_one, 0) == word_at(one, 0) - n
                &&& new_two.len() == 48
                &&& new_two.subrange(0, 32) == two.subrange(0, 32)
                &&& word_at(new_two, 32) == word_at(two, 32) - n
                &&& word_at(new_two, 40) == word_at(two, 40)
            }
        }),
{
    let amount = args[1] as u64;
    let one = h.slots[1].data;
    let two = h.slots[2].data;
    assert(h.slots[0].address != h.slots[1].address);
    assert(h.slots[0].address != h.slots[2].address);
    assert(h.slots[1].address != h.slots[2].address);
    lemma_token_words(one);
    lemma_token_words(two);
    if args[0] == 1 {
        let bytes = mint_bytes(h.slots[0].address.0@, 0, amount);
        lemma_mint_bytes(h.slots[0].address.0@, 0, amount);
        lemma_token_words(bytes);
        lemma_claimed_keeps(h, 1);
        assert(claimed(h, 1).slots[1].address == h.slots[1].address);
        lemma_with_data_keeps(claimed(h, 1), 1, bytes);
    } else {
        let left = (crate::token::tokens_in(one) - amount) as u64;
        let more = (crate::token::tokens_in(two) + amount) as u64;
        let (i, a, j, b) = if args[0] == 2 {
            (
                2int,
                tokens_bytes(more),
                1int,
                mint_bytes(
                    one.subrange(0, 32),
                    (crate::token::supply_in(one) + amount) as u64,
                    crate::token::cap_in(one),
                ),
            )
        } else if args[0] == 3 {
            (1int, tokens_bytes(left), 2int, tokens_bytes(more))
        } else {
            (
                1int,
                tokens_bytes(left),
                2int,
                mint_bytes(
                    two.subrange(0, 32),
                    (crate::token::supply_in(two) - amount) as u64,
                    crate::token::cap_in(two),
                ),
            )
        };
        lemma_two_writes(h, i, a, j, b);
        lemma_two_writes(h, i, a, j, Seq::empty());
        lemma_both_claimed(h);
        let c = both_claimed(h);
        lemma_with_data_keeps(c, i, a);
        let mid = with_data(c, i, a);
        lemma_with_data_keeps(mid, j, b);
        lemma_tokens_bytes(left);
        lemma_tokens_bytes(more);
        lemma_token_words(tokens_bytes(left));
        lemma_token_words(tokens_bytes(more));
        if args[0] == 2 {
            lemma_mint_bytes(
                one.subrange(0, 32),
                (crate::token::supply_in(one) + amount) as u64,
                crate::token::cap_in(one),
            );
            lemma_token_words(b);
        } else if args[0] == 4 {
            lemma_mint_bytes(
                two.subrange(0, 32),
                (crate::token::supply_in(two) - amount) as u64,
                crate::token::cap_in(two),
            );
            lemma_token_words(b);
        }
        let after = with_data(mid, j, b);
        assert(minted(h, args)->Ok_0.slots == after.slots);
        assert forall|k: int| 0 <= k < h.slots.len() implies (#[trigger] after.slots[k]).balance
            == h.slots[k].balance && after.slots[k].address == h.slots[k].address
            && after.slots[k].signer == h.slots[k].signer by {
            assert(c.slots[k].balance == h.slots[k].balance);
            assert(mid.slots[k].balance == c.slots[k].balance);
        }
    }
}

/// What the token says where it gives up: first that an amount is negative; then, of the
/// accounts in their order, the first that is not the one it should be; that the signature is
/// missing; and that the token is set up already, not set up, or that the cap would be passed.
pub proof fn law_token_says_why(h: HostData, args: [i64; 4])
    requires
        h.slots.len() >= 4,
    ensures
        ({
            let r = minted(h, args);
            let mint = pda(h.program, encode_utf8("mint"@));
            let signer = h.slots[0];
            let one = h.slots[1];
            let two = h.slots[2];
            let dest = h.slots[3].address;
            let unsigned = Err::<HostData, Seq<Seq<char>>>(
                h.log.push("qchain-sdk: se requiere firma"@),
            );
            &&& args[1] < 0 ==> r == Err::<HostData, Seq<Seq<char>>>(h.log.push("monto negativo"@))
            &&& args[1] >= 0 && !(1 <= args[0] <= 4) ==> r == Err::<HostData, Seq<Seq<char>>>(h.log)
            &&& args[1] >= 0 && (args[0] == 1 || args[0] == 2) ==> {
                &&& one.address != mint ==> r == Err::<HostData, Seq<Seq<char>>>(
                    h.log.push("accounts[1] no es la mint PDA"@),
                )
                &&& one.address == mint && !signer.signer ==> r == unsigned
                &&& one.address == mint && signer.signer && args[0] == 1 && one.data.len() >= 48
                    ==> r == Err::<HostData, Seq<Seq<char>>>(
                    h.log.push("el token ya está inicializado"@),
                )
                &&& one.address == mint && signer.signer && args[0] == 2 && one.data.len() < 48
                    ==> r == Err::<HostData, Seq<Seq<char>>>(h.log.push("token no inicializado"@))
                &&& one.address == mint && signer.signer && args[0] == 2 && one.data.len() >= 48
                    && signer.address.0@ != one.data.subrange(0, 32) ==> r == Err::<
                    HostData,
                    Seq<Seq<char>>,
                >(h.log)
                &&& one.address == mint && signer.signer && args[0] == 2 && one.data.len() >= 48
                    && signer.address.0@ == one.data.subrange(0, 32) && two.address != purse(
                    h,
                    dest,
                ) ==> r == Err::<HostData, Seq<Seq<char>>>(
                    h.log.push("accounts[2] no es la PDA de saldo del dest"@),
                )
            }
            &&& args[1] >= 0 && (args[0] == 3 || args[0] == 4) ==> {
                &&& !signer.signer ==> r == unsigned
                &&& signer.signer && one.address != purse(h, signer.address) ==> r == Err::<
                    HostData,
                    Seq<Seq<char>>,
                >(h.log.push("accounts[1] no es TU PDA de saldo"@))
                &&& signer.signer && one.address == purse(h, signer.address) && args[0] == 3
                    && two.address != purse(h, dest) ==> r == Err::<HostData, Seq<Seq<char>>>(
                    h.log.push("accounts[2] no es la PDA de saldo del dest"@),
                )
                &&& signer.signer && one.address == purse(h, signer.address) && args[0] == 4
                    && two.address != mint ==> r == Err::<HostData, Seq<Seq<char>>>(
                    h.log.push("accounts[2] no es la mint PDA"@),
                )
            }
        }),
{
}

/// What the escrow does. Its account, under the name of an escrow, holds the seller and the
/// price of a unit.
///
/// - Kind 1 makes the offer, once, for the publisher, who has to sign, at a price that is not
///   negative.
/// - Kind 2 changes the price, for the seller, who has to sign.
/// - Kind 3 buys units: the first account, which has to sign, pays the seller, who is the third,
///   the price of all of them, where that is no more than the buyer said.
pub proof fn law_escrow_trades(h: HostData, args: [i64; 4])
    requires
        solvent(h),
        coherent(h.slots),
        first_places_differ(h, 2),
    ensures
        ({
            let data = h.slots[1].data;
            let r = traded(h, args);
            let own = h.slots[1].address == pda(h.program, encode_utf8("escrow"@));
            let listed = data.len() >= 40;
            let price = word_at(data, 32);
            let cost = args[1] * price;
            &&& r is Ok <==> own && {
                ||| args[0] == 1 && !listed && args[1] >= 0 && publisher_signed(h)
                ||| args[0] == 2 && listed && args[1] >= 0 && h.slots[0].signer
                    && h.slots[0].address.0@ == data.subrange(0, 32)
                ||| {
                    &&& args[0] == 3 && listed && args[1] >= 0 && args[2] >= 0
                    &&& h.slots[0].signer && h.slots[2].address.0@ == data.subrange(0, 32)
                    &&& cost <= args[2] && cost <= h.slots[0].balance
                    &&& h.slots[2].balance + cost <= i64::MAX
                }
            }
            &&& r matches Ok(after) ==> args[0] == 1 || args[0] == 2 ==> {
                &&& rewritten(
                    h,
                    after,
                    1,
                    true,
                    if args[0] == 1 {
                        "list"@
                    } else {
                        "set_price"@
                    },
                )
                &&& after.slots[1].data.len() == 40
                &&& after.slots[1].data.subrange(0, 32) == h.slots[0].address.0@
                &&& word_at(after.slots[1].data, 32) == args[1]
            }
            &&& r matches Ok(after) ==> args[0] == 3 ==> {
                &&& after.log == h.log.push("buy"@)
                &&& after.slots[0].balance == h.slots[0].balance - cost
                &&& after.slots[2].balance == h.slots[2].balance + cost
                &&& after.slots[1].data == data
                &&& after.slots[1].balance == h.slots[1].balance
            }
        }),
{
    let data = h.slots[1].data;
    let own = claimed(h, 1);
    assert(h.slots[0].address != h.slots[1].address);
    assert(h.slots[0].address != h.slots[2].address);
    assert(h.slots[1].address != h.slots[2].address);
    lemma_claimed_keeps(h, 1);
    assert(own.slots[0] == h.slots[0] && own.slots[2] == h.slots[2]);
    assert(own.slots[1].address == h.slots[1].address);
    if data.len() >= 40 {
        lemma_word_value(data, 32);
    }
    if (args[0] == 1 || args[0] == 2) && args[1] >= 0 {
        let seller = h.slots[0].address.0@;
        let bytes = offer_bytes(seller, args[1] as u64);
        lemma_offer(seller, args[1] as u64);
        lemma_with_data_keeps(own, 1, bytes);
    } else if args[0] == 3 && data.len() >= 40 && args[1] >= 0 {
        let cost = args[1] * word_at(data, 32);
        assert(cost >= 0) by (nonlinear_arith)
            requires
                cost == args[1] * word_at(data, 32),
                args[1] >= 0,
                word_at(data, 32) >= 0,
        ;
        if cost <= args[2] {
            law_transfer_moves_the_amount(own, 0, 2, cost as i64);
        }
    }
}

proof fn lemma_offer(seller: Seq<u8>, price: u64)
    requires
        seller.len() == 32,
    ensures
        offer_bytes(seller, price).len() == 40,
        offer_bytes(seller, price).subrange(0, 32) == seller,
        word_at(offer_bytes(seller, price), 32) == price,
{
    let s = seq![price];
    let p = le_bytes(price as nat, 8);
    lemma_le_bytes_len(price as nat, 8);
    assert(s.drop_last() =~= Seq::<u64>::empty());
    assert(numbers_bytes(Seq::<u64>::empty()) =~= Seq::<u8>::empty());
    assert(numbers_bytes(s) =~= p);
    assert(offer_bytes(seller, price).subrange(0, 32) =~= seller);
    assert(offer_bytes(seller, price).subrange(32, 40) =~= p);
    lemma_pow256();
    lemma_le_round_trip(price as nat, 8);
}

/// What the escrow says where it gives up.
pub proof fn law_escrow_says_why(h: HostData, args: [i64; 4])
    requires
        h.slots.len() >= 3,
    ensures
        ({
            let data = h.slots[1].data;
            let r = traded(h, args);
            let own = h.slots[1].address == pda(h.program, encode_utf8("escrow"@));
            let listed = data.len() >= 40;
            &&& !own ==> r == Err::<HostData, Seq<Seq<char>>>(
                h.log.push("accounts[1] no es la PDA del escrow"@),
            )
            &&& own && args[0] == 1 && listed ==> r == Err::<HostData, Seq<Seq<char>>>(
                h.log.push("el escrow ya fue publicado"@),
            )
            &&& own && (args[0] == 2 || args[0] == 3) && !listed ==> r == Err::<
                HostData,
                Seq<Seq<char>>,
            >(h.log.push("el escrow no fue publicado"@))
            &&& own && (args[0] == 1 && !listed || args[0] == 2 && listed) && args[1] < 0 ==> r
                == Err::<HostData, Seq<Seq<char>>>(h.log.push("precio negativo"@))
            &&& own && args[0] == 2 && listed && args[1] >= 0 && h.slots[0].signer
                && h.slots[0].address.0@ != data.subrange(0, 32) ==> r == Err::<
                HostData,
                Seq<Seq<char>>,
            >(h.log.push("sólo el vendedor puede cambiar el precio"@))
            &&& own && args[0] == 3 && listed && args[1] < 0 ==> r == Err::<
                HostData,
                Seq<Seq<char>>,
            >(h.log.push("units negativo"@))
            &&& own && args[0] == 3 && listed && args[1] >= 0 && args[2] < 0 ==> r == Err::<
                HostData,
                Seq<Seq<char>>,
            >(h.log.push("max_total negativo"@))
            &&& own && args[0] == 3 && listed && args[1] == 0 && args[2] >= 0
                && h.slots[2].address.0@ != data.subrange(0, 32) ==> r == Err::<
                HostData,
                Seq<Seq<char>>,
            >(h.log.push("accounts[2] no es el vendedor registrado"@))
            &&& own && !(1 <= args[0] <= 3) ==> r == Err::<HostData, Seq<Seq<char>>>(h.log)
        }),
{
}

} // verus!
