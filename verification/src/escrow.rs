//! A contract that sells at a price: a buyer names the most that the purchase may cost.
use crate::contract::{
    abort, claimed, coherent, deployer_missed, deployer_signs, ended, get_data, having_said, is_pda,
    law_moving_conserves, lemma_claimed_keeps, lemma_with_data_keeps, log, number_at, numbers_bytes,
    present, pubkey, read_pubkey, read_u64, record, require, require_deployer, require_signer,
    set_data, settle, settled, signs, solvent, total_balance, transfer, transferred, use_pda,
    with_data, Abort, Host, HostData, SIGNATURE_WANTED,
};
use crate::pubkey::Pubkey;
use vstd::prelude::*;
use vstd::string::*;
use vstd::utf8::*;

verus! {

/// How many bytes the contract keeps: who sells, and the price of one piece.
pub const STATE_LEN: usize = 40;

/// There is an offer.
pub open spec fn is_listed(data: Seq<u8>) -> bool {
    data.len() >= STATE_LEN
}

/// Who sells.
pub open spec fn seller_in(data: Seq<u8>) -> Seq<u8> {
    data.subrange(0, 32)
}

/// The price of one piece.
pub open spec fn price_in(data: Seq<u8>) -> u64 {
    number_at(data, 32)
}

/// The bytes of an offer.
pub open spec fn offer_bytes(seller: Seq<u8>, price: u64) -> Seq<u8> {
    seller + numbers_bytes(seq![price])
}

/// The accounts after a call, or all that was said where the contract gives up: 1 makes the
/// offer at the price `a`, 2 changes the price to `a`, 3 buys `a` pieces for at most `b` in
/// all.
pub open spec fn traded(h: HostData, args: [i64; 4]) -> Result<HostData, Seq<Seq<char>>> {
    let a = args[1];
    let b = args[2];
    let own = claimed(h, 1);
    let data = h.slots[1].data;
    if !is_pda(h, 1, encode_utf8("escrow"@)) {
        Err(h.log.push("accounts[1] no es la PDA del escrow"@))
    } else if args[0] == 1 {
        if is_listed(data) {
            Err(h.log.push("el escrow ya fue publicado"@))
        } else if a < 0 {
            Err(h.log.push("precio negativo"@))
        } else if !deployer_signs(h) {
            Err(deployer_missed(h))
        } else {
            Ok(
                having_said(
                    with_data(own, 1, offer_bytes(h.slots[0].address.0@, a as u64)),
                    "list"@,
                ),
            )
        }
    } else if args[0] == 2 {
        if !is_listed(data) {
            Err(h.log.push("el escrow no fue publicado"@))
        } else if a < 0 {
            Err(h.log.push("precio negativo"@))
        } else if !signs(h, 0) {
            Err(h.log.push(SIGNATURE_WANTED@))
        } else if h.slots[0].address.0@ != seller_in(data) {
            Err(h.log.push("sólo el vendedor puede cambiar el precio"@))
        } else {
            Ok(
                having_said(
                    with_data(own, 1, offer_bytes(seller_in(data), a as u64)),
                    "set_price"@,
                ),
            )
        }
    } else if args[0] == 3 {
        let cost = a * price_in(data);
        if !is_listed(data) {
            Err(h.log.push("el escrow no fue publicado"@))
        } else if a < 0 {
            Err(h.log.push("units negativo"@))
        } else if b < 0 {
            Err(h.log.push("max_total negativo"@))
        } else if cost > b {
            Err(h.log)
        } else if !present(h, 2) || h.slots[2].address.0@ != seller_in(data) {
            Err(h.log.push("accounts[2] no es el vendedor registrado"@))
        } else {
            match transferred(own, 0, 2, cost as i64) {
                Err(log) => Err(log),
                Ok(after) => Ok(having_said(after, "buy"@)),
            }
        }
    } else {
        Err(h.log)
    }
}

fn write_offer(host: &mut Host, seller: &Pubkey, price: u64)
    requires
        present(old(host)@, 1),
    ensures
        final(host)@ == with_data(old(host)@, 1, offer_bytes(seller.0@, price)),
{
    let words: [u64; 1] = [price];
    let bytes = record(seller, words.as_slice());
    proof {
        assert(words@ =~= seq![price]);
    }
    set_data(host, 1, bytes);
}

fn is_account(host: &Host, idx: u32, key: &Pubkey) -> (same: bool)
    ensures
        same == (present(host@, idx as int) && host@.slots[idx as int].address.0@ == key.0@),
{
    match pubkey(host, idx) {
        Err(_) => false,
        Ok(k) => {
            proof {
                if k.0@ == key.0@ {
                    assert(k.0 =~= key.0);
                }
            }
            k.same_as(key)
        },
    }
}

fn trade(host: &mut Host, args: [i64; 4]) -> (done: Result<(), Abort>)
    ensures
        ended(traded(old(host)@, args), done, final(host)@),
{
    let sel: i64 = args[0];
    let a: i64 = args[1];
    let b: i64 = args[2];
    let ghost h = host@;
    let mine = use_pda(host, 1, "escrow".as_bytes());
    match require(host, mine, "accounts[1] no es la PDA del escrow") {
        Err(e) => return Err(e),
        Ok(_) => {},
    }
    let ghost own = host@;
    proof {
        lemma_claimed_keeps(h, 1);
        assert(own.slots[1] == claimed(h, 1).slots[1]);
        assert(own.slots[0] == claimed(h, 1).slots[0]);
        if present(h, 2) {
            assert(own.slots[2] == claimed(h, 1).slots[2]);
        }
    }
    let data = get_data(host, 1);
    let listed = data.len() >= STATE_LEN;
    if sel == 1 {
        match require(host, !listed, "el escrow ya fue publicado") {
            Err(e) => return Err(e),
            Ok(_) => {},
        }
        match require(host, a >= 0, "precio negativo") {
            Err(e) => return Err(e),
            Ok(_) => {},
        }
        match require_deployer(host) {
            Err(e) => return Err(e),
            Ok(_) => {},
        }
        let seller: Pubkey = host.slots[0].address;
        write_offer(host, &seller, a as u64);
        log(host, "list");
        Ok(())
    } else if sel == 2 {
        match require(host, listed, "el escrow no fue publicado") {
            Err(e) => return Err(e),
            Ok(_) => {},
        }
        match require(host, a >= 0, "precio negativo") {
            Err(e) => return Err(e),
            Ok(_) => {},
        }
        match require_signer(host, 0) {
            Err(e) => return Err(e),
            Ok(_) => {},
        }
        let seller = read_pubkey(data.as_slice(), 0);
        let sells = is_account(host, 0, &seller);
        match require(host, sells, "sólo el vendedor puede cambiar el precio") {
            Err(e) => return Err(e),
            Ok(_) => {},
        }
        write_offer(host, &seller, a as u64);
        log(host, "set_price");
        Ok(())
    } else if sel == 3 {
        match require(host, listed, "el escrow no fue publicado") {
            Err(e) => return Err(e),
            Ok(_) => {},
        }
        match require(host, a >= 0, "units negativo") {
            Err(e) => return Err(e),
            Ok(_) => {},
        }
        match require(host, b >= 0, "max_total negativo") {
            Err(e) => return Err(e),
            Ok(_) => {},
        }
        let price: u64 = read_u64(data.as_slice(), 32);
        let cost: u64 = match (a as u64).checked_mul(price) {
            Some(c) => c,
            None => return Err(abort()),
        };
        if cost > b as u64 {
            return Err(abort());
        }
        let seller = read_pubkey(data.as_slice(), 0);
        let sells = is_account(host, 2, &seller);
        match require(host, sells, "accounts[2] no es el vendedor registrado") {
            Err(e) => return Err(e),
            Ok(_) => {},
        }
        match transfer(host, 0, 2, cost as i64) {
            Err(e) => return Err(e),
            Ok(_) => {},
        }
        log(host, "buy");
        Ok(())
    } else {
        Err(abort())
    }
}

/// Carries a call out. Where the contract gives up, nothing has happened but what it said.
pub fn dispatch(host: &mut Host, args: [i64; 4]) -> (done: Result<(), Abort>)
    ensures
        settled(traded(old(host)@, args), done, old(host)@, final(host)@),
{
    let mut work = host.duplicate();
    let done = trade(&mut work, args);
    settle(host, work, done)
}

/// A buyer never pays more than was named, whatever the price has become, and what is paid
/// goes to the seller and to nobody else; sellers who buy from themselves pay nothing.
pub proof fn law_buyer_never_overpays(h: HostData, args: [i64; 4])
    requires
        solvent(h),
        coherent(h.slots),
        args[0] == 3,
        traded(h, args) is Ok,
    ensures
        ({
            let after = traded(h, args)->Ok_0;
            let cost = args[1] * price_in(h.slots[1].data);
            let one = h.slots[0].address == h.slots[2].address;
            &&& signs(h, 0)
            &&& 0 <= cost <= args[2]
            &&& h.slots[2].address.0@ == seller_in(h.slots[1].data)
            &&& !one ==> h.slots[0].balance - after.slots[0].balance == cost
            &&& !one ==> after.slots[2].balance - h.slots[2].balance == cost
            &&& one ==> after.slots[0].balance == h.slots[0].balance
            &&& total_balance(after.slots) == total_balance(h.slots)
        }),
{
    let own = claimed(h, 1);
    let cost = args[1] * price_in(h.slots[1].data);
    assert(cost >= 0) by (nonlinear_arith)
        requires
            cost == args[1] * price_in(h.slots[1].data),
            args[1] >= 0,
            price_in(h.slots[1].data) >= 0,
    ;
    lemma_claimed_keeps(h, 1);
    assert(own.slots[0].address == h.slots[0].address && own.slots[0].balance
        == h.slots[0].balance && own.slots[0].signer == h.slots[0].signer);
    assert(own.slots[2].address == h.slots[2].address && own.slots[2].balance
        == h.slots[2].balance);
    law_moving_conserves(own, 0, 2, cost as i64);
}

/// Only the publisher makes the offer, and only the seller, by signing, changes the price;
/// the seller stays the same.
pub proof fn law_only_the_seller_prices(h: HostData, args: [i64; 4])
    requires
        traded(h, args) is Ok,
        args[0] == 1 || args[0] == 2,
    ensures
        signs(h, 0),
        args[0] == 1 ==> deployer_signs(h) && seller_in(traded(h, args)->Ok_0.slots[1].data)
            == h.deployer.0@,
        args[0] == 2 ==> h.slots[0].address.0@ == seller_in(h.slots[1].data) && seller_in(
            traded(h, args)->Ok_0.slots[1].data,
        ) == seller_in(h.slots[1].data),
        price_in(traded(h, args)->Ok_0.slots[1].data) == args[1],
{
    let seller = if args[0] == 1 {
        h.slots[0].address.0@
    } else {
        seller_in(h.slots[1].data)
    };
    let price = args[1] as u64;
    let s = seq![price];
    let p = crate::codec::le_bytes(price as nat, 8);
    crate::codec::lemma_le_bytes_len(price as nat, 8);
    assert(s.drop_last() =~= Seq::<u64>::empty());
    assert(numbers_bytes(Seq::<u64>::empty()) =~= Seq::<u8>::empty());
    assert(numbers_bytes(s) =~= p);
    assert(offer_bytes(seller, price).subrange(0, 32) =~= seller);
    assert(offer_bytes(seller, price).subrange(32, 40) =~= p);
    crate::codec::lemma_pow256();
    crate::codec::lemma_le_round_trip(price as nat, 8);
    lemma_claimed_keeps(h, 1);
    lemma_with_data_keeps(claimed(h, 1), 1, offer_bytes(seller, price));
}

} // verus!
