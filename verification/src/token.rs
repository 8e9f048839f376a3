//! A contract that keeps a token of its own: one account with who may make tokens and how
//! many there are, and one account with the tokens of each holder.
use crate::contract::{
    abort, claimed, coherent, ended, get_data, having_said, is_pda, lemma_claimed_keeps,
    lemma_with_data_keeps, log, number_at, number_record, numbers_bytes, pda, present, pubkey,
    read_pubkey, read_u64, record, require, require_signer, set_data, settle, settled, signs,
    use_pda, with_data, Abort, Host, HostData, SlotData, SIGNATURE_WANTED,
};
use crate::counter::lemma_two_numbers;
use crate::hash::collide;
use crate::pubkey::Pubkey;
use crate::wallet_derive::{balance_seed, pda_derivation};
use vstd::prelude::*;
use vstd::string::*;
use vstd::utf8::*;

verus! {

/// How many bytes the token's own account keeps.
pub const MINT_LEN: usize = 48;

/// How many bytes a holder's account keeps.
pub const BAL_LEN: usize = 8;

/// The token was set up.
pub open spec fn is_set_up(data: Seq<u8>) -> bool {
    data.len() >= MINT_LEN
}

/// Who may make tokens.
pub open spec fn authority_in(data: Seq<u8>) -> Seq<u8> {
    data.subrange(0, 32)
}

/// How many tokens there are.
pub open spec fn supply_in(data: Seq<u8>) -> u64 {
    number_at(data, 32)
}

/// How many tokens there may be.
pub open spec fn cap_in(data: Seq<u8>) -> u64 {
    number_at(data, 40)
}

/// How many tokens a holder's account keeps; none where it says nothing.
pub open spec fn tokens_in(data: Seq<u8>) -> u64 {
    if data.len() >= BAL_LEN {
        number_at(data, 0)
    } else {
        0
    }
}

/// The bytes of the token's own account.
pub open spec fn mint_bytes(authority: Seq<u8>, supply: u64, cap: u64) -> Seq<u8> {
    authority + numbers_bytes(seq![supply, cap])
}

/// The bytes of a holder's account.
pub open spec fn tokens_bytes(n: u64) -> Seq<u8> {
    numbers_bytes(seq![n])
}

/// The account at a place is the one in which the token keeps what `holder` has.
pub open spec fn is_balance_of(h: HostData, i: int, holder: Pubkey) -> bool {
    is_pda(h, i, balance_seed(holder))
}

/// The account at a place is the token's own.
pub open spec fn is_mint(h: HostData, i: int) -> bool {
    is_pda(h, i, encode_utf8("mint"@))
}

/// The accounts at the second and third places belong to the program.
pub open spec fn both_claimed(h: HostData) -> HostData {
    claimed(claimed(h, 1), 2)
}

/// The accounts after the token was set up with a cap, or all that was said where it was not.
pub open spec fn set_up(h: HostData, cap: u64) -> Result<HostData, Seq<Seq<char>>> {
    if !is_mint(h, 1) {
        Err(h.log.push("accounts[1] no es la mint PDA"@))
    } else if !signs(h, 0) {
        Err(h.log.push(SIGNATURE_WANTED@))
    } else if is_set_up(h.slots[1].data) {
        Err(h.log.push("el token ya está inicializado"@))
    } else {
        Ok(
            having_said(
                with_data(claimed(h, 1), 1, mint_bytes(h.slots[0].address.0@, 0, cap)),
                "token:init"@,
            ),
        )
    }
}

/// The accounts after tokens were made for the account at the fourth place by whoever may,
/// or all that was said where they were not.
pub open spec fn issued(h: HostData, amount: u64) -> Result<HostData, Seq<Seq<char>>> {
    let m = h.slots[1].data;
    let tokens = tokens_in(h.slots[2].data);
    if !is_mint(h, 1) {
        Err(h.log.push("accounts[1] no es la mint PDA"@))
    } else if !signs(h, 0) {
        Err(h.log.push(SIGNATURE_WANTED@))
    } else if !is_set_up(m) {
        Err(h.log.push("token no inicializado"@))
    } else if h.slots[0].address.0@ != authority_in(m) || !present(h, 3) {
        Err(h.log)
    } else if !is_balance_of(h, 2, h.slots[3].address) {
        Err(h.log.push("accounts[2] no es la PDA de saldo del dest"@))
    } else if supply_in(m) + amount > u64::MAX {
        Err(h.log)
    } else if supply_in(m) + amount > cap_in(m) {
        Err(h.log.push("supera el cap del token"@))
    } else if tokens + amount > u64::MAX {
        Err(h.log)
    } else {
        Ok(
            having_said(
                with_data(
                    with_data(both_claimed(h), 2, tokens_bytes((tokens + amount) as u64)),
                    1,
                    mint_bytes(authority_in(m), (supply_in(m) + amount) as u64, cap_in(m)),
                ),
                "token:mint"@,
            ),
        )
    }
}

/// The accounts after the sender's tokens were lowered.
pub open spec fn lowered(h: HostData, amount: u64) -> HostData {
    with_data(both_claimed(h), 1, tokens_bytes((tokens_in(h.slots[1].data) - amount) as u64))
}

/// The accounts after the first account sent tokens to the one at the fourth place, or all
/// that was said where it did not. What the recipient has is read once the sender has less,
/// so that one who sends to themselves keeps what they have.
pub open spec fn sent(h: HostData, amount: u64) -> Result<HostData, Seq<Seq<char>>> {
    if !signs(h, 0) {
        Err(h.log.push(SIGNATURE_WANTED@))
    } else if !is_balance_of(h, 1, h.slots[0].address) {
        Err(h.log.push("accounts[1] no es TU PDA de saldo"@))
    } else if !present(h, 3) {
        Err(h.log)
    } else if !is_balance_of(h, 2, h.slots[3].address) {
        Err(h.log.push("accounts[2] no es la PDA de saldo del dest"@))
    } else if tokens_in(h.slots[1].data) < amount {
        Err(h.log)
    } else {
        let tokens = tokens_in(lowered(h, amount).slots[2].data);
        if tokens + amount > u64::MAX {
            Err(h.log)
        } else {
            Ok(
                having_said(
                    with_data(lowered(h, amount), 2, tokens_bytes((tokens + amount) as u64)),
                    "token:transfer"@,
                ),
            )
        }
    }
}

/// The accounts after the first account destroyed tokens of its own, or all that was said
/// where it did not.
pub open spec fn burned(h: HostData, amount: u64) -> Result<HostData, Seq<Seq<char>>> {
    if !signs(h, 0) {
        Err(h.log.push(SIGNATURE_WANTED@))
    } else if !is_balance_of(h, 1, h.slots[0].address) {
        Err(h.log.push("accounts[1] no es TU PDA de saldo"@))
    } else if !is_mint(h, 2) {
        Err(h.log.push("accounts[2] no es la mint PDA"@))
    } else if tokens_in(h.slots[1].data) < amount {
        Err(h.log)
    } else {
        let m = lowered(h, amount).slots[2].data;
        if !is_set_up(m) {
            Err(h.log.push("token no inicializado"@))
        } else if supply_in(m) < amount {
            Err(h.log)
        } else {
            Ok(
                having_said(
                    with_data(
                        lowered(h, amount),
                        2,
                        mint_bytes(authority_in(m), (supply_in(m) - amount) as u64, cap_in(m)),
                    ),
                    "token:burn"@,
                ),
            )
        }
    }
}

/// The accounts after a call, or all that was said where the contract gives up: 1 sets the
/// token up, 2 makes tokens, 3 sends some, 4 destroys some.
pub open spec fn minted(h: HostData, args: [i64; 4]) -> Result<HostData, Seq<Seq<char>>> {
    let amount = args[1] as u64;
    if args[1] < 0 {
        Err(h.log.push("monto negativo"@))
    } else if args[0] == 1 {
        set_up(h, amount)
    } else if args[0] == 2 {
        issued(h, amount)
    } else if args[0] == 3 {
        sent(h, amount)
    } else if args[0] == 4 {
        burned(h, amount)
    } else {
        Err(h.log)
    }
}

/// How many tokens the account at a place keeps.
pub fn load_balance(host: &Host, idx: u32) -> (n: u64)
    requires
        present(host@, idx as int),
    ensures
        n == tokens_in(host@.slots[idx as int].data),
{
    let data = get_data(host, idx);
    if data.len() >= BAL_LEN {
        read_u64(data.as_slice(), 0)
    } else {
        0
    }
}

/// Writes how many tokens the account at a place keeps.
pub fn store_balance(host: &mut Host, idx: u32, n: u64)
    requires
        present(old(host)@, idx as int),
    ensures
        final(host)@ == with_data(old(host)@, idx as int, tokens_bytes(n)),
{
    let words: [u64; 1] = [n];
    let bytes = number_record(words.as_slice());
    proof {
        assert(words@ =~= seq![n]);
    }
    set_data(host, idx, bytes);
}

fn holder_seed(holder: &Pubkey) -> (seed: Vec<u8>)
    ensures
        seed@ == balance_seed(*holder),
{
    let mut seed: Vec<u8> = Vec::new();
    seed.push(1);
    seed.extend_from_slice(holder.0.as_slice());
    proof {
        assert(seed@ =~= balance_seed(*holder));
    }
    seed
}

fn write_mint(host: &mut Host, idx: u32, authority: &Pubkey, supply: u64, cap: u64)
    requires
        present(old(host)@, idx as int),
    ensures
        final(host)@ == with_data(old(host)@, idx as int, mint_bytes(authority.0@, supply, cap)),
{
    let words: [u64; 2] = [supply, cap];
    let bytes = record(authority, words.as_slice());
    proof {
        assert(words@ =~= seq![supply, cap]);
    }
    set_data(host, idx, bytes);
}

fn init(host: &mut Host, cap: u64) -> (done: Result<(), Abort>)
    ensures
        ended(set_up(old(host)@, cap), done, final(host)@),
{
    let ghost h = host@;
    let mine = use_pda(host, 1, "mint".as_bytes());
    match require(host, mine, "accounts[1] no es la mint PDA") {
        Err(a) => return Err(a),
        Ok(_) => {},
    }
    proof {
        lemma_claimed_keeps(h, 1);
        assert(host@.slots[0] == claimed(h, 1).slots[0]);
        assert(host@.slots[1] == claimed(h, 1).slots[1]);
    }
    match require_signer(host, 0) {
        Err(a) => return Err(a),
        Ok(_) => {},
    }
    let fresh = get_data(host, 1).len() < MINT_LEN;
    match require(host, fresh, "el token ya está inicializado") {
        Err(a) => return Err(a),
        Ok(_) => {},
    }
    let authority: Pubkey = host.slots[0].address;
    write_mint(host, 1, &authority, 0, cap);
    log(host, "token:init");
    Ok(())
}

fn mint(host: &mut Host, amount: u64) -> (done: Result<(), Abort>)
    ensures
        ended(issued(old(host)@, amount), done, final(host)@),
{
    let ghost h = host@;
    let mine = use_pda(host, 1, "mint".as_bytes());
    match require(host, mine, "accounts[1] no es la mint PDA") {
        Err(a) => return Err(a),
        Ok(_) => {},
    }
    let ghost first = host@;
    proof {
        lemma_claimed_keeps(h, 1);
        assert(first.slots[0] == claimed(h, 1).slots[0]);
        assert(first.slots[1] == claimed(h, 1).slots[1]);
        if present(h, 3) {
            assert(first.slots[2] == claimed(h, 1).slots[2]);
            assert(first.slots[3] == claimed(h, 1).slots[3]);
        }
    }
    match require_signer(host, 0) {
        Err(a) => return Err(a),
        Ok(_) => {},
    }
    let m = get_data(host, 1);
    match require(host, m.len() >= MINT_LEN, "token no inicializado") {
        Err(a) => return Err(a),
        Ok(_) => {},
    }
    let authority = read_pubkey(m.as_slice(), 0);
    let allowed = host.slots[0].address.same_as(&authority);
    proof {
        if h.slots[0].address.0@ == authority.0@ {
            assert(h.slots[0].address.0 =~= authority.0);
        }
    }
    if !allowed {
        return Err(abort());
    }
    let dest = match pubkey(host, 3) {
        Err(a) => return Err(a),
        Ok(k) => k,
    };
    let theirs = use_pda(host, 2, holder_seed(&dest).as_slice());
    match require(host, theirs, "accounts[2] no es la PDA de saldo del dest") {
        Err(a) => return Err(a),
        Ok(_) => {},
    }
    proof {
        lemma_claimed_keeps(first, 2);
        assert(host@.slots[2] == claimed(first, 2).slots[2]);
    }
    let supply: u64 = read_u64(m.as_slice(), 32);
    let cap: u64 = read_u64(m.as_slice(), 40);
    let new_supply: u64 = match supply.checked_add(amount) {
        Some(s) => s,
        None => return Err(abort()),
    };
    match require(host, new_supply <= cap, "supera el cap del token") {
        Err(a) => return Err(a),
        Ok(_) => {},
    }
    let new_tokens: u64 = match load_balance(host, 2).checked_add(amount) {
        Some(n) => n,
        None => return Err(abort()),
    };
    store_balance(host, 2, new_tokens);
    write_mint(host, 1, &authority, new_supply, cap);
    log(host, "token:mint");
    Ok(())
}

fn send(host: &mut Host, amount: u64) -> (done: Result<(), Abort>)
    ensures
        ended(sent(old(host)@, amount), done, final(host)@),
{
    let ghost h = host@;
    match require_signer(host, 0) {
        Err(a) => return Err(a),
        Ok(_) => {},
    }
    let from: Pubkey = host.slots[0].address;
    let mine = use_pda(host, 1, holder_seed(&from).as_slice());
    match require(host, mine, "accounts[1] no es TU PDA de saldo") {
        Err(a) => return Err(a),
        Ok(_) => {},
    }
    let ghost first = host@;
    proof {
        lemma_claimed_keeps(h, 1);
        assert(first.slots[1] == claimed(h, 1).slots[1]);
        if present(h, 3) {
            assert(first.slots[2] == claimed(h, 1).slots[2]);
            assert(first.slots[3] == claimed(h, 1).slots[3]);
        }
    }
    let dest = match pubkey(host, 3) {
        Err(a) => return Err(a),
        Ok(k) => k,
    };
    let theirs = use_pda(host, 2, holder_seed(&dest).as_slice());
    match require(host, theirs, "accounts[2] no es la PDA de saldo del dest") {
        Err(a) => return Err(a),
        Ok(_) => {},
    }
    proof {
        lemma_claimed_keeps(first, 2);
        assert(host@.slots[1] == claimed(first, 2).slots[1]);
    }
    let left: u64 = match load_balance(host, 1).checked_sub(amount) {
        Some(n) => n,
        None => return Err(abort()),
    };
    store_balance(host, 1, left);
    let arrived: u64 = match load_balance(host, 2).checked_add(amount) {
        Some(n) => n,
        None => return Err(abort()),
    };
    store_balance(host, 2, arrived);
    log(host, "token:transfer");
    Ok(())
}

fn burn(host: &mut Host, amount: u64) -> (done: Result<(), Abort>)
    ensures
        ended(burned(old(host)@, amount), done, final(host)@),
{
    let ghost h = host@;
    match require_signer(host, 0) {
        Err(a) => return Err(a),
        Ok(_) => {},
    }
    let holder: Pubkey = host.slots[0].address;
    let mine = use_pda(host, 1, holder_seed(&holder).as_slice());
    match require(host, mine, "accounts[1] no es TU PDA de saldo") {
        Err(a) => return Err(a),
        Ok(_) => {},
    }
    let ghost first = host@;
    proof {
        lemma_claimed_keeps(h, 1);
        assert(first.slots[1] == claimed(h, 1).slots[1]);
        if present(h, 2) {
            assert(first.slots[2] == claimed(h, 1).slots[2]);
        }
    }
    let its = use_pda(host, 2, "mint".as_bytes());
    match require(host, its, "accounts[2] no es la mint PDA") {
        Err(a) => return Err(a),
        Ok(_) => {},
    }
    proof {
        lemma_claimed_keeps(first, 2);
        assert(host@.slots[1] == claimed(first, 2).slots[1]);
    }
    let left: u64 = match load_balance(host, 1).checked_sub(amount) {
        Some(n) => n,
        None => return Err(abort()),
    };
    store_balance(host, 1, left);
    let m = get_data(host, 2);
    match require(host, m.len() >= MINT_LEN, "token no inicializado") {
        Err(a) => return Err(a),
        Ok(_) => {},
    }
    let supply: u64 = match read_u64(m.as_slice(), 32).checked_sub(amount) {
        Some(n) => n,
        None => return Err(abort()),
    };
    let authority = read_pubkey(m.as_slice(), 0);
    let cap: u64 = read_u64(m.as_slice(), 40);
    write_mint(host, 2, &authority, supply, cap);
    log(host, "token:burn");
    Ok(())
}

fn run(host: &mut Host, args: [i64; 4]) -> (done: Result<(), Abort>)
    ensures
        ended(minted(old(host)@, args), done, final(host)@),
{
    let sel: i64 = args[0];
    match require(host, args[1] >= 0, "monto negativo") {
        Err(a) => return Err(a),
        Ok(_) => {},
    }
    let amount: u64 = args[1] as u64;
    if sel == 1 {
        init(host, amount)
    } else if sel == 2 {
        mint(host, amount)
    } else if sel == 3 {
        send(host, amount)
    } else if sel == 4 {
        burn(host, amount)
    } else {
        Err(abort())
    }
}

/// Carries a call out. Where the contract gives up, nothing has happened but what it said.
pub fn dispatch(host: &mut Host, args: [i64; 4]) -> (done: Result<(), Abort>)
    ensures
        settled(minted(old(host)@, args), done, old(host)@, final(host)@),
{
    let mut work = host.duplicate();
    let done = run(&mut work, args);
    settle(host, work, done)
}

pub proof fn lemma_mint_bytes(authority: Seq<u8>, supply: u64, cap: u64)
    requires
        authority.len() == 32,
    ensures
        mint_bytes(authority, supply, cap).len() == 48,
        authority_in(mint_bytes(authority, supply, cap)) == authority,
        supply_in(mint_bytes(authority, supply, cap)) == supply,
        cap_in(mint_bytes(authority, supply, cap)) == cap,
{
    let b = mint_bytes(authority, supply, cap);
    let n = numbers_bytes(seq![supply, cap]);
    lemma_two_numbers(supply, cap);
    assert(b.subrange(0, 32) =~= authority);
    assert(b.subrange(32, 40) =~= n.subrange(0, 8));
    assert(b.subrange(40, 48) =~= n.subrange(8, 16));
}

pub proof fn lemma_tokens_bytes(n: u64)
    ensures
        tokens_bytes(n).len() == 8,
        tokens_in(tokens_bytes(n)) == n,
{
    let s = seq![n];
    let p = crate::codec::le_bytes(n as nat, 8);
    crate::codec::lemma_le_bytes_len(n as nat, 8);
    assert(s.drop_last() =~= Seq::<u64>::empty());
    assert(numbers_bytes(Seq::<u64>::empty()) =~= Seq::<u8>::empty());
    assert(numbers_bytes(s) =~= p);
    assert(p.subrange(0, 8) =~= p);
    crate::codec::lemma_pow256();
    crate::codec::lemma_le_round_trip(n as nat, 8);
}

/// What the two holders' accounts at the second and third places keep together; one account
/// that is named twice is counted once.
pub open spec fn tokens_of_both(h: HostData) -> int {
    if h.slots[1].address == h.slots[2].address {
        tokens_in(h.slots[1].data) as int
    } else {
        tokens_in(h.slots[1].data) + tokens_in(h.slots[2].data)
    }
}

pub proof fn lemma_both_claimed(h: HostData)
    requires
        present(h, 2),
    ensures
        both_claimed(h).slots.len() == h.slots.len(),
        forall|j: int|
            0 <= j < h.slots.len() ==> (#[trigger] both_claimed(h).slots[j]) == (SlotData {
                owned: both_claimed(h).slots[j].owned,
                ..h.slots[j]
            }),
        forall|j: int|
            0 <= j < h.slots.len() && h.slots[j].address != h.slots[1].address
                && h.slots[j].address != h.slots[2].address
                ==> #[trigger] both_claimed(h).slots[j] == h.slots[j],
{
    lemma_claimed_keeps(h, 1);
    lemma_claimed_keeps(claimed(h, 1), 2);
    assert forall|j: int| 0 <= j < h.slots.len() implies (#[trigger] both_claimed(h).slots[j]) == (
    SlotData { owned: both_claimed(h).slots[j].owned, ..h.slots[j] }) by {
        assert(claimed(h, 1).slots[j].address == h.slots[j].address);
    }
    assert(claimed(h, 1).slots[2].address == h.slots[2].address);
    assert forall|j: int|
        0 <= j < h.slots.len() && h.slots[j].address != h.slots[1].address && h.slots[j].address
            != h.slots[2].address implies #[trigger] both_claimed(h).slots[j] == h.slots[j] by {
        assert(claimed(h, 1).slots[j] == h.slots[j]);
    }
}

/// Writing the second place and then the third, of accounts that were claimed before.
pub proof fn lemma_two_writes(h: HostData, i: int, a: Seq<u8>, j: int, b: Seq<u8>)
    requires
        present(h, 2),
        (i == 1 && j == 2) || (i == 2 && j == 1),
    ensures
        ({
            let mid = with_data(both_claimed(h), i, a);
            let after = with_data(mid, j, b);
            let one = h.slots[i].address == h.slots[j].address;
            &&& after.slots.len() == h.slots.len()
            &&& mid.slots[i].data == a
            &&& mid.slots[j].data == if one { a } else { h.slots[j].data }
            &&& after.slots[i].data == if one { b } else { a }
            &&& after.slots[j].data == b
            &&& after.slots[i].address == h.slots[i].address
            &&& after.slots[j].address == h.slots[j].address
            &&& forall|k: int|
                0 <= k < h.slots.len() && h.slots[k].address != h.slots[1].address
                    && h.slots[k].address != h.slots[2].address ==> #[trigger] after.slots[k]
                    == h.slots[k]
        }),
{
    let c = both_claimed(h);
    let mid = with_data(c, i, a);
    let after = with_data(mid, j, b);
    lemma_both_claimed(h);
    lemma_with_data_keeps(c, i, a);
    lemma_with_data_keeps(mid, j, b);
    assert(c.slots[i].address == h.slots[i].address);
    assert(c.slots[j].address == h.slots[j].address && c.slots[j].data == h.slots[j].data);
    assert(mid.slots[i].address == c.slots[i].address);
    assert(mid.slots[j].address == c.slots[j].address);
    assert(after.slots[i].address == mid.slots[i].address);
    assert forall|k: int|
        0 <= k < h.slots.len() && h.slots[k].address != h.slots[1].address && h.slots[k].address
            != h.slots[2].address implies #[trigger] after.slots[k] == h.slots[k] by {
        assert(c.slots[k] == h.slots[k]);
        assert(mid.slots[k] == c.slots[k]);
    }
}

/// A transfer keeps the sum of what sender and recipient have and touches nobody else; one
/// to oneself leaves what one has.
pub proof fn law_sending_conserves_tokens(h: HostData, args: [i64; 4])
    requires
        coherent(h.slots),
        args[0] == 3,
        minted(h, args) is Ok,
    ensures
        ({
            let after = minted(h, args)->Ok_0;
            let one = h.slots[1].address == h.slots[2].address;
            &&& tokens_of_both(after) == tokens_of_both(h)
            &&& tokens_in(after.slots[1].data) == tokens_in(h.slots[1].data) - if one {
                0
            } else {
                args[1] as int
            }
            &&& forall|i: int|
                0 <= i < h.slots.len() && h.slots[i].address != h.slots[1].address
                    && h.slots[i].address != h.slots[2].address ==> #[trigger] after.slots[i]
                    == h.slots[i]
        }),
{
    let amount = args[1] as u64;
    let left = (tokens_in(h.slots[1].data) - amount) as u64;
    let tokens = tokens_in(lowered(h, amount).slots[2].data);
    lemma_tokens_bytes(left);
    lemma_tokens_bytes((tokens + amount) as u64);
    lemma_two_writes(h, 1, tokens_bytes(left), 2, tokens_bytes((tokens + amount) as u64));
    if h.slots[1].address == h.slots[2].address {
        assert(h.slots[1] == h.slots[2]);
    }
}

/// What is hashed for the token's own address and for the address of what `holder` has
/// collides.
pub open spec fn addresses_collide(program: Pubkey, holder: Pubkey) -> bool {
    collide(
        pda_derivation(program, encode_utf8("mint"@)),
        pda_derivation(program, balance_seed(holder)),
    )
}

proof fn lemma_own_address(program: Pubkey, holder: Pubkey)
    ensures
        pda(program, encode_utf8("mint"@)) != pda(program, balance_seed(holder))
            || addresses_collide(program, holder),
{
    reveal_strlit("mint");
    is_ascii_chars_encode_utf8("mint"@);
    let a = pda_derivation(program, encode_utf8("mint"@));
    let b = pda_derivation(program, balance_seed(holder));
    assert(a.len() != b.len());
}

/// Making tokens raises the supply by what the recipient gets, and destroying them lowers it
/// by what the holder loses, and nobody else is touched: the supply stays the sum of what all
/// holders have. It never exceeds the cap, which never changes. All this holds unless what
/// was hashed for the two accounts collides.
pub proof fn law_supply_follows_the_balances(h: HostData, args: [i64; 4])
    requires
        coherent(h.slots),
        minted(h, args) is Ok,
    ensures
        ({
            let after = minted(h, args)->Ok_0;
            &&& args[0] == 1 ==> supply_in(after.slots[1].data) == 0 && cap_in(
                after.slots[1].data,
            ) == args[1]
            &&& args[0] == 2 && !addresses_collide(h.program, h.slots[3].address) ==> {
                &&& supply_in(after.slots[1].data) - supply_in(h.slots[1].data) == tokens_in(
                    after.slots[2].data,
                ) - tokens_in(h.slots[2].data)
                &&& supply_in(after.slots[1].data) == supply_in(h.slots[1].data) + args[1]
                &&& supply_in(after.slots[1].data) <= cap_in(after.slots[1].data)
                &&& cap_in(after.slots[1].data) == cap_in(h.slots[1].data)
            }
            &&& args[0] == 4 && !addresses_collide(h.program, h.slots[0].address) ==> {
                &&& supply_in(h.slots[2].data) - supply_in(after.slots[2].data) == tokens_in(
                    h.slots[1].data,
                ) - tokens_in(after.slots[1].data)
                &&& supply_in(after.slots[2].data) == supply_in(h.slots[2].data) - args[1]
                &&& cap_in(after.slots[2].data) == cap_in(h.slots[2].data)
            }
            &&& args[0] == 2 || args[0] == 4 ==> forall|i: int|
                0 <= i < h.slots.len() && h.slots[i].address != h.slots[1].address
                    && h.slots[i].address != h.slots[2].address ==> #[trigger] after.slots[i]
                    == h.slots[i]
        }),
{
    let amount = args[1] as u64;
    if args[0] == 1 {
        lemma_mint_bytes(h.slots[0].address.0@, 0, amount);
        lemma_claimed_keeps(h, 1);
        lemma_with_data_keeps(claimed(h, 1), 1, mint_bytes(h.slots[0].address.0@, 0, amount));
    } else if args[0] == 2 {
        let m = h.slots[1].data;
        let supply = (supply_in(m) + amount) as u64;
        let tokens = (tokens_in(h.slots[2].data) + amount) as u64;
        lemma_own_address(h.program, h.slots[3].address);
        lemma_mint_bytes(authority_in(m), supply, cap_in(m));
        lemma_tokens_bytes(tokens);
        lemma_two_writes(
            h,
            2,
            tokens_bytes(tokens),
            1,
            mint_bytes(authority_in(m), supply, cap_in(m)),
        );
    } else if args[0] == 4 {
        let left = (tokens_in(h.slots[1].data) - amount) as u64;
        let m = lowered(h, amount).slots[2].data;
        let supply = (supply_in(m) - amount) as u64;
        lemma_own_address(h.program, h.slots[0].address);
        lemma_mint_bytes(authority_in(m), supply, cap_in(m));
        lemma_tokens_bytes(left);
        lemma_two_writes(
            h,
            1,
            tokens_bytes(left),
            2,
            mint_bytes(authority_in(m), supply, cap_in(m)),
        );
    }
}

/// Only whoever set the token up makes tokens, and stays the only one who may.
pub proof fn law_only_the_authority_mints(h: HostData, args: [i64; 4])
    requires
        minted(h, args) is Ok,
        args[0] == 2,
    ensures
        signs(h, 0),
        h.slots[0].address.0@ == authority_in(h.slots[1].data),
        authority_in(minted(h, args)->Ok_0.slots[1].data) == authority_in(h.slots[1].data),
{
    let m = h.slots[1].data;
    let amount = args[1] as u64;
    let supply = (supply_in(m) + amount) as u64;
    lemma_mint_bytes(authority_in(m), supply, cap_in(m));
    lemma_two_writes(
        h,
        2,
        tokens_bytes((tokens_in(h.slots[2].data) + amount) as u64),
        1,
        mint_bytes(authority_in(m), supply, cap_in(m)),
    );
}

/// Tokens are taken only out of the account that belongs to the one who signed.
pub proof fn law_only_own_tokens_leave(h: HostData, args: [i64; 4])
    requires
        coherent(h.slots),
        minted(h, args) is Ok,
        args[0] == 3 || args[0] == 4,
    ensures
        signs(h, 0),
        is_balance_of(h, 1, h.slots[0].address),
        forall|i: int|
            0 <= i < h.slots.len() && h.slots[i].address != h.slots[1].address
                && h.slots[i].address != h.slots[2].address ==> #[trigger] minted(
                h,
                args,
            )->Ok_0.slots[i] == h.slots[i],
        args[0] == 3 ==> tokens_in(minted(h, args)->Ok_0.slots[2].data) >= tokens_in(
            h.slots[2].data,
        ),
{
    if args[0] == 3 {
        law_sending_conserves_tokens(h, args);
        let amount = args[1] as u64;
        let left = (tokens_in(h.slots[1].data) - amount) as u64;
        let tokens = tokens_in(lowered(h, amount).slots[2].data);
        lemma_two_writes(h, 1, tokens_bytes(left), 2, tokens_bytes((tokens + amount) as u64));
    } else {
        law_supply_follows_the_balances(h, args);
    }
}

} // verus!
