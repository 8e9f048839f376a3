//! A contract that holds money for everybody and pays it out only at the word of the account
//! that published it.
use crate::contract::{
    abort, capped_sum, claimed, coherent, deployer_missed, deployer_signs, ended, get_data,
    having_said, is_pda, law_moving_conserves, lemma_claimed_keeps, lemma_with_data_keeps, log,
    moved, number_at, numbers_bytes, pda_transfer, present, read_pubkey, read_u64, record, require,
    require_deployer, require_signer, set_data, settle, settled, signs, solvent, total_balance,
    transfer, transferred, use_pda, with_data, Abort, Host, HostData, SIGNATURE_WANTED,
};
use crate::pubkey::Pubkey;
use vstd::prelude::*;
use vstd::string::*;
use vstd::utf8::*;

verus! {

/// How many bytes the vault keeps: who may take money out, and how much was ever put in.
pub const STATE_LEN: usize = 40;

/// The vault was set up.
pub open spec fn is_set_up(data: Seq<u8>) -> bool {
    data.len() >= STATE_LEN
}

/// Who may take money out.
pub open spec fn admin_in(data: Seq<u8>) -> Seq<u8> {
    data.subrange(0, 32)
}

/// How much was ever put in.
pub open spec fn deposits_in(data: Seq<u8>) -> u64 {
    number_at(data, 32)
}

/// The bytes of a vault.
pub open spec fn vault_bytes(admin: Seq<u8>, deposits: u64) -> Seq<u8> {
    admin + numbers_bytes(seq![deposits])
}

/// The accounts after a call, or all that was said where the contract gives up: 1 sets the
/// vault up, 2 puts `x` in, 3 takes `x` out for the third account.
pub open spec fn served(h: HostData, args: [i64; 4]) -> Result<HostData, Seq<Seq<char>>> {
    let x = args[1];
    let own = claimed(h, 1);
    let data = h.slots[1].data;
    if !is_pda(h, 1, encode_utf8("vault"@)) {
        Err(h.log.push("accounts[1] no es la PDA de la bóveda"@))
    } else if args[0] == 1 {
        if is_set_up(data) {
            Err(h.log.push("la bóveda ya está inicializada"@))
        } else if !deployer_signs(h) {
            Err(deployer_missed(h))
        } else {
            Ok(
                having_said(
                    with_data(own, 1, vault_bytes(h.slots[0].address.0@, 0)),
                    "init"@,
                ),
            )
        }
    } else if args[0] == 2 {
        if !is_set_up(data) {
            Err(h.log.push("la bóveda no está inicializada"@))
        } else if x < 0 {
            Err(h.log)
        } else {
            match transferred(own, 0, 1, x) {
                Err(log) => Err(log),
                Ok(after) => Ok(
                    having_said(
                        with_data(
                            after,
                            1,
                            vault_bytes(admin_in(data), capped_sum(deposits_in(data), x as u64)),
                        ),
                        "deposit"@,
                    ),
                ),
            }
        }
    } else if args[0] == 3 {
        if !is_set_up(data) {
            Err(h.log.push("la bóveda no está inicializada"@))
        } else if x < 0 {
            Err(h.log)
        } else if !signs(h, 0) {
            Err(h.log.push(SIGNATURE_WANTED@))
        } else if h.slots[0].address.0@ != admin_in(data) {
            Err(h.log.push("sólo el admin puede retirar"@))
        } else {
            match moved(own, 1, 2, x) {
                None => Err(h.log),
                Some(after) => Ok(having_said(after, "withdraw"@)),
            }
        }
    } else {
        Err(h.log)
    }
}

fn serve(host: &mut Host, args: [i64; 4]) -> (done: Result<(), Abort>)
    ensures
        ended(served(old(host)@, args), done, final(host)@),
{
    let sel: i64 = args[0];
    let x: i64 = args[1];
    let ghost before = host@;
    let mine = use_pda(host, 1, "vault".as_bytes());
    match require(host, mine, "accounts[1] no es la PDA de la bóveda") {
        Err(a) => return Err(a),
        Ok(_) => {},
    }
    let ghost own = host@;
    proof {
        lemma_claimed_keeps(before, 1);
        assert(own.slots[1] == claimed(before, 1).slots[1]);
        assert(own.slots[0] == claimed(before, 1).slots[0]);
    }
    let data = get_data(host, 1);
    let ready = data.len() >= STATE_LEN;
    if sel == 1 {
        match require(host, !ready, "la bóveda ya está inicializada") {
            Err(a) => return Err(a),
            Ok(_) => {},
        }
        match require_deployer(host) {
            Err(a) => return Err(a),
            Ok(_) => {},
        }
        let admin: Pubkey = host.slots[0].address;
        let words: [u64; 1] = [0];
        let bytes = record(&admin, words.as_slice());
        proof {
            assert(words@ =~= seq![0u64]);
        }
        set_data(host, 1, bytes);
        log(host, "init");
        Ok(())
    } else if sel == 2 {
        match require(host, ready, "la bóveda no está inicializada") {
            Err(a) => return Err(a),
            Ok(_) => {},
        }
        if x < 0 {
            return Err(abort());
        }
        match transfer(host, 0, 1, x) {
            Err(a) => return Err(a),
            Ok(_) => {},
        }
        let sum: u64 = match read_u64(data.as_slice(), 32).checked_add(x as u64) {
            Some(s) => s,
            None => u64::MAX,
        };
        let words: [u64; 1] = [sum];
        let admin = read_pubkey(data.as_slice(), 0);
        let bytes = record(&admin, words.as_slice());
        proof {
            assert(words@ =~= seq![sum]);
        }
        set_data(host, 1, bytes);
        log(host, "deposit");
        Ok(())
    } else if sel == 3 {
        match require(host, ready, "la bóveda no está inicializada") {
            Err(a) => return Err(a),
            Ok(_) => {},
        }
        if x < 0 {
            return Err(abort());
        }
        match require_signer(host, 0) {
            Err(a) => return Err(a),
            Ok(_) => {},
        }
        let admin = read_pubkey(data.as_slice(), 0);
        let same = host.slots[0].address.same_as(&admin);
        proof {
            if own.slots[0].address.0@ == admin.0@ {
                assert(own.slots[0].address.0 =~= admin.0);
            }
        }
        match require(host, same, "sólo el admin puede retirar") {
            Err(a) => return Err(a),
            Ok(_) => {},
        }
        match pda_transfer(host, 1, 2, x) {
            Err(a) => return Err(a),
            Ok(_) => {},
        }
        log(host, "withdraw");
        Ok(())
    } else {
        Err(abort())
    }
}

/// Carries a call out. Where the contract gives up, nothing has happened but what it said.
pub fn dispatch(host: &mut Host, args: [i64; 4]) -> (done: Result<(), Abort>)
    ensures
        settled(served(old(host)@, args), done, old(host)@, final(host)@),
{
    let mut work = host.duplicate();
    let done = serve(&mut work, args);
    settle(host, work, done)
}

/// A vault is set up only by the account that published the contract, and only once.
pub proof fn law_only_the_publisher_sets_up(h: HostData, args: [i64; 4])
    requires
        served(h, args) is Ok,
        args[0] == 1,
    ensures
        deployer_signs(h),
        !is_set_up(h.slots[1].data),
        is_set_up(served(h, args)->Ok_0.slots[1].data),
        admin_in(served(h, args)->Ok_0.slots[1].data) == h.deployer.0@,
{
    lemma_vault_bytes(h.deployer.0@, 0);
    lemma_claimed_keeps(h, 1);
    lemma_with_data_keeps(claimed(h, 1), 1, vault_bytes(h.slots[0].address.0@, 0));
}

pub proof fn lemma_vault_bytes(admin: Seq<u8>, deposits: u64)
    requires
        admin.len() == 32,
    ensures
        vault_bytes(admin, deposits).len() == 40,
        admin_in(vault_bytes(admin, deposits)) == admin,
        deposits_in(vault_bytes(admin, deposits)) == deposits,
{
    let s = seq![deposits];
    let p = crate::codec::le_bytes(deposits as nat, 8);
    crate::codec::lemma_le_bytes_len(deposits as nat, 8);
    assert(s.drop_last() =~= Seq::<u64>::empty());
    assert(numbers_bytes(Seq::<u64>::empty()) =~= Seq::<u8>::empty());
    assert(numbers_bytes(s) =~= p);
    assert(vault_bytes(admin, deposits).subrange(0, 32) =~= admin);
    assert(vault_bytes(admin, deposits).subrange(32, 40) =~= p);
    crate::codec::lemma_pow256();
    crate::codec::lemma_le_round_trip(deposits as nat, 8);
}

/// Once a vault is set up, who may take money out never changes.
pub proof fn law_admin_stays(h: HostData, args: [i64; 4])
    requires
        solvent(h),
        coherent(h.slots),
        args[0] == 3 ==> present(h, 2),
        served(h, args) is Ok,
        is_set_up(h.slots[1].data),
    ensures
        is_set_up(served(h, args)->Ok_0.slots[1].data),
        admin_in(served(h, args)->Ok_0.slots[1].data) == admin_in(h.slots[1].data),
{
    let data = h.slots[1].data;
    let own = claimed(h, 1);
    lemma_claimed_keeps(h, 1);
    assert(own.slots[1].data == data);
    if args[0] == 2 {
        let bytes = vault_bytes(admin_in(data), capped_sum(deposits_in(data), args[1] as u64));
        lemma_vault_bytes(admin_in(data), capped_sum(deposits_in(data), args[1] as u64));
        law_moving_conserves(own, 0, 1, args[1]);
        lemma_with_data_keeps(transferred(own, 0, 1, args[1])->Ok_0, 1, bytes);
    } else {
        law_moving_conserves(own, 1, 2, args[1]);
    }
}

/// Money leaves the vault only where whoever may take it out has signed.
pub proof fn law_only_the_admin_takes_out(h: HostData, args: [i64; 4])
    requires
        solvent(h),
        coherent(h.slots),
        args[0] == 3 ==> present(h, 2),
        served(h, args) is Ok,
        served(h, args)->Ok_0.slots[1].balance < h.slots[1].balance,
    ensures
        args[0] == 3,
        signs(h, 0),
        h.slots[0].address.0@ == admin_in(h.slots[1].data),
{
    let own = claimed(h, 1);
    let data = h.slots[1].data;
    lemma_claimed_keeps(h, 1);
    assert(own.slots[1].balance == h.slots[1].balance);
    if args[0] == 2 {
        let bytes = vault_bytes(admin_in(data), capped_sum(deposits_in(data), args[1] as u64));
        law_moving_conserves(own, 0, 1, args[1]);
        let paid = transferred(own, 0, 1, args[1])->Ok_0;
        lemma_with_data_keeps(paid, 1, bytes);
        assert(with_data(paid, 1, bytes).slots[1].balance == paid.slots[1].balance);
    } else if args[0] == 1 {
        lemma_with_data_keeps(own, 1, vault_bytes(h.slots[0].address.0@, 0));
        assert(with_data(own, 1, vault_bytes(h.slots[0].address.0@, 0)).slots[1].balance
            == own.slots[1].balance);
    }
}

/// Whatever is called, the sum of all balances stays what it was, and nobody ends in debt. A
/// withdrawal names a third account, to which it goes.
pub proof fn law_vault_conserves(h: HostData, args: [i64; 4])
    requires
        solvent(h),
        coherent(h.slots),
        args[0] == 3 ==> present(h, 2),
        served(h, args) is Ok,
    ensures
        total_balance(served(h, args)->Ok_0.slots) == total_balance(h.slots),
        solvent(served(h, args)->Ok_0),
        coherent(served(h, args)->Ok_0.slots),
{
    let own = claimed(h, 1);
    let data = h.slots[1].data;
    lemma_claimed_keeps(h, 1);
    if args[0] == 1 {
        lemma_with_data_keeps(own, 1, vault_bytes(h.slots[0].address.0@, 0));
    } else if args[0] == 2 {
        let bytes = vault_bytes(admin_in(data), capped_sum(deposits_in(data), args[1] as u64));
        law_moving_conserves(own, 0, 1, args[1]);
        lemma_with_data_keeps(transferred(own, 0, 1, args[1])->Ok_0, 1, bytes);
    } else {
        law_moving_conserves(own, 1, 2, args[1]);
    }
}

} // verus!
