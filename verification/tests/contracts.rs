use qchain::contract::{balance, credit, number_record, pda_transfer, read_u64, require_signer, transfer, Abort, Host, Slot};
use qchain::pubkey::Pubkey;
use qchain::{counter, escrow, payments, shared_counter, token, vault};
use sha3::{Digest, Sha3_256};

const PROGRAM: [u8; 32] = [42u8; 32];

fn slot(address: [u8; 32], balance: i64, signer: bool) -> Slot {
    Slot { address: Pubkey::new(address), balance, data: vec![], signer, owned: false }
}

fn pda(seed: &[u8]) -> [u8; 32] {
    Sha3_256::digest([b"qchain-program-pda-v1".as_slice(), &PROGRAM, seed].concat()).into()
}

fn host(slots: Vec<Slot>) -> Host {
    Host { program: Pubkey::new(PROGRAM), deployer: Pubkey::new([1u8; 32]), slots, log: vec![], stray: vec![] }
}

fn balances(h: &Host) -> Vec<i64> {
    h.slots.iter().map(|s| s.balance).collect()
}

#[test]
fn payments_are_made_by_the_signer_and_split() {
    let mut h = host(vec![slot([1; 32], 1_000, true), slot([2; 32], 0, false), slot([3; 32], 0, false), slot([4; 32], 0, false)]);
    assert!(payments::dispatch(&mut h, [1, 100, 0, 0]).is_ok());
    assert_eq!(balances(&h), vec![900, 100, 0, 0]);
    assert!(payments::dispatch(&mut h, [3, 100, 200, 300]).is_ok());
    assert_eq!(balances(&h), vec![300, 200, 200, 300]);
    assert!(payments::dispatch(&mut h, [5, 5_000, 0, 0]).is_ok(), "half, in units of ten thousand");
    assert_eq!(balances(&h), vec![300, 200, 200, 300]);
    assert!(payments::dispatch(&mut h, [2, 200, 200, 0]).is_err(), "what cannot be paid in full is not paid in part");
    assert_eq!(balances(&h), vec![300, 200, 200, 300]);
    assert!(payments::dispatch(&mut h, [4, 0, 0, 0]).is_ok());
    assert_eq!(balances(&h), vec![0, 500, 200, 300]);
    assert!(payments::dispatch(&mut h, [5, 10_001, 0, 0]).is_err());
    assert!(payments::dispatch(&mut h, [9, 0, 0, 0]).is_err());
    h.slots[0].signer = false;
    assert!(payments::dispatch(&mut h, [1, 0, 0, 0]).is_err(), "nobody pays without a signature");
    assert_eq!(
        h.log,
        vec!["transfer", "split3", "pct", "split2", "sweep", "pct", "transfer", "qchain-sdk: se requiere firma"],
        "what was said stays, also where the contract gave up"
    );
}

#[test]
fn counters_count_for_their_signer() {
    let mut h = host(vec![slot([1; 32], 0, true)]);
    counter::dispatch(&mut h, [1, 10, 0, 0]).unwrap();
    counter::dispatch(&mut h, [2, 5, 0, 0]).unwrap();
    counter::dispatch(&mut h, [3, 20, 0, 0]).unwrap();
    assert_eq!(h.slots[0].data, [(-5i64).to_le_bytes(), 2i64.to_le_bytes()].concat());
    counter::dispatch(&mut h, [1, i64::MAX, 0, 0]).unwrap();
    counter::dispatch(&mut h, [2, 1, 0, 0]).unwrap();
    assert_eq!(read_u64(&h.slots[0].data, 0), i64::MAX as u64, "a count stops at its limit");
    assert!(counter::dispatch(&mut h, [9, 0, 0, 0]).is_err());
    h.slots[0].signer = false;
    assert!(counter::dispatch(&mut h, [2, 1, 0, 0]).is_err());
}

#[test]
fn everybody_adds_to_the_shared_counter() {
    let mut h = host(vec![slot([1; 32], 0, false), slot(pda(b"global"), 0, false)]);
    shared_counter::dispatch(&mut h, [1, 7, 0, 0]).unwrap();
    shared_counter::dispatch(&mut h, [1, 8, 0, 0]).unwrap();
    assert_eq!(h.slots[1].data, number_record(&[15, 2]));
    assert!(shared_counter::dispatch(&mut h, [1, -1, 0, 0]).is_err(), "nobody takes from it");
    let mut other = host(vec![slot([1; 32], 0, false), slot(pda(b"other"), 0, false)]);
    assert!(shared_counter::dispatch(&mut other, [1, 7, 0, 0]).is_err());
}

#[test]
fn only_the_admin_takes_out_of_the_vault() {
    let mut h = host(vec![slot([1; 32], 100, true), slot(pda(b"vault"), 0, false), slot([3; 32], 0, false)]);
    assert!(vault::dispatch(&mut h, [2, 10, 0, 0]).is_err(), "there is no vault yet");
    vault::dispatch(&mut h, [1, 0, 0, 0]).unwrap();
    assert!(vault::dispatch(&mut h, [1, 0, 0, 0]).is_err(), "it is set up once");
    vault::dispatch(&mut h, [2, 60, 0, 0]).unwrap();
    vault::dispatch(&mut h, [3, 25, 0, 0]).unwrap();
    assert_eq!(balances(&h), vec![40, 35, 25]);
    h.slots[0] = slot([9; 32], 0, true);
    assert!(vault::dispatch(&mut h, [3, 1, 0, 0]).is_err(), "a stranger takes nothing");
    let mut stranger = host(vec![slot([9; 32], 0, true), slot(pda(b"vault"), 0, false)]);
    assert!(vault::dispatch(&mut stranger, [1, 0, 0, 0]).is_err(), "only the publisher sets it up");
}

fn balance_seed(holder: [u8; 32]) -> Vec<u8> {
    [[1u8].as_slice(), &holder].concat()
}

#[test]
fn tokens_are_minted_sent_and_burned() {
    let mut h = host(vec![slot([1; 32], 0, true), slot(pda(b"mint"), 0, false), slot(pda(&balance_seed([1; 32])), 0, false), slot([1; 32], 0, false)]);
    token::dispatch(&mut h, [1, 100, 0, 0]).unwrap();
    token::dispatch(&mut h, [2, 90, 0, 0]).unwrap();
    assert!(token::dispatch(&mut h, [2, 11, 0, 0]).is_err(), "no more than the cap");
    assert_eq!(token::load_balance(&h, 2), 90);

    let mut s = host(vec![
        slot([1; 32], 0, true),
        Slot { data: h.slots[2].data.clone(), ..slot(pda(&balance_seed([1; 32])), 0, false) },
        slot(pda(&balance_seed([2; 32])), 0, false),
        slot([2; 32], 0, false),
    ]);
    token::dispatch(&mut s, [3, 40, 0, 0]).unwrap();
    assert_eq!((token::load_balance(&s, 1), token::load_balance(&s, 2)), (50, 40));
    assert!(token::dispatch(&mut s, [3, 51, 0, 0]).is_err(), "nobody sends more than they have");
    assert!(token::dispatch(&mut s, [3, -1, 0, 0]).is_err());

    let mut b = host(vec![
        slot([1; 32], 0, true),
        Slot { data: s.slots[1].data.clone(), ..slot(pda(&balance_seed([1; 32])), 0, false) },
        Slot { data: h.slots[1].data.clone(), ..slot(pda(b"mint"), 0, false) },
    ]);
    token::dispatch(&mut b, [4, 50, 0, 0]).unwrap();
    assert_eq!(token::load_balance(&b, 1), 0);
    assert_eq!(read_u64(&b.slots[2].data, 32), 40, "the supply follows");
    assert_eq!(b.log, vec!["token:burn"]);
}

#[test]
fn buyers_pay_the_price_and_no_more_than_they_allow() {
    let mut h = host(vec![slot([1; 32], 0, true), slot(pda(b"escrow"), 0, false), slot([1; 32], 0, false)]);
    escrow::dispatch(&mut h, [1, 30, 0, 0]).unwrap();
    h.slots[0] = slot([5; 32], 100, true);
    assert!(escrow::dispatch(&mut h, [2, 1, 0, 0]).is_err(), "only the seller sets the price");
    assert!(escrow::dispatch(&mut h, [3, 2, 59, 0]).is_err(), "the price is over the limit");
    escrow::dispatch(&mut h, [3, 2, 60, 0]).unwrap();
    assert_eq!(balances(&h), vec![40, 0, 60]);
    h.slots[0] = slot([1; 32], 0, true);
    escrow::dispatch(&mut h, [2, 7, 0, 0]).unwrap();
    assert_eq!(read_u64(&h.slots[1].data, 32), 7);
    h.slots[0].signer = false;
    assert!(escrow::dispatch(&mut h, [2, 1, 0, 0]).is_err(), "the seller signs for a new price");
}

#[test]
fn a_missing_signature_is_said_before_the_contract_gives_up() {
    let mut h = host(vec![slot([1; 32], 10, true), slot([2; 32], 20, false)]);
    assert_eq!(require_signer(&mut h, 0), Ok(()));
    assert!(h.log.is_empty());
    assert_eq!(require_signer(&mut h, 1), Err(Abort));
    assert_eq!(require_signer(&mut h, 7), Err(Abort), "nobody stands there");
    assert_eq!(h.log, vec!["qchain-sdk: se requiere firma", "qchain-sdk: se requiere firma"]);
    assert_eq!(balances(&h), vec![10, 20]);
}

#[test]
fn an_account_that_the_call_does_not_name_counts_as_empty() {
    let mut h = host(vec![slot([1; 32], 10, true)]);
    assert_eq!(balance(&h, 5), -1);
    assert_eq!(credit(&mut h, 5, 7), Ok(()));
    assert_eq!(h.stray, vec![(5, 7)], "one write of nothing and seven");
    assert_eq!(credit(&mut h, 5, -1), Err(Abort));
    assert_eq!(credit(&mut h, 0, i64::MAX), Err(Abort), "the balance would not fit");
    assert_eq!(credit(&mut h, 0, 5), Ok(()));
    assert_eq!(balances(&h), vec![15]);
    assert_eq!(h.stray, vec![(5, 7)]);
    assert!(payments::dispatch(&mut h, [1, 3, 0, 0]).is_ok());
    assert_eq!((balances(&h), h.stray), (vec![12], vec![(5, 7), (1, 3)]));
}

#[test]
fn an_account_that_is_named_twice_is_one_account() {
    let mut h = host(vec![slot([1; 32], 10, true), slot([2; 32], 1, false), slot([1; 32], 10, true)]);
    transfer(&mut h, 0, 1, 4).unwrap();
    assert_eq!(balances(&h), vec![6, 5, 6]);
    transfer(&mut h, 0, 2, 6).unwrap();
    assert_eq!(balances(&h), vec![6, 5, 6], "nothing is made by paying oneself");
    pda_transfer(&mut h, 1, 2, 5).unwrap();
    assert_eq!(balances(&h), vec![11, 0, 11]);
}

#[test]
fn tokens_that_are_sent_to_oneself_stay_as_many() {
    let own = || Slot { data: number_record(&[70]), ..slot(pda(&balance_seed([1; 32])), 0, false) };
    let mut h = host(vec![slot([1; 32], 0, true), own(), own(), slot([1; 32], 0, true)]);
    token::dispatch(&mut h, [3, 30, 0, 0]).unwrap();
    assert_eq!((token::load_balance(&h, 1), token::load_balance(&h, 2)), (70, 70));
    assert!(token::dispatch(&mut h, [3, 71, 0, 0]).is_err());
    assert_eq!(h.log, vec!["token:transfer"]);
}

#[test]
fn contracts_say_why_they_give_up() {
    let mut h = host(vec![slot([1; 32], 0, true), slot([8; 32], 0, false), slot([3; 32], 0, false)]);
    assert!(token::dispatch(&mut h, [3, -1, 0, 0]).is_err());
    assert!(token::dispatch(&mut h, [1, 1, 0, 0]).is_err());
    assert!(token::dispatch(&mut h, [3, 1, 0, 0]).is_err());
    assert!(vault::dispatch(&mut h, [1, 0, 0, 0]).is_err());
    assert!(escrow::dispatch(&mut h, [1, 0, 0, 0]).is_err());
    assert_eq!(
        h.log,
        vec![
            "monto negativo",
            "accounts[1] no es la mint PDA",
            "accounts[1] no es TU PDA de saldo",
            "accounts[1] no es la PDA de la bóveda",
            "accounts[1] no es la PDA del escrow",
        ]
    );
    assert!(!h.slots[1].owned, "nothing else has happened");
    let mut v = host(vec![slot([9; 32], 0, true), slot(pda(b"vault"), 0, false)]);
    assert!(vault::dispatch(&mut v, [2, 1, 0, 0]).is_err());
    assert!(vault::dispatch(&mut v, [1, 0, 0, 0]).is_err(), "not the publisher");
    assert_eq!(v.log, vec!["la bóveda no está inicializada"]);
    assert!(!v.slots[1].owned);
}
