//! Accounts of the ledger.
use crate::pubkey::Pubkey;
use vstd::prelude::*;

verus! {

/// Base units in one coin.
pub const UNITS_PER_SSOL: u64 = 1_000_000_000;

/// The flat fee of a transaction, in base units.
pub const BASE_FEE_UNITS: u64 = 500;

/// The fixed supply, in coins.
pub const TOTAL_SUPPLY_SSOL: u64 = 700_000_000;

/// The fixed supply, in base units.
pub const TOTAL_SUPPLY_UNITS: u64 = 700_000_000 * 1_000_000_000;

/// The part of the supply that is set aside for staking rewards, in coins.
pub const STAKING_RESERVE_SSOL: u64 = 70_000_000;

/// The part of the supply that is set aside for staking rewards, in base units.
pub const STAKING_RESERVE_UNITS: u64 = 70_000_000 * 1_000_000_000;

/// The rest of the supply, which the treasury holds, in base units.
pub const TREASURY_ALLOCATION_UNITS: u64 = TOTAL_SUPPLY_UNITS - STAKING_RESERVE_UNITS;

/// Below this many base units a balance is dust.
pub const DUST_THRESHOLD_UNITS: u64 = 10_000;

/// The treasury and the staking reserve together hold exactly the supply.
pub proof fn law_supply_is_split()
    ensures
        TREASURY_ALLOCATION_UNITS + STAKING_RESERVE_UNITS == TOTAL_SUPPLY_UNITS,
        TOTAL_SUPPLY_UNITS == TOTAL_SUPPLY_SSOL * UNITS_PER_SSOL,
        STAKING_RESERVE_UNITS == STAKING_RESERVE_SSOL * UNITS_PER_SSOL,
{
}

/// An account.
#[derive(Debug, PartialEq, Eq)]
pub struct Account {
    /// In base units.
    pub balance: u64,
    /// The program that may change `data`.
    pub owner: Pubkey,
    pub data: Vec<u8>,
    pub executable: bool,
}

/// What an account holds.
#[verifier::ext_equal]
pub ghost struct AccountData {
    pub balance: u64,
    pub owner: Pubkey,
    pub data: Seq<u8>,
    pub executable: bool,
}

impl View for Account {
    type V = AccountData;

    open spec fn view(&self) -> AccountData {
        AccountData {
            balance: self.balance,
            owner: self.owner,
            data: self.data@,
            executable: self.executable,
        }
    }
}

impl Clone for Account {
    fn clone(&self) -> (copy: Self)
        ensures
            copy@ == self@,
    {
        let data = self.data.clone();
        proof {
            assert(data@ =~= self.data@);
        }
        Account { balance: self.balance, owner: self.owner, data, executable: self.executable }
    }
}

/// An account with nothing in it, owned by `owner`.
pub open spec fn wallet(owner: Pubkey) -> AccountData {
    AccountData { balance: 0, owner, data: Seq::empty(), executable: false }
}

impl Account {
    /// An account with nothing in it, owned by `owner`.
    pub fn new_wallet(owner: Pubkey) -> (account: Self)
        ensures
            account@ == wallet(owner),
    {
        Account { balance: 0, owner, data: Vec::new(), executable: false }
    }
}

} // verus!
