//! The memo program: it writes the data of an instruction into an account of its own.
use crate::account::{Account, AccountData};
use crate::codec::filled;
use crate::keymap::KeyMap;
use crate::ledger::{accounts_data, program_error, ProgramProcessor, TxError, TxFailure};
use crate::pubkey::Pubkey;
use crate::transaction::{Instruction, InstructionData};
use vstd::prelude::*;

verus! {

/// The address of the memo program: 32 times the byte one.
pub open spec fn memo_program() -> Pubkey {
    Pubkey(filled(1))
}

/// The address of the memo program.
pub fn memo_program_id() -> (key: Pubkey)
    ensures
        key == memo_program(),
{
    Pubkey([1u8; 32])
}

/// `m` with other data under `key`.
pub open spec fn with_data(
    m: Map<[u8; 32], AccountData>,
    key: Pubkey,
    data: Seq<u8>,
) -> Map<[u8; 32], AccountData> {
    m.insert(key.0, (AccountData { data, ..m[key.0] }))
}

/// What the memo program does with an instruction.
pub open spec fn memo_outcome(
    m: Map<[u8; 32], AccountData>,
    instruction: InstructionData,
) -> (Map<[u8; 32], AccountData>, Option<TxFailure>) {
    if instruction.accounts.len() == 0 {
        (m, Some(TxFailure::ProgramError("Memo requires accounts[0]"@)))
    } else {
        let target = instruction.accounts[0];
        if !m.contains_key(target.0) {
            (m, Some(TxFailure::AccountNotFound(target)))
        } else if m[target.0].owner != memo_program() {
            (m, Some(TxFailure::ProgramError("account not owned by memo program"@)))
        } else {
            (with_data(m, target, instruction.data), None)
        }
    }
}

/// The memo program.
pub struct MemoProgram;

/// Sets the data under `key`.
pub(crate) fn set_data(accounts: &mut KeyMap<Account>, key: &Pubkey, data: Vec<u8>)
    requires
        old(accounts).wf(),
        accounts_data(old(accounts)@).contains_key(key.0),
    ensures
        final(accounts).wf(),
        accounts_data(final(accounts)@) == with_data(accounts_data(old(accounts)@), *key, data@),
{
    let ghost before = accounts_data(accounts@);
    if let Some(a) = accounts.get(&key.0) {
        let changed = Account {
            balance: a.balance,
            owner: a.owner,
            data,
            executable: a.executable,
        };
        let ghost after = changed@;
        accounts.insert(key.0, changed);
        proof {
            assert(after =~= (AccountData { data: data@, ..before[key.0] }));
            assert(accounts_data(accounts@) =~= before.insert(key.0, after));
        }
    }
}

impl ProgramProcessor for MemoProgram {
    open spec fn outcome(
        &self,
        accounts: Map<[u8; 32], AccountData>,
        instruction: InstructionData,
        payer: Pubkey,
    ) -> (Map<[u8; 32], AccountData>, Option<TxFailure>) {
        memo_outcome(accounts, instruction)
    }

    open spec fn in_range(
        &self,
        accounts: Map<[u8; 32], AccountData>,
        instruction: InstructionData,
        payer: Pubkey,
    ) -> bool {
        true
    }

    fn process(
        &self,
        accounts: &mut KeyMap<Account>,
        instruction: &Instruction,
        payer: &Pubkey,
    ) -> (done: Result<(), TxError>) {
        if instruction.accounts.len() == 0 {
            return Err(program_error("Memo requires accounts[0]"));
        }
        let target: Pubkey = instruction.accounts[0];
        let owner: Pubkey = match accounts.get(&target.0) {
            Some(a) => a.owner,
            None => {
                return Err(TxError::AccountNotFound(target));
            },
        };
        if !owner.same_as(&memo_program_id()) {
            return Err(program_error("account not owned by memo program"));
        }
        let data = instruction.data.clone();
        proof {
            assert(data@ =~= instruction.data@);
        }
        set_data(accounts, &target, data);
        Ok(())
    }
}

} // verus!
