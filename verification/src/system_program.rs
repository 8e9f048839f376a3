//! The system program: creating accounts and moving balances.
use crate::account::{Account, AccountData};
use crate::codec::{array_at, borsh_read_u64, borsh_write_u64, le_bytes, le_value, lemma_le_bytes_len};
use crate::decode::{decode_words, DecodeError};
use crate::keymap::KeyMap;
use crate::ledger::{
    accounts_data, balance_of, ensure_account, failure_of, program_error, saturated, set_balance,
    with_account, with_balance, with_wallet, ProgramProcessor, TxError, TxFailure,
};
use crate::pubkey::{key_at, lemma_key_at, Pubkey};
use crate::text::joined;
use crate::transaction::{Instruction, InstructionData};
use vstd::prelude::*;
use vstd::slice::slice_subrange;

verus! {

/// What the system program can be asked for.
#[derive(Debug)]
pub enum SystemInstruction {
    /// Creates the first account of the instruction, where it is absent, owned by `owner`,
    /// and moves `units` to it from the payer.
    CreateAccount { units: u64, owner: Pubkey },
    /// Moves `amount` from the first account of the instruction to the second.
    Transfer { amount: u64 },
}

/// The bytes of a request.
pub open spec fn system_bytes(i: SystemInstruction) -> Seq<u8> {
    match i {
        SystemInstruction::CreateAccount { units, owner } => seq![0u8] + le_bytes(units as nat, 8)
            + owner.0@,
        SystemInstruction::Transfer { amount } => seq![1u8] + le_bytes(amount as nat, 8),
    }
}

/// What is wrong with the bytes of a request, where something is.
pub open spec fn system_error(data: Seq<u8>) -> Option<DecodeError> {
    if data.len() == 0 {
        Some(DecodeError::UnexpectedLength)
    } else if data[0] > 1 {
        Some(DecodeError::UnexpectedTag(data[0]))
    } else {
        let size: int = if data[0] == 0 {
            41
        } else {
            9
        };
        if data.len() < size {
            Some(DecodeError::UnexpectedLength)
        } else if data.len() > size {
            Some(DecodeError::NotAllBytesRead)
        } else {
            None
        }
    }
}

impl SystemInstruction {
    /// The bytes of the request.
    pub fn encode(&self) -> (out: Vec<u8>)
        ensures
            out@ == system_bytes(*self),
    {
        let mut out: Vec<u8> = Vec::new();
        match self {
            SystemInstruction::CreateAccount { units, owner } => {
                out.push(0);
                let mut number: Vec<u8> = borsh_write_u64(*units);
                out.append(&mut number);
                out.extend_from_slice(owner.0.as_slice());
            },
            SystemInstruction::Transfer { amount } => {
                out.push(1);
                let mut number: Vec<u8> = borsh_write_u64(*amount);
                out.append(&mut number);
            },
        }
        proof {
            assert(out@ =~= system_bytes(*self));
        }
        out
    }

    /// The request that `data` stands for.
    pub fn decode(data: &[u8]) -> (request: Result<Self, DecodeError>)
        ensures
            match request {
                Ok(i) => system_error(data@) is None && system_bytes(i) == data@,
                Err(e) => system_error(data@) == Some(e),
            },
    {
        if data.len() == 0 {
            return Err(DecodeError::UnexpectedLength);
        }
        let tag: u8 = data[0];
        if tag > 1 {
            return Err(DecodeError::UnexpectedTag(tag));
        }
        let rest = slice_subrange(data, 1, data.len());
        let number: u64 = match borsh_read_u64(rest) {
            Some(x) => x,
            None => {
                return Err(DecodeError::UnexpectedLength);
            },
        };
        proof {
            crate::codec::lemma_le_value_round_trip(rest@.take(8));
            assert(rest@.take(8) =~= data@.subrange(1, 9));
        }
        if tag == 1 {
            if data.len() > 9 {
                return Err(DecodeError::NotAllBytesRead);
            }
            let request = SystemInstruction::Transfer { amount: number };
            proof {
                assert(system_bytes(request) =~= data@);
            }
            Ok(request)
        } else {
            if data.len() < 41 {
                return Err(DecodeError::UnexpectedLength);
            }
            if data.len() > 41 {
                return Err(DecodeError::NotAllBytesRead);
            }
            let owner: [u8; 32] = array_at(data, 9);
            let request = SystemInstruction::CreateAccount { units: number, owner: Pubkey(owner) };
            proof {
                assert(system_bytes(request) =~= data@);
            }
            Ok(request)
        }
    }
}

/// A request is read back from its bytes, and from no others.
pub proof fn law_system_round_trip(a: SystemInstruction, b: SystemInstruction)
    ensures
        system_error(system_bytes(a)) is None,
        system_bytes(a) == system_bytes(b) ==> a == b,
{
    let x = system_bytes(a);
    let y = system_bytes(b);
    let n = match a {
        SystemInstruction::CreateAccount { units, .. } => units,
        SystemInstruction::Transfer { amount } => amount,
    };
    let m = match b {
        SystemInstruction::CreateAccount { units, .. } => units,
        SystemInstruction::Transfer { amount } => amount,
    };
    lemma_le_bytes_len(n as nat, 8);
    lemma_le_bytes_len(m as nat, 8);
    assert(x[0] == (if a is CreateAccount {
        0u8
    } else {
        1u8
    }));
    assert(y[0] == (if b is CreateAccount {
        0u8
    } else {
        1u8
    }));
    if x == y {
        assert(x.subrange(1, 9) =~= le_bytes(n as nat, 8));
        assert(y.subrange(1, 9) =~= le_bytes(m as nat, 8));
        crate::codec::lemma_pow256();
        crate::codec::lemma_le_injective(n as nat, m as nat, 8);
        if a is CreateAccount {
            let p = a->owner;
            let q = b->owner;
            assert forall|i: int| 0 <= i < 32 implies p.0[i] == q.0[i] by {
                assert(x[9 + i] == p.0@[i] && y[9 + i] == q.0@[i]);
            }
            assert(p.0 =~= q.0);
        }
    }
}

/// The accounts once `amount` went from `from` to `to`, and the failure where there is
/// one. A balance goes no higher than it can.
pub open spec fn transferred(
    m: Map<[u8; 32], AccountData>,
    from: Pubkey,
    to: Pubkey,
    amount: u64,
) -> (Map<[u8; 32], AccountData>, Option<TxFailure>) {
    if !m.contains_key(from.0) {
        (m, Some(TxFailure::AccountNotFound(from)))
    } else if m[from.0].balance < amount {
        (m, Some(TxFailure::InsufficientFunds))
    } else {
        let paid = with_balance(m, from, (m[from.0].balance - amount) as u64);
        let both = with_wallet(paid, to);
        (with_balance(both, to, saturated(both[to.0].balance + amount)), None)
    }
}

/// What the system program does with an instruction.
pub open spec fn system_outcome(
    m: Map<[u8; 32], AccountData>,
    instruction: InstructionData,
    payer: Pubkey,
) -> (Map<[u8; 32], AccountData>, Option<TxFailure>) {
    let data = instruction.data;
    match system_error(data) {
        Some(e) => (
            m,
            Some(TxFailure::ProgramError("bad instruction data: "@ + decode_words(e))),
        ),
        None => {
            let number = le_value(data.subrange(1, 9)) as u64;
            if data[0] == 0 {
                if instruction.accounts.len() == 0 {
                    (m, Some(TxFailure::ProgramError("CreateAccount requires accounts[0]"@)))
                } else {
                    let fresh = instruction.accounts[0];
                    let owner = key_at(data, 9);
                    transferred(with_account(m, fresh, owner), payer, fresh, number)
                }
            } else if instruction.accounts.len() == 0 {
                (m, Some(TxFailure::ProgramError("Transfer requires accounts[0]"@)))
            } else if instruction.accounts.len() == 1 {
                (m, Some(TxFailure::ProgramError("Transfer requires accounts[1]"@)))
            } else {
                transferred(m, instruction.accounts[0], instruction.accounts[1], number)
            }
        },
    }
}

/// The system program.
pub struct SystemProgram;

impl SystemProgram {
    fn transfer_internal(
        accounts: &mut KeyMap<Account>,
        from: &Pubkey,
        to: &Pubkey,
        amount: u64,
    ) -> (done: Result<(), TxError>)
        requires
            old(accounts).wf(),
        ensures
            final(accounts).wf(),
            (accounts_data(final(accounts)@), failure_of(done)) == transferred(
                accounts_data(old(accounts)@),
                *from,
                *to,
                amount,
            ),
    {
        let from_balance: u64 = match balance_of(accounts, from) {
            Some(b) => b,
            None => {
                return Err(TxError::AccountNotFound(*from));
            },
        };
        if from_balance < amount {
            return Err(TxError::InsufficientFunds);
        }
        set_balance(accounts, from, from_balance - amount);
        ensure_account(accounts, to, Pubkey::system_program_id());
        if let Some(to_balance) = balance_of(accounts, to) {
            set_balance(accounts, to, to_balance.saturating_add(amount));
        }
        Ok(())
    }
}

impl ProgramProcessor for SystemProgram {
    open spec fn outcome(
        &self,
        accounts: Map<[u8; 32], AccountData>,
        instruction: InstructionData,
        payer: Pubkey,
    ) -> (Map<[u8; 32], AccountData>, Option<TxFailure>) {
        system_outcome(accounts, instruction, payer)
    }

    open spec fn in_range(
        &self,
        accounts: Map<[u8; 32], AccountData>,
        instruction: InstructionData,
        payer: Pubkey,
    ) -> bool {
        true
    }

    fn process(
        &self,
        accounts: &mut KeyMap<Account>,
        instruction: &Instruction,
        payer: &Pubkey,
    ) -> (done: Result<(), TxError>) {
        let ghost data = instruction.data@;
        match SystemInstruction::decode(instruction.data.as_slice()) {
            Err(e) => Err(
                program_error(joined("bad instruction data: ", e.message().as_str()).as_str()),
            ),
            Ok(SystemInstruction::CreateAccount { units, owner }) => {
                proof {
                    lemma_le_bytes_len(units as nat, 8);
                    assert(data.subrange(1, 9) =~= le_bytes(units as nat, 8));
                    crate::codec::lemma_pow256();
                    crate::codec::lemma_le_round_trip(units as nat, 8);
                    assert(data.subrange(9, 41) =~= owner.0@);
                    lemma_key_at(owner, data, 9);
                }
                if instruction.accounts.len() == 0 {
                    return Err(program_error("CreateAccount requires accounts[0]"));
                }
                let fresh: Pubkey = instruction.accounts[0];
                ensure_account(accounts, &fresh, owner);
                SystemProgram::transfer_internal(accounts, payer, &fresh, units)
            },
            Ok(SystemInstruction::Transfer { amount }) => {
                proof {
                    lemma_le_bytes_len(amount as nat, 8);
                    assert(data.subrange(1, 9) =~= le_bytes(amount as nat, 8));
                    crate::codec::lemma_pow256();
                    crate::codec::lemma_le_round_trip(amount as nat, 8);
                }
                if instruction.accounts.len() == 0 {
                    return Err(program_error("Transfer requires accounts[0]"));
                }
                if instruction.accounts.len() == 1 {
                    return Err(program_error("Transfer requires accounts[1]"));
                }
                let from: Pubkey = instruction.accounts[0];
                let to: Pubkey = instruction.accounts[1];
                SystemProgram::transfer_internal(accounts, &from, &to, amount)
            },
        }
    }
}

} // verus!
