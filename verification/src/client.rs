//! What a wallet sends to a node.
use crate::pubkey::{base58_decoded, system_program, Pubkey};
use crate::stake::{stake_program, stake_program_id};
use crate::stake_program::{stake_request_bytes, StakeInstruction};
use crate::system_program::{system_bytes, SystemInstruction};
use crate::text::joined;
use crate::transaction::{instructions_data, Instruction, InstructionData};
use vstd::prelude::*;

verus! {

/// A transfer.
pub open spec fn transfer_data(from: Pubkey, to: Pubkey, units: u64) -> InstructionData {
    InstructionData {
        program_id: system_program(),
        accounts: seq![from, to],
        data: system_bytes(SystemInstruction::Transfer { amount: units }),
    }
}

/// The instruction that moves `units` from one account to another.
pub fn transfer_instruction(from: Pubkey, to: Pubkey, units: u64) -> (i: Instruction)
    ensures
        i@ == transfer_data(from, to, units),
{
    let mut accounts: Vec<Pubkey> = Vec::new();
    accounts.push(from);
    accounts.push(to);
    let i = Instruction {
        program_id: Pubkey::system_program_id(),
        accounts,
        data: SystemInstruction::Transfer { amount: units }.encode(),
    };
    proof {
        assert(i@ =~= transfer_data(from, to, units));
    }
    i
}

/// The creation of a stake account, which belongs to the stake program.
pub open spec fn create_stake_data(stake_account: Pubkey, units: u64) -> InstructionData {
    InstructionData {
        program_id: system_program(),
        accounts: seq![stake_account],
        data: system_bytes(SystemInstruction::CreateAccount { units, owner: stake_program() }),
    }
}

/// A request to the stake program.
pub open spec fn stake_data(accounts: Seq<Pubkey>, request: StakeInstruction) -> InstructionData {
    InstructionData { program_id: stake_program(), accounts, data: stake_request_bytes(request) }
}

/// The instructions that lock `units` up in a new stake account: it is created with them, and
/// then delegated to a validator.
pub fn stake_instructions(
    owner: Pubkey,
    stake_account: Pubkey,
    validator: Pubkey,
    units: u64,
) -> (list: Vec<Instruction>)
    ensures
        instructions_data(list@) == seq![
            create_stake_data(stake_account, units),
            stake_data(
                seq![stake_account],
                StakeInstruction::Initialize { authority: owner, validator },
            ),
        ],
{
    let mut created: Vec<Pubkey> = Vec::new();
    created.push(stake_account);
    let create = Instruction {
        program_id: Pubkey::system_program_id(),
        accounts: created,
        data: SystemInstruction::CreateAccount { units, owner: stake_program_id() }.encode(),
    };
    let mut delegated: Vec<Pubkey> = Vec::new();
    delegated.push(stake_account);
    let initialize = Instruction {
        program_id: stake_program_id(),
        accounts: delegated,
        data: StakeInstruction::Initialize { authority: owner, validator }.encode(),
    };
    proof {
        assert(create@ =~= create_stake_data(stake_account, units));
        assert(initialize@ =~= stake_data(
            seq![stake_account],
            StakeInstruction::Initialize { authority: owner, validator },
        ));
    }
    let mut list: Vec<Instruction> = Vec::new();
    list.push(create);
    list.push(initialize);
    proof {
        assert(instructions_data(list@) =~= seq![create@, initialize@]);
    }
    list
}

/// The instruction that ends the delegation of a stake account.
pub fn unstake_instruction(stake_account: Pubkey) -> (i: Instruction)
    ensures
        i@ == stake_data(seq![stake_account], StakeInstruction::Deactivate),
{
    let mut accounts: Vec<Pubkey> = Vec::new();
    accounts.push(stake_account);
    let i = Instruction {
        program_id: stake_program_id(),
        accounts,
        data: StakeInstruction::Deactivate.encode(),
    };
    proof {
        assert(i@ =~= stake_data(seq![stake_account], StakeInstruction::Deactivate));
    }
    i
}

/// The instruction that takes `units` out of a stake account.
pub fn withdraw_instruction(stake_account: Pubkey, destination: Pubkey, units: u64) -> (i: Instruction)
    ensures
        i@ == stake_data(
            seq![stake_account, destination],
            StakeInstruction::Withdraw { amount: units },
        ),
{
    let mut accounts: Vec<Pubkey> = Vec::new();
    accounts.push(stake_account);
    accounts.push(destination);
    let i = Instruction {
        program_id: stake_program_id(),
        accounts,
        data: StakeInstruction::Withdraw { amount: units }.encode(),
    };
    proof {
        assert(i@ =~= stake_data(
            seq![stake_account, destination],
            StakeInstruction::Withdraw { amount: units },
        ));
    }
    i
}

/// What is said where a text names neither an address nor a keypair.
pub open spec fn unresolved(text: Seq<char>) -> Seq<char> {
    "'"@ + text + "' is neither a valid base58 address nor a readable keypair file"@
}

/// The address that a text stands for: itself, where it is one, or that of the keypair in
/// the file of this name, where there is one.
pub fn resolve_pubkey(text: &str, in_file: Option<Pubkey>) -> (key: Result<Pubkey, String>)
    ensures
        match base58_decoded(text@) {
            Ok(bytes) if bytes.len() == 32 => key matches Ok(k) && k.0@ == bytes,
            _ => match in_file {
                Some(k) => key == Ok::<Pubkey, String>(k),
                None => key matches Err(e) && e@ == unresolved(text@),
            },
        },
{
    match Pubkey::parse(text) {
        Ok(k) => Ok(k),
        Err(_) => match in_file {
            Some(k) => Ok(k),
            None => Err(
                joined(
                    joined("'", text).as_str(),
                    "' is neither a valid base58 address nor a readable keypair file",
                ),
            ),
        },
    }
}

} // verus!
