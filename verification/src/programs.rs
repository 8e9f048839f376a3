//! The programs that every node has.
use crate::ledger::{Program, ProgramProcessor, ProgramRegistry};
use crate::memo_program::{memo_outcome, memo_program, memo_program_id, MemoProgram};
use crate::pubkey::{system_program, Pubkey};
use crate::system_program::{system_outcome, SystemProgram};
use vstd::prelude::*;

verus! {

fn system_entry() -> (program: Program)
    ensures
        forall|a, i, p| #[trigger] program.code.outcome(a, i, p) == system_outcome(a, i, p),
        forall|a, i, p| #[trigger] program.code.in_range(a, i, p),
{
    Program { code: Box::new(SystemProgram) }
}

fn memo_entry() -> (program: Program)
    ensures
        forall|a, i, p| #[trigger] program.code.outcome(a, i, p) == memo_outcome(a, i),
        forall|a, i, p| #[trigger] program.code.in_range(a, i, p),
{
    Program { code: Box::new(MemoProgram) }
}

/// The programs are the system program and the memo program, under their addresses.
pub open spec fn are_default_programs(programs: Map<[u8; 32], Program>) -> bool {
    &&& programs.dom() == set![system_program().0, memo_program().0]
    &&& forall|a, i, p| #[trigger]
        programs[system_program().0].code.outcome(a, i, p) == system_outcome(a, i, p)
    &&& forall|a, i, p| #[trigger]
        programs[memo_program().0].code.outcome(a, i, p) == memo_outcome(a, i)
    &&& forall|a, i, p| #[trigger] programs[system_program().0].code.in_range(a, i, p)
    &&& forall|a, i, p| #[trigger] programs[memo_program().0].code.in_range(a, i, p)
}

/// The system program and the memo program, under their addresses.
pub fn default_program_registry() -> (registry: ProgramRegistry)
    ensures
        registry.wf(),
        are_default_programs(registry@),
{
    let mut registry: ProgramRegistry = ProgramRegistry::new();
    let first = system_entry();
    let second = memo_entry();
    proof {
        assert(memo_program().0@[0] == 1 && system_program().0@[0] == 0);
    }
    registry.insert(Pubkey::system_program_id(), first);
    registry.insert(memo_program_id(), second);
    proof {
        assert(registry@.dom() =~= set![system_program().0, memo_program().0]);
    }
    registry
}

} // verus!
