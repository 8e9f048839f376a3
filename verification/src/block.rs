//! Blocks.
use crate::poh::PohEntry;
use crate::pubkey::Pubkey;
use crate::transaction::Transaction;
use vstd::prelude::*;

verus! {

/// What happened in a slot.
#[derive(Debug)]
pub struct Block {
    pub slot: u64,
    pub leader: Pubkey,
    pub previous_blockhash: [u8; 32],
    pub blockhash: [u8; 32],
    pub poh_entries: Vec<PohEntry>,
    pub transactions: Vec<Transaction>,
    pub airdrops: Vec<(Pubkey, u64)>,
}

/// The first block of a slot in a log of blocks.
pub fn find_block(log: &Vec<Block>, slot: u64) -> (found: Option<usize>)
    ensures
        match found {
            Some(i) => i < log@.len() && log@[i as int].slot == slot && forall|j: int|
                0 <= j < i ==> (#[trigger] log@[j]).slot != slot,
            None => forall|j: int| 0 <= j < log@.len() ==> (#[trigger] log@[j]).slot != slot,
        },
{
    let mut i: usize = 0;
    while i < log.len()
        invariant
            i <= log@.len(),
            forall|j: int| 0 <= j < i ==> (#[trigger] log@[j]).slot != slot,
        decreases log@.len() - i,
    {
        if log[i].slot == slot {
            return Some(i);
        }
        i += 1;
    }
    None
}

} // verus!
