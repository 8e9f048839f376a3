//! The state that a stake account holds.
use crate::codec::{array_at, filled};
use crate::decode::DecodeError;
use crate::pubkey::Pubkey;
use vstd::prelude::*;

verus! {

/// The address of the stake program: 32 times the byte three.
pub open spec fn stake_program() -> Pubkey {
    Pubkey(filled(3))
}

/// The address of the stake program.
pub fn stake_program_id() -> (key: Pubkey)
    ensures
        key == stake_program(),
{
    Pubkey([3u8; 32])
}

/// Whether a stake earns rewards.
#[derive(Clone, Copy, Debug, PartialEq, Eq, Structural)]
pub enum StakeStatus {
    /// It does.
    Active,
    /// It does not, and may be withdrawn.
    Deactivated,
}

/// What the data of a stake account says.
#[derive(Clone, Copy, Debug)]
pub struct StakeState {
    /// Who may deactivate and withdraw.
    pub authority: Pubkey,
    /// Whom the stake backs.
    pub validator: Pubkey,
    pub status: StakeStatus,
}

/// The byte of a status.
pub open spec fn status_tag(s: StakeStatus) -> u8 {
    match s {
        StakeStatus::Active => 0,
        StakeStatus::Deactivated => 1,
    }
}

/// The bytes of a stake state.
pub open spec fn stake_bytes(s: StakeState) -> Seq<u8> {
    s.authority.0@ + s.validator.0@ + seq![status_tag(s.status)]
}

/// What is wrong with the bytes of a stake state, where something is.
pub open spec fn stake_error(data: Seq<u8>) -> Option<DecodeError> {
    if data.len() < 65 {
        Some(DecodeError::UnexpectedLength)
    } else if data[64] > 1 {
        Some(DecodeError::UnexpectedTag(data[64]))
    } else if data.len() > 65 {
        Some(DecodeError::NotAllBytesRead)
    } else {
        None
    }
}

impl StakeState {
    /// The bytes of the state.
    pub fn encode(&self) -> (out: Vec<u8>)
        ensures
            out@ == stake_bytes(*self),
    {
        let mut out: Vec<u8> = Vec::with_capacity(65);
        out.extend_from_slice(self.authority.0.as_slice());
        out.extend_from_slice(self.validator.0.as_slice());
        out.push(
            match self.status {
                StakeStatus::Active => 0u8,
                StakeStatus::Deactivated => 1u8,
            },
        );
        proof {
            assert(out@ =~= stake_bytes(*self));
        }
        out
    }

    /// The state that `data` stands for.
    pub fn decode(data: &[u8]) -> (state: Result<Self, DecodeError>)
        ensures
            match state {
                Ok(s) => stake_error(data@) is None && stake_bytes(s) == data@,
                Err(e) => stake_error(data@) == Some(e),
            },
    {
        if data.len() < 65 {
            return Err(DecodeError::UnexpectedLength);
        }
        let tag: u8 = data[64];
        if tag > 1 {
            return Err(DecodeError::UnexpectedTag(tag));
        }
        if data.len() > 65 {
            return Err(DecodeError::NotAllBytesRead);
        }
        let state = StakeState {
            authority: Pubkey(array_at(data, 0)),
            validator: Pubkey(array_at(data, 32)),
            status: if tag == 0 {
                StakeStatus::Active
            } else {
                StakeStatus::Deactivated
            },
        };
        proof {
            assert(stake_bytes(state) =~= data@);
        }
        Ok(state)
    }
}

/// A stake state is read back from its bytes, and from no others.
pub proof fn law_stake_round_trip(a: StakeState, b: StakeState)
    ensures
        stake_error(stake_bytes(a)) is None,
        stake_bytes(a) == stake_bytes(b) ==> a == b,
{
    let x = stake_bytes(a);
    let y = stake_bytes(b);
    assert(x[64] == status_tag(a.status));
    if x == y {
        assert forall|i: int| 0 <= i < 32 implies a.authority.0[i] == b.authority.0[i]
            && a.validator.0[i] == b.validator.0[i] by {
            assert(x[i] == a.authority.0@[i] && y[i] == b.authority.0@[i]);
            assert(x[32 + i] == a.validator.0@[i] && y[32 + i] == b.validator.0@[i]);
        }
        assert(a.authority.0 =~= b.authority.0);
        assert(a.validator.0 =~= b.validator.0);
        assert(y[64] == status_tag(b.status));
    }
}

} // verus!
