//! What the table of a batch tells, which batches are accepted, and what a refusal means.
use crate::codec::le_value;
use crate::hash::collide;
use crate::stark::{
    batch_result, binding_failure, chain_failure, conserves, field_modulus, field_name, in_field,
    is_padded_length, is_received, is_row_address, is_table_of, limb, row_failure, rows_failure, side_name,
    BindingError, ProofOutcome, PublicInputs, RowField, RowStateBinding, Side, StateBindingError,
    TransferStep, VerifyError, WrongWidth,
};
use crate::state_account::{account_bytes, leaf_hash, StateAccount};
use crate::text::decimal;
use crate::tree::{empty_hash, is_proof_of, law_proofs_hold, proof_holds, root_of, MerkleProof};
use vstd::arithmetic::power2::pow2;
use vstd::prelude::*;

verus! {

/// The first byte of each part of an address counts most.
pub proof fn law_limbs_count_from_the_front(address: [u8; 32], i: int)
    requires
        0 <= i < 4,
    ensures
        limb(address@, i) == address@[8 * i] * 0x100_0000_0000_0000 + address@[8 * i + 1]
            * 0x1_0000_0000_0000 + address@[8 * i + 2] * 0x100_0000_0000 + address@[8 * i + 3]
            * 0x1_0000_0000 + address@[8 * i + 4] * 0x100_0000 + address@[8 * i + 5] * 0x1_0000
            + address@[8 * i + 6] * 0x100 + address@[8 * i + 7],
{
    let s = address@.subrange(8 * i, 8 * i + 8).reverse();
    reveal_with_fuel(le_value, 9);
    assert(s.skip(1).skip(1) =~= s.skip(2));
    assert(s.skip(2).skip(1) =~= s.skip(3));
    assert(s.skip(3).skip(1) =~= s.skip(4));
    assert(s.skip(4).skip(1) =~= s.skip(5));
    assert(s.skip(5).skip(1) =~= s.skip(6));
    assert(s.skip(6).skip(1) =~= s.skip(7));
    assert(s.skip(7).skip(1) =~= s.skip(8));
    assert(s.skip(8).len() == 0);
}

/// Money is neither made nor lost in a transfer: what both accounts have before it is what they
/// have after it and the fee, and the receiver has the amount more.
pub proof fn law_conserving_transfers_lose_nothing(step: TransferStep)
    ensures
        conserves(step) <==> {
            &&& step.from_before + step.to_before == step.from_after + step.to_after + step.fee
            &&& step.to_after - step.to_before == step.amount
        },
{
}

/// The table of a batch tells the transfers: row by row what both accounts had, what was sent
/// and paid, what they have then, and both addresses; the rows behind them are zeros.
pub proof fn law_table_tells_the_transfers(p: PublicInputs, steps: Seq<TransferStep>, r: int)
    requires
        is_table_of(p, steps),
        0 <= r < p.columns@[0]@.len(),
    ensures
        p.columns@.len() == 14,
        forall|c: int| 0 <= c < 14 ==> (#[trigger] p.columns@[c])@.len() == p.columns@[0]@.len(),
        r < steps.len() ==> {
            &&& p.columns@[0]@[r] == steps[r].from_before
            &&& p.columns@[1]@[r] == steps[r].to_before
            &&& p.columns@[2]@[r] == steps[r].amount
            &&& p.columns@[3]@[r] == steps[r].fee
            &&& p.columns@[4]@[r] == steps[r].from_after
            &&& p.columns@[5]@[r] == steps[r].to_after
            &&& forall|i: int|
                0 <= i < 4 ==> p.columns@[6 + i]@[r] == #[trigger] limb(steps[r].from_address@, i)
            &&& forall|i: int|
                0 <= i < 4 ==> p.columns@[10 + i]@[r] == #[trigger] limb(steps[r].to_address@, i)
        },
        r >= steps.len() ==> forall|c: int|
            0 <= c < 14 ==> #[trigger] p.columns@[c]@[r] == 0,
{
    assert(p.at(0, r) == p.columns@[0]@[r]);
    assert(p.at(1, r) == p.columns@[1]@[r]);
    assert(p.at(2, r) == p.columns@[2]@[r]);
    assert(p.at(3, r) == p.columns@[3]@[r]);
    assert(p.at(4, r) == p.columns@[4]@[r]);
    assert(p.at(5, r) == p.columns@[5]@[r]);
    assert forall|c: int| 0 <= c < 14 implies (#[trigger] p.columns@[c]@[r]) == p.at(c, r) by {}
    if r < steps.len() {
        assert forall|i: int| 0 <= i < 4 implies p.columns@[6 + i]@[r] == #[trigger] limb(
            steps[r].from_address@,
            i,
        ) by {
            assert(p.at(6 + i, r) == p.columns@[6 + i]@[r]);
        }
        assert forall|i: int| 0 <= i < 4 implies p.columns@[10 + i]@[r] == #[trigger] limb(
            steps[r].to_address@,
            i,
        ) by {
            assert(p.at(10 + i, r) == p.columns@[10 + i]@[r]);
        }
    }
}

/// A table has the fewest rows that are a power of two, at least eight and more than the
/// transfers.
pub proof fn law_tables_are_as_short_as_can_be(n: nat, steps: nat, k: nat)
    requires
        is_padded_length(n, steps),
        pow2(k) >= 8,
        pow2(k) > steps,
    ensures
        8 <= n <= pow2(k),
        n > steps,
        exists|j: nat| n == #[trigger] pow2(j),
{
    let j = choose|j: nat| n == #[trigger] pow2(j);
    if n > pow2(k) {
        if j > k {
            vstd::arithmetic::power2::lemma_pow2_unfold((k + 1) as nat);
            if j > k + 1 {
                vstd::arithmetic::power2::lemma_pow2_strictly_increases((k + 1) as nat, j);
            }
            assert(n >= 2 * pow2(k));
        } else {
            if j < k {
                vstd::arithmetic::power2::lemma_pow2_strictly_increases(j, k);
            }
        }
    }
}

/// A number that comes in stands for the element of the field that it leaves as a remainder.
pub proof fn law_numbers_stand_for_their_remainders(value: u128)
    ensures
        field_modulus() == 340282366920938463463374557953744961537,
        0 <= in_field(value) < field_modulus(),
        (value - in_field(value)) % field_modulus() == 0,
{
    let m = field_modulus();
    assert(m == 340282366920938463463374557953744961537);
    if value < m {
        assert((value - in_field(value)) == 0);
    } else {
        assert(value - in_field(value) == m);
        assert(m % m == 0) by (nonlinear_arith)
            requires
                m == 340282366920938463463374557953744961537,
        ;
    }
}

/// A batch is accepted exactly where its proof is and every value is below two to the power of
/// sixty-four; and the answer is the same whenever it is given.
pub proof fn law_batches_are_accepted(
    outcome: ProofOutcome,
    p: PublicInputs,
    r: Result<(), VerifyError>,
)
    requires
        batch_result(outcome, p, r),
    ensures
        r is Ok <==> outcome is Accepted && forall|c: int, i: int|
            0 <= c < p.columns@.len() && 0 <= i < p.columns@[c]@.len() ==> #[trigger] p.columns@[c]@[i]
                < 0x1_0000_0000_0000_0000,
        outcome is Rejected <==> (r matches Err(VerifyError::Stark(_))),
        outcome is Malformed <==> (r matches Err(VerifyError::Malformed)),
        r matches Err(VerifyError::ValueOutOfU64Range { column, step }) ==> {
            &&& p.columns@[column as int]@[step as int] >= 0x1_0000_0000_0000_0000
            &&& forall|c: int, i: int|
                0 <= c < p.columns@.len() && 0 <= i < p.columns@[c]@.len() && (c < column || c
                    == column && i < step) ==> #[trigger] p.columns@[c]@[i]
                    < 0x1_0000_0000_0000_0000
        },
{
    assert forall|c: int, i: int|
        0 <= c < p.columns@.len() && 0 <= i < p.columns@[c]@.len() implies (
    #[trigger] p.columns@[c]@[i]) == p.at(c, i) by {}
    if let Err(VerifyError::ValueOutOfU64Range { column, step }) = r {
        assert(p.at(column as int, step as int) == p.columns@[column as int]@[step as int]);
    }
}

/// The tree of the leaves `m` holds the account at its address, or has nothing there and the
/// account has no balance.
pub open spec fn holds_account(
    m: Map<[u8; 32], [u8; 32]>,
    address: [u8; 32],
    account: StateAccount,
) -> bool {
    if m.contains_key(address) {
        &&& m[address] == leaf_hash(account@)
        &&& !collide(seq![0u8], seq![0u8] + account_bytes(account@))
    } else {
        account.balance == 0
    }
}

/// What a binding says of its row is true: both accounts are in the trees before and after the
/// row, with the balances and under the addresses that the row has, and the proofs are those
/// of the trees.
pub open spec fn tells_the_truth(
    p: PublicInputs,
    b: RowStateBinding,
    r: int,
    before: Map<[u8; 32], [u8; 32]>,
    after: Map<[u8; 32], [u8; 32]>,
    from: [u8; 32],
    to: [u8; 32],
) -> bool {
    &&& b.root_before == root_of(before)
    &&& b.root_after == root_of(after)
    &&& forall|i: int| 0 <= i < 4 ==> #[trigger] limb(from@, i) == p.columns@[6 + i]@[r]
    &&& forall|i: int| 0 <= i < 4 ==> #[trigger] limb(to@, i) == p.columns@[10 + i]@[r]
    &&& is_proof_of(b.from_proof_before, before, from)
    &&& is_proof_of(b.from_proof_after, after, from)
    &&& is_proof_of(b.to_proof_before, before, to)
    &&& is_proof_of(b.to_proof_after, after, to)
    &&& holds_account(before, from, b.from_before)
    &&& holds_account(after, from, b.from_after)
    &&& holds_account(before, to, b.to_before)
    &&& holds_account(after, to, b.to_after)
    &&& b.from_before.balance == p.columns@[0]@[r]
    &&& b.to_before.balance == p.columns@[1]@[r]
    &&& b.from_after.balance == p.columns@[4]@[r]
    &&& b.to_after.balance == p.columns@[5]@[r]
}

/// Bindings that tell the truth are accepted: where there are no more than rows, each is true
/// of its row, and the state after a row is the state before the next, nothing is refused.
pub proof fn law_true_bindings_are_accepted(
    p: PublicInputs,
    s: Seq<RowStateBinding>,
    before: Seq<Map<[u8; 32], [u8; 32]>>,
    after: Seq<Map<[u8; 32], [u8; 32]>>,
    from: Seq<[u8; 32]>,
    to: Seq<[u8; 32]>,
)
    requires
        s.len() <= p.columns@[0]@.len(),
        s.len() <= usize::MAX,
        forall|i: int|
            0 <= i < s.len() ==> tells_the_truth(
                p,
                #[trigger] s[i],
                i,
                before[i],
                after[i],
                from[i],
                to[i],
            ),
        forall|i: int, j: int|
            0 <= i && j == i + 1 && j < s.len() ==> (#[trigger] s[i]).root_after == (
            #[trigger] s[j]).root_before,
    ensures
        binding_failure(p, s) is None,
{
    lemma_chain_holds(s, 0);
    lemma_rows_hold(p, s, before, after, from, to, 0);
}

proof fn lemma_chain_holds(s: Seq<RowStateBinding>, i: int)
    requires
        0 <= i,
        forall|i: int, j: int|
            0 <= i && j == i + 1 && j < s.len() ==> (#[trigger] s[i]).root_after == (
            #[trigger] s[j]).root_before,
    ensures
        chain_failure(s, i) is None,
    decreases s.len() - i,
{
    if i + 1 < s.len() {
        assert(s[i].root_after == s[i + 1].root_before);
        lemma_chain_holds(s, i + 1);
    }
}

proof fn lemma_account_holds(
    m: Map<[u8; 32], [u8; 32]>,
    address: [u8; 32],
    account: StateAccount,
    proof: MerkleProof,
)
    requires
        holds_account(m, address, account),
        is_proof_of(proof, m, address),
    ensures
        proof.leaf_value_hash is Some ==> proof.leaf_value_hash->0 == leaf_hash(account@),
        proof.leaf_value_hash is None ==> account.balance == 0,
        proof_holds(root_of(m), proof, empty_hash(0)),
{
    law_proofs_hold(proof, m, address);
    if m.contains_key(address) {
        assert(seq![0u8] + account_bytes(account@) != seq![0u8]) by {
            crate::codec::lemma_le_bytes_len(account.balance as nat, 8);
            assert((seq![0u8] + account_bytes(account@)).len() > 1);
        }
    }
}

proof fn lemma_rows_hold(
    p: PublicInputs,
    s: Seq<RowStateBinding>,
    before: Seq<Map<[u8; 32], [u8; 32]>>,
    after: Seq<Map<[u8; 32], [u8; 32]>>,
    from: Seq<[u8; 32]>,
    to: Seq<[u8; 32]>,
    i: int,
)
    requires
        0 <= i <= s.len() <= usize::MAX,
        forall|i: int|
            0 <= i < s.len() ==> tells_the_truth(
                p,
                #[trigger] s[i],
                i,
                before[i],
                after[i],
                from[i],
                to[i],
            ),
    ensures
        rows_failure(p, s, i) is None,
    decreases s.len() - i,
{
    if i < s.len() {
        let b = s[i];
        assert(tells_the_truth(p, s[i], i, before[i], after[i], from[i], to[i]));
        lemma_account_holds(before[i], from[i], b.from_before, b.from_proof_before);
        lemma_account_holds(after[i], from[i], b.from_after, b.from_proof_after);
        lemma_account_holds(before[i], to[i], b.to_before, b.to_proof_before);
        lemma_account_holds(after[i], to[i], b.to_after, b.to_proof_after);
        assert forall|k: int| 0 <= k < 4 implies limb(from[i]@, k) == #[trigger] p.at(6 + k, i) by {
            assert(limb(from[i]@, k) == p.columns@[6 + k]@[i]);
        }
        assert forall|k: int| 0 <= k < 4 implies limb(to[i]@, k) == #[trigger] p.at(10 + k, i) by {
            assert(limb(to[i]@, k) == p.columns@[10 + k]@[i]);
        }
        assert(is_row_address(p, 6, i, from[i]));
        assert(is_row_address(p, 10, i, to[i]));
        assert(row_failure(p, b, i as usize) is None);
        lemma_rows_hold(p, s, before, after, from, to, i + 1);
    }
}

/// One of the four accounts of a binding, with its proof and the root that it should lead to.
pub open spec fn account_at(b: RowStateBinding, field: RowField) -> (
    StateAccount,
    MerkleProof,
    [u8; 32],
) {
    match field {
        RowField::FromBefore => (b.from_before, b.from_proof_before, b.root_before),
        RowField::FromAfter => (b.from_after, b.from_proof_after, b.root_after),
        RowField::ToBefore => (b.to_before, b.to_proof_before, b.root_before),
        RowField::ToAfter => (b.to_after, b.to_proof_after, b.root_after),
    }
}

/// A key is not the address that a row has in the four columns from `first` on.
pub open spec fn differs(p: PublicInputs, first: int, row: int, key: [u8; 32]) -> bool {
    exists|i: int| 0 <= i < 4 && #[trigger] limb(key@, i) != p.columns@[first + i]@[row]
}

proof fn lemma_differs(p: PublicInputs, first: int, row: int, key: [u8; 32])
    requires
        !is_row_address(p, first, row, key),
    ensures
        differs(p, first, row, key),
{
    let k = choose|k: int| 0 <= k < 4 && limb(key@, k) != #[trigger] p.at(first + k, row);
    assert(p.at(first + k, row) == p.columns@[first + k]@[row]);
    assert(limb(key@, k) != p.columns@[first + k]@[row]);
}

/// The fault that is named is there.
pub open spec fn fault_is_there(p: PublicInputs, s: Seq<RowStateBinding>, e: BindingError) -> bool {
    match e {
        BindingError::TooManyBindings { max, got } => max == p.columns@[0]@.len() && got == s.len()
            && got > max,
        BindingError::RootSequenceMismatch { row } => row + 1 < s.len() && s[row as int].root_after
            != s[row + 1].root_before,
        BindingError::BalanceMismatch { row, field } => row < s.len() && account_at(
            s[row as int],
            field,
        ).0.balance != p.columns@[match field {
            RowField::FromBefore => 0int,
            RowField::ToBefore => 1int,
            RowField::FromAfter => 4int,
            RowField::ToAfter => 5int,
        }]@[row as int],
        BindingError::AddressMismatch { row, side } => row < s.len() && match side {
            Side::From => differs(p, 6, row as int, s[row as int].from_proof_before.key) || differs(
                p,
                6,
                row as int,
                s[row as int].from_proof_after.key,
            ),
            Side::To => differs(p, 10, row as int, s[row as int].to_proof_before.key) || differs(
                p,
                10,
                row as int,
                s[row as int].to_proof_after.key,
            ),
        },
        BindingError::MerkleProofFailed { row, field } => row < s.len() && {
            let (account, proof, root) = account_at(s[row as int], field);
            ||| proof.leaf_value_hash is Some && proof.leaf_value_hash->0 != leaf_hash(account@)
            ||| !proof_holds(root, proof, empty_hash(0))
        },
        BindingError::ExclusionProofClaimsNonzeroBalance { row, field } => row < s.len() && {
            let (account, proof, root) = account_at(s[row as int], field);
            proof.leaf_value_hash is None && account.balance > 0
        },
    }
}

/// Nothing is refused without a reason: whatever fault is named, of whatever row and account,
/// is there.
pub proof fn law_refusals_name_a_fault(p: PublicInputs, s: Seq<RowStateBinding>)
    requires
        p.columns@[0]@.len() <= usize::MAX,
        s.len() <= usize::MAX,
        binding_failure(p, s) is Some,
    ensures
        fault_is_there(p, s, binding_failure(p, s)->0),
{
    if s.len() <= p.rows() {
        if chain_failure(s, 0) is Some {
            lemma_chain_fault(p, s, 0);
        } else {
            lemma_row_fault(p, s, 0);
        }
    }
}

proof fn lemma_chain_fault(p: PublicInputs, s: Seq<RowStateBinding>, i: int)
    requires
        0 <= i,
        s.len() <= usize::MAX,
        chain_failure(s, i) is Some,
    ensures
        fault_is_there(p, s, chain_failure(s, i)->0),
    decreases s.len() - i,
{
    if i + 1 < s.len() && s[i].root_after == s[i + 1].root_before {
        lemma_chain_fault(p, s, i + 1);
    }
}

proof fn lemma_row_fault(p: PublicInputs, s: Seq<RowStateBinding>, i: int)
    requires
        0 <= i,
        s.len() <= usize::MAX,
        rows_failure(p, s, i) is Some,
    ensures
        fault_is_there(p, s, rows_failure(p, s, i)->0),
    decreases s.len() - i,
{
    if i < s.len() {
        let f = row_failure(p, s[i], i as usize);
        if f is Some {
            if f->0 is AddressMismatch {
                let b = s[i];
                if !is_row_address(p, 6, i, b.from_proof_before.key) {
                    lemma_differs(p, 6, i, b.from_proof_before.key);
                } else if !is_row_address(p, 6, i, b.from_proof_after.key) {
                    lemma_differs(p, 6, i, b.from_proof_after.key);
                } else if !is_row_address(p, 10, i, b.to_proof_before.key) {
                    lemma_differs(p, 10, i, b.to_proof_before.key);
                } else {
                    lemma_differs(p, 10, i, b.to_proof_after.key);
                }
            }
        } else {
            lemma_row_fault(p, s, i + 1);
        }
    }
}

/// What the order of faults is: too many rows, then the first break in the chain of roots, then
/// the first row with a fault.
pub proof fn law_faults_are_told_in_order(p: PublicInputs, s: Seq<RowStateBinding>)
    ensures
        s.len() > p.rows() ==> binding_failure(p, s) == Some(
            BindingError::TooManyBindings { max: p.rows() as usize, got: s.len() as usize },
        ),
        s.len() <= p.rows() && chain_failure(s, 0) is Some ==> binding_failure(p, s)
            == chain_failure(s, 0),
        s.len() <= p.rows() && chain_failure(s, 0) is None ==> binding_failure(p, s)
            == rows_failure(p, s, 0),
{
}

/// How faults of a batch are told.
pub proof fn law_batch_faults_are_told(reason: String, column: usize, step: usize, got: usize)
    ensures
        VerifyError::Stark(reason).said() == "STARK proof did not verify: "@ + reason@,
        (VerifyError::ValueOutOfU64Range { column, step }).said() == "public value at column "@
            + decimal(column as nat) + ", step "@ + decimal(step as nat)
            + " exceeds u64::MAX - not a real non-negative u64"@,
        VerifyError::Malformed.said()
            == "malformed proof rejected before verification (e.g. wrong trace width)"@,
        (WrongWidth { got }).said() == "expected 14 PublicInputs columns, got "@ + decimal(
            got as nat,
        ),
{
}

/// How faults of bindings are told.
pub proof fn law_binding_faults_are_told(
    row: usize,
    max: usize,
    got: usize,
    field: RowField,
    side: Side,
    e: VerifyError,
    b: BindingError,
)
    ensures
        field_name(RowField::FromBefore) == "from_before"@,
        field_name(RowField::FromAfter) == "from_after"@,
        field_name(RowField::ToBefore) == "to_before"@,
        field_name(RowField::ToAfter) == "to_after"@,
        side_name(Side::From) == "from"@,
        side_name(Side::To) == "to"@,
        (BindingError::TooManyBindings { max, got }).said() == "expected at most "@ + decimal(
            max as nat,
        ) + " row bindings (one per real or padding row), got "@ + decimal(got as nat),
        (BindingError::RootSequenceMismatch { row }).said() == "row "@ + decimal(row as nat)
            + ": root_after does not chain into the next binding's root_before - not one coherent state transition"@,
        (BindingError::BalanceMismatch { row, field }).said() == "row "@ + decimal(row as nat)
            + ": "@ + field_name(field)
            + "'s balance in the supplied Account snapshot doesn't match the STARK's public value"@,
        (BindingError::AddressMismatch { row, side }).said() == "row "@ + decimal(row as nat)
            + ": the supplied "@ + side_name(side)
            + " Merkle proof's key doesn't match the address the STARK publicly proved"@,
        (BindingError::MerkleProofFailed { row, field }).said() == "row "@ + decimal(row as nat)
            + ": "@ + field_name(field)
            + "'s Merkle inclusion proof does not verify against the claimed root"@,
        (BindingError::ExclusionProofClaimsNonzeroBalance { row, field }).said() == "row "@
            + decimal(row as nat) + ": "@ + field_name(field)
            + "'s Merkle proof claims the account doesn't exist yet, but the supplied snapshot claims a non-zero balance"@,
        StateBindingError::Stark(e).said() == e.said(),
        StateBindingError::Binding(b).said() == b.said(),
{
}

/// The row that a fault is of.
pub open spec fn row_told(e: BindingError) -> Option<usize> {
    match e {
        BindingError::TooManyBindings { max, got } => None,
        BindingError::RootSequenceMismatch { row } => Some(row),
        BindingError::BalanceMismatch { row, field } => Some(row),
        BindingError::AddressMismatch { row, side } => Some(row),
        BindingError::MerkleProofFailed { row, field } => Some(row),
        BindingError::ExclusionProofClaimsNonzeroBalance { row, field } => Some(row),
    }
}

/// The fault that is told is the first: the roots of all rows before it are chained, where it is
/// one of roots, and else those of all rows, and no row before it has a fault.
pub proof fn law_first_fault_is_told(p: PublicInputs, s: Seq<RowStateBinding>, j: int)
    requires
        s.len() <= p.rows(),
        p.rows() <= usize::MAX,
        binding_failure(p, s) matches Some(e) && row_told(e) is Some,
        0 <= j < s.len(),
    ensures
        ({
            let e = binding_failure(p, s)->0;
            &&& e is RootSequenceMismatch && j < row_told(e)->0 ==> s[j].root_after == s[j
                + 1].root_before
            &&& !(e is RootSequenceMismatch) && j + 1 < s.len() ==> s[j].root_after == s[j
                + 1].root_before
            &&& !(e is RootSequenceMismatch) && j < row_told(e)->0 ==> row_failure(
                p,
                s[j],
                j as usize,
            ) is None
        }),
{
    if chain_failure(s, 0) is Some {
        lemma_chain_before(s, 0, j);
    } else {
        lemma_chain_before(s, 0, j);
        lemma_rows_before(p, s, 0, j);
    }
}

proof fn lemma_chain_before(s: Seq<RowStateBinding>, i: int, j: int)
    requires
        0 <= i <= j < s.len(),
        s.len() <= usize::MAX,
    ensures
        chain_failure(s, i) is Some ==> chain_failure(s, i)->0 is RootSequenceMismatch,
        chain_failure(s, i) is Some && j < row_told(chain_failure(s, i)->0)->0 ==> s[j].root_after
            == s[j + 1].root_before,
        chain_failure(s, i) is None && j + 1 < s.len() ==> s[j].root_after == s[j + 1].root_before,
    decreases s.len() - i,
{
    if i + 1 < s.len() && s[i].root_after == s[i + 1].root_before {
        if i < j {
            lemma_chain_before(s, i + 1, j);
        } else {
            lemma_chain_before(s, i + 1, i + 1);
        }
    }
}

proof fn lemma_rows_before(p: PublicInputs, s: Seq<RowStateBinding>, i: int, j: int)
    requires
        0 <= i <= j < s.len(),
        s.len() <= usize::MAX,
    ensures
        rows_failure(p, s, i) is Some ==> row_told(rows_failure(p, s, i)->0) is Some && !(
        rows_failure(p, s, i)->0 is RootSequenceMismatch) && row_told(rows_failure(p, s, i)->0)->0
            >= i,
        rows_failure(p, s, i) is Some && j < row_told(rows_failure(p, s, i)->0)->0 ==> row_failure(
            p,
            s[j],
            j as usize,
        ) is None,
    decreases s.len() - i,
{
    if row_failure(p, s[i], i as usize) is None && i + 1 < s.len() {
        if i < j {
            lemma_rows_before(p, s, i + 1, j);
        } else {
            lemma_rows_before(p, s, i + 1, i + 1);
        }
    } else {
        assert(rows_failure(p, s, s.len() as int) is None);
    }
}

/// Within a row balances are looked at first, then addresses, then proofs, each of them before
/// the transfer first and of the sender first, but for the balances and proofs of the sender after
/// it, which come before those of the receiver.
pub proof fn law_order_within_a_row(p: PublicInputs, b: RowStateBinding, row: usize)
    ensures
        ({
            let fb = b.from_before.balance == p.columns@[0]@[row as int];
            let fa = b.from_after.balance == p.columns@[4]@[row as int];
            let tb = b.to_before.balance == p.columns@[1]@[row as int];
            let ta = b.to_after.balance == p.columns@[5]@[row as int];
            let from = is_row_address(p, 6, row as int, b.from_proof_before.key) && is_row_address(
                p,
                6,
                row as int,
                b.from_proof_after.key,
            );
            let to = is_row_address(p, 10, row as int, b.to_proof_before.key) && is_row_address(
                p,
                10,
                row as int,
                b.to_proof_after.key,
            );
            let r = row_failure(p, b, row);
            &&& !fb ==> r == Some(
                BindingError::BalanceMismatch { row, field: RowField::FromBefore },
            )
            &&& fb && !fa ==> r == Some(
                BindingError::BalanceMismatch { row, field: RowField::FromAfter },
            )
            &&& fb && fa && !tb ==> r == Some(
                BindingError::BalanceMismatch { row, field: RowField::ToBefore },
            )
            &&& fb && fa && tb && !ta ==> r == Some(
                BindingError::BalanceMismatch { row, field: RowField::ToAfter },
            )
            &&& fb && fa && tb && ta && !from ==> r == Some(
                BindingError::AddressMismatch { row, side: Side::From },
            )
            &&& fb && fa && tb && ta && from && !to ==> r == Some(
                BindingError::AddressMismatch { row, side: Side::To },
            )
        }),
{
}

/// A table has more rows than transfers, at least eight, a power of two of them, and no more than
/// need be.
pub proof fn law_tables_are_padded(p: PublicInputs, steps: Seq<TransferStep>, k: nat)
    requires
        is_table_of(p, steps),
        pow2(k) >= 8,
        pow2(k) > steps.len(),
    ensures
        steps.len() < p.rows() <= pow2(k),
        p.rows() >= 8,
        exists|j: nat| p.rows() == #[trigger] pow2(j),
        p.columns@.len() == 14,
{
    law_tables_are_as_short_as_can_be(p.rows(), steps.len(), k);
}

/// A table is received where it has fourteen columns, each number as its remainder in the field.
pub proof fn law_tables_are_received(raw: Seq<Vec<u128>>, p: PublicInputs, c: int, r: int)
    requires
        is_received(raw, p),
    ensures
        raw.len() == 14,
        p.columns@.len() == 14,
        0 <= c < 14 ==> p.columns@[c]@.len() == raw[c]@.len(),
        0 <= c < 14 && 0 <= r < raw[c]@.len() ==> p.columns@[c]@[r] == in_field(raw[c]@[r]),
{
    if 0 <= c < 14 && 0 <= r < raw[c]@.len() {
        assert(p.at(c, r) == in_field(raw[c]@[r]));
    }
}

} // verus!
