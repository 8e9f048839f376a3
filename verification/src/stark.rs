//! Batches of transfers that a proof speaks of: the table of public values, and how its rows
//! are tied to the state tree.
use crate::codec::{le_bytes, le_decode, le_encode, le_value, lemma_le_bytes_len, lemma_le_round_trip,
    lemma_le_value_round_trip, lemma_pow256};
use crate::hash::digests_equal;
use crate::state_account::{encodable, hash_leaf, leaf_hash, StateAccount};
use crate::text::{decimal, decimal_text, joined};
use crate::tree::{
    claimed_leaf, empty_hash, law_proofs_bind, leaf_of, path_collides, proof_holds, root_of,
    verify_proof, MerkleProof, StateTree,
};
use vstd::arithmetic::power2::pow2;
use vstd::prelude::*;

verus! {

/// The columns of the six amounts.
pub const COL_FROM_BEFORE: usize = 0;

pub const COL_TO_BEFORE: usize = 1;

pub const COL_AMOUNT: usize = 2;

pub const COL_FEE: usize = 3;

pub const COL_FROM_AFTER: usize = 4;

pub const COL_TO_AFTER: usize = 5;

/// The first of the four columns of the sender's address.
pub const COL_FROM_ADDRESS: usize = 6;

/// The first of the four columns of the receiver's address.
pub const COL_TO_ADDRESS: usize = 10;

/// How many columns there are.
pub const TRACE_WIDTH: usize = 14;

/// The fewest rows that a table has.
pub const MIN_TRACE_LENGTH: usize = 8;

/// The number that eight bytes spell, most significant first.
pub open spec fn be_value(s: Seq<u8>) -> nat {
    le_value(s.reverse())
}

/// The part of an address that its `i`-th column holds.
pub open spec fn limb(address: Seq<u8>, i: int) -> nat {
    be_value(address.subrange(8 * i, 8 * i + 8))
}

/// The four numbers that an address is split into.
pub fn address_limbs(address: &[u8; 32]) -> (limbs: [u64; 4])
    ensures
        forall|i: int| 0 <= i < 4 ==> #[trigger] limbs@[i] == limb(address@, i),
{
    let mut limbs: [u64; 4] = [0u64; 4];
    let mut i: usize = 0;
    while i < 4
        invariant
            i <= 4,
            forall|j: int| 0 <= j < i ==> #[trigger] limbs@[j] == limb(address@, j),
        decreases 4 - i,
    {
        let mut part: Vec<u8> = Vec::new();
        let mut k: usize = 0;
        while k < 8
            invariant
                i < 4,
                k <= 8,
                part@.len() == k,
                forall|j: int| 0 <= j < k ==> part@[j] == address@[8 * i + 7 - j],
            decreases 8 - k,
        {
            part.push(address[8 * i + 7 - k]);
            k += 1;
        }
        proof {
            assert(part@ =~= address@.subrange(8 * i, 8 * i + 8).reverse());
        }
        limbs[i] = le_decode(part.as_slice());
        i += 1;
    }
    limbs
}

/// The address that four numbers are the parts of.
pub fn limbs_to_address(limbs: [u64; 4]) -> (address: [u8; 32])
    ensures
        forall|i: int| 0 <= i < 4 ==> limb(address@, i) == #[trigger] limbs@[i],
{
    let mut address: [u8; 32] = [0u8; 32];
    let mut i: usize = 0;
    while i < 4
        invariant
            i <= 4,
            forall|j: int|
                0 <= j < 8 * i ==> address@[j] == #[trigger] le_bytes(
                    limbs@[j / 8] as nat,
                    8,
                )[7 - j % 8],
        decreases 4 - i,
    {
        let part: Vec<u8> = le_encode(limbs[i], 8);
        proof {
            lemma_le_bytes_len(limbs@[i as int] as nat, 8);
        }
        let mut k: usize = 0;
        while k < 8
            invariant
                i < 4,
                k <= 8,
                part@ == le_bytes(limbs@[i as int] as nat, 8),
                part@.len() == 8,
                forall|j: int|
                    0 <= j < 8 * i + k ==> address@[j] == #[trigger] le_bytes(
                        limbs@[j / 8] as nat,
                        8,
                    )[7 - j % 8],
            decreases 8 - k,
        {
            address[8 * i + k] = part[7 - k];
            k += 1;
        }
        i += 1;
    }
    proof {
        assert forall|i: int| 0 <= i < 4 implies limb(address@, i) == #[trigger] limbs@[i] by {
            let b = le_bytes(limbs@[i] as nat, 8);
            lemma_le_bytes_len(limbs@[i] as nat, 8);
            let part = address@.subrange(8 * i, 8 * i + 8);
            assert forall|j: int| 0 <= j < 8 implies part.reverse()[j] == b[j] by {
                let k = 8 * i + 7 - j;
                assert(k / 8 == i && k % 8 == 7 - j);
                assert(address@[k] == le_bytes(limbs@[k / 8] as nat, 8)[7 - k % 8]);
            }
            assert(part.reverse() =~= b);
            lemma_pow256();
            lemma_le_round_trip(limbs@[i] as nat, 8);
        }
    }
    address
}

/// Two addresses with the same four parts are the same.
pub proof fn law_limbs_determine_the_address(a: [u8; 32], b: [u8; 32])
    requires
        forall|i: int| 0 <= i < 4 ==> #[trigger] limb(a@, i) == limb(b@, i),
    ensures
        a == b,
{
    assert forall|j: int| 0 <= j < 32 implies a[j] == b[j] by {
        let i = j / 8;
        assert(limb(a@, i) == limb(b@, i));
        let x = a@.subrange(8 * i, 8 * i + 8).reverse();
        let y = b@.subrange(8 * i, 8 * i + 8).reverse();
        lemma_le_value_round_trip(x);
        lemma_le_value_round_trip(y);
        assert(x[7 - j % 8] == a@[j]);
        assert(y[7 - j % 8] == b@[j]);
    }
    assert(a =~= b);
}

/// One transfer: the two accounts, and what they hold before and after it.
#[derive(Clone, Copy, Debug)]
pub struct TransferStep {
    pub from_address: [u8; 32],
    pub to_address: [u8; 32],
    pub from_before: u64,
    pub to_before: u64,
    pub amount: u64,
    pub fee: u64,
    pub from_after: u64,
    pub to_after: u64,
}

/// The sender pays the amount and the fee, and the receiver gets the amount.
pub open spec fn conserves(step: TransferStep) -> bool {
    &&& step.from_after == step.from_before - step.amount - step.fee
    &&& step.to_after == step.to_before + step.amount
}

impl TransferStep {
    /// The transfer of an amount for a fee.
    pub fn conserving(
        from_address: [u8; 32],
        to_address: [u8; 32],
        from_before: u64,
        to_before: u64,
        amount: u64,
        fee: u64,
    ) -> (step: Self)
        requires
            amount + fee <= from_before,
            to_before + amount <= u64::MAX,
        ensures
            conserves(step),
            step.from_address == from_address,
            step.to_address == to_address,
            step.from_before == from_before,
            step.to_before == to_before,
            step.amount == amount,
            step.fee == fee,
    {
        TransferStep {
            from_address,
            to_address,
            from_before,
            to_before,
            amount,
            fee,
            from_after: from_before - amount - fee,
            to_after: to_before + amount,
        }
    }
}

/// What a transfer puts into a column.
pub open spec fn step_cell(step: TransferStep, column: int) -> nat {
    if column == COL_FROM_BEFORE {
        step.from_before as nat
    } else if column == COL_TO_BEFORE {
        step.to_before as nat
    } else if column == COL_AMOUNT {
        step.amount as nat
    } else if column == COL_FEE {
        step.fee as nat
    } else if column == COL_FROM_AFTER {
        step.from_after as nat
    } else if column == COL_TO_AFTER {
        step.to_after as nat
    } else if column < COL_TO_ADDRESS {
        limb(step.from_address@, column - COL_FROM_ADDRESS)
    } else {
        limb(step.to_address@, column - COL_TO_ADDRESS)
    }
}

/// The public values of a batch, column by column. The values are those of the field in which
/// the proof is made, as numbers below its modulus.
#[derive(Debug)]
pub struct PublicInputs {
    pub columns: Vec<Vec<u128>>,
}

impl PublicInputs {
    /// There are all columns, and they are equally long.
    pub open spec fn wf(&self) -> bool {
        &&& self.columns@.len() == TRACE_WIDTH
        &&& forall|c: int|
            0 <= c < TRACE_WIDTH ==> (#[trigger] self.columns@[c])@.len() == self.rows()
    }

    /// How many rows there are.
    pub open spec fn rows(&self) -> nat {
        self.columns@[0]@.len()
    }

    /// The value in a row of a column.
    pub open spec fn at(&self, column: int, row: int) -> u128 {
        self.columns@[column]@[row]
    }

    /// Whether there are all columns, equally long.
    pub fn is_table(&self) -> (yes: bool)
        ensures
            yes == self.wf(),
    {
        if self.columns.len() != TRACE_WIDTH {
            return false;
        }
        let rows: usize = self.columns[0].len();
        let mut c: usize = 0;
        while c < TRACE_WIDTH
            invariant
                c <= TRACE_WIDTH,
                self.columns@.len() == TRACE_WIDTH,
                rows == self.rows(),
                forall|j: int| 0 <= j < c ==> (#[trigger] self.columns@[j])@.len() == rows,
            decreases TRACE_WIDTH - c,
        {
            if self.columns[c].len() != rows {
                return false;
            }
            c += 1;
        }
        true
    }
}

/// `n` is the number of rows of a table of `steps` transfers: the smallest power of two that
/// leaves at least one row over, and at least eight.
pub open spec fn is_padded_length(n: nat, steps: nat) -> bool {
    &&& exists|k: nat| n == #[trigger] pow2(k)
    &&& n >= steps + 1
    &&& n >= MIN_TRACE_LENGTH
    &&& n == MIN_TRACE_LENGTH || n < 2 * (steps + 1)
}

fn padded_length(steps: usize) -> (n: usize)
    requires
        2 * (steps + 1) <= usize::MAX,
    ensures
        is_padded_length(n as nat, steps as nat),
{
    let mut n: usize = MIN_TRACE_LENGTH;
    let ghost mut k: nat = 3;
    proof {
        vstd::arithmetic::power2::lemma2_to64();
    }
    while n < steps + 1
        invariant
            2 * (steps + 1) <= usize::MAX,
            n == pow2(k),
            n >= MIN_TRACE_LENGTH,
            n == MIN_TRACE_LENGTH || n < 2 * (steps + 1),
        decreases 2 * (steps + 1) - n,
    {
        proof {
            vstd::arithmetic::power2::lemma_pow2_unfold(k + 1);
            k = k + 1;
        }
        n = 2 * n;
    }
    n
}

/// `p` is the table of a batch: a row for each transfer, in order, and rows of zeros behind
/// them.
pub open spec fn is_table_of(p: PublicInputs, steps: Seq<TransferStep>) -> bool {
    &&& p.wf()
    &&& is_padded_length(p.rows(), steps.len())
    &&& forall|c: int, r: int|
        0 <= c < TRACE_WIDTH && 0 <= r < p.rows() ==> #[trigger] p.at(c, r) == (if r < steps.len() {
            step_cell(steps[r], c)
        } else {
            0
        })
}

fn cell_of(step: &TransferStep, column: usize) -> (value: u128)
    requires
        column < TRACE_WIDTH,
    ensures
        value == step_cell(*step, column as int),
{
    if column == COL_FROM_BEFORE {
        step.from_before as u128
    } else if column == COL_TO_BEFORE {
        step.to_before as u128
    } else if column == COL_AMOUNT {
        step.amount as u128
    } else if column == COL_FEE {
        step.fee as u128
    } else if column == COL_FROM_AFTER {
        step.from_after as u128
    } else if column == COL_TO_AFTER {
        step.to_after as u128
    } else if column < COL_TO_ADDRESS {
        let limbs: [u64; 4] = address_limbs(&step.from_address);
        limbs[column - COL_FROM_ADDRESS] as u128
    } else {
        let limbs: [u64; 4] = address_limbs(&step.to_address);
        limbs[column - COL_TO_ADDRESS] as u128
    }
}

/// The table of a batch of transfers.
pub fn build_trace(steps: &Vec<TransferStep>) -> (table: PublicInputs)
    requires
        2 * (steps@.len() + 1) <= usize::MAX,
    ensures
        is_table_of(table, steps@),
{
    let rows: usize = padded_length(steps.len());
    let mut columns: Vec<Vec<u128>> = Vec::new();
    let mut c: usize = 0;
    while c < TRACE_WIDTH
        invariant
            c <= TRACE_WIDTH,
            rows >= steps@.len(),
            columns@.len() == c,
            forall|j: int| 0 <= j < c ==> (#[trigger] columns@[j])@.len() == rows,
            forall|j: int, r: int|
                0 <= j < c && 0 <= r < rows ==> #[trigger] columns@[j]@[r] == (if r < steps@.len() {
                    step_cell(steps@[r], j)
                } else {
                    0
                }),
        decreases TRACE_WIDTH - c,
    {
        let mut column: Vec<u128> = Vec::new();
        let mut r: usize = 0;
        while r < rows
            invariant
                c < TRACE_WIDTH,
                r <= rows,
                column@.len() == r,
                forall|k: int|
                    0 <= k < r ==> #[trigger] column@[k] == (if k < steps@.len() {
                        step_cell(steps@[k], c as int)
                    } else {
                        0
                    }),
            decreases rows - r,
        {
            if r < steps.len() {
                column.push(cell_of(&steps[r], c));
            } else {
                column.push(0);
            }
            r += 1;
        }
        columns.push(column);
        c += 1;
    }
    PublicInputs { columns }
}

/// The modulus of the field in which proofs are made.
pub open spec fn field_modulus() -> int {
    0x1_0000_0000_0000_0000_0000_0000_0000_0000int - 45 * 0x100_0000_0000int + 1
}

/// The modulus of the field in which proofs are made, as it is compared with.
pub const FIELD_MODULUS: u128 = 0xffff_ffff_ffff_ffff_ffff_d300_0000_0001;

/// The element of the field that a number stands for.
pub open spec fn in_field(value: u128) -> int {
    if value < field_modulus() {
        value as int
    } else {
        value - field_modulus()
    }
}

/// A table that came in with another number of columns.
#[derive(Clone, Copy, Debug, PartialEq, Eq)]
pub struct WrongWidth {
    pub got: usize,
}

impl WrongWidth {
    /// What is said about the error.
    pub open spec fn said(&self) -> Seq<char> {
        "expected 14 PublicInputs columns, got "@ + decimal(self.got as nat)
    }

    /// The error in words.
    pub fn message(&self) -> (text: String)
        ensures
            text@ == self.said(),
    {
        joined("expected 14 PublicInputs columns, got ", decimal_text(self.got as u64).as_str())
    }
}

/// `p` is the table that the columns of numbers `raw` stand for.
pub open spec fn is_received(raw: Seq<Vec<u128>>, p: PublicInputs) -> bool {
    &&& raw.len() == TRACE_WIDTH
    &&& p.columns@.len() == TRACE_WIDTH
    &&& forall|c: int| 0 <= c < TRACE_WIDTH ==> (#[trigger] p.columns@[c])@.len() == raw[c]@.len()
    &&& forall|c: int, r: int|
        0 <= c < TRACE_WIDTH && 0 <= r < raw[c]@.len() ==> #[trigger] p.at(c, r) == in_field(
            raw[c]@[r],
        )
}

/// A column with its numbers taken as elements of the field.
fn column_in_field(raw: &Vec<u128>) -> (column: Vec<u128>)
    ensures
        column@.len() == raw@.len(),
        forall|r: int| 0 <= r < raw@.len() ==> #[trigger] column@[r] == in_field(raw@[r]),
{
    let mut column: Vec<u128> = Vec::new();
    let mut r: usize = 0;
    while r < raw.len()
        invariant
            r <= raw@.len(),
            column@.len() == r,
            forall|j: int| 0 <= j < r ==> #[trigger] column@[j] == in_field(raw@[j]),
        decreases raw@.len() - r,
    {
        let value: u128 = raw[r];
        assert(FIELD_MODULUS == field_modulus());
        column.push(
            if value < FIELD_MODULUS {
                value
            } else {
                value - FIELD_MODULUS
            },
        );
        r += 1;
    }
    column
}

impl PublicInputs {
    /// Takes columns of numbers, as they are sent, for a table: there have to be all columns,
    /// and each number stands for an element of the field.
    pub fn from_columns(raw: &Vec<Vec<u128>>) -> (table: Result<Self, WrongWidth>)
        ensures
            match table {
                Ok(p) => is_received(raw@, p),
                Err(e) => raw@.len() != TRACE_WIDTH && e.got == raw@.len(),
            },
    {
        if raw.len() != TRACE_WIDTH {
            return Err(WrongWidth { got: raw.len() });
        }
        let mut columns: Vec<Vec<u128>> = Vec::new();
        let mut c: usize = 0;
        while c < TRACE_WIDTH
            invariant
                c <= TRACE_WIDTH,
                raw@.len() == TRACE_WIDTH,
                columns@.len() == c,
                forall|j: int| 0 <= j < c ==> (#[trigger] columns@[j])@.len() == raw@[j]@.len(),
                forall|j: int, r: int|
                    0 <= j < c && 0 <= r < raw@[j]@.len() ==> #[trigger] columns@[j]@[r] == in_field(
                        raw@[j]@[r],
                    ),
            decreases TRACE_WIDTH - c,
        {
            columns.push(column_in_field(&raw[c]));
            c += 1;
        }
        Ok(PublicInputs { columns })
    }
}

/// A table that is sent column by column is received as it was.
pub proof fn law_tables_are_received_as_sent(sent: PublicInputs, got: PublicInputs)
    requires
        sent.wf(),
        forall|c: int, r: int|
            0 <= c < TRACE_WIDTH && 0 <= r < sent.rows() ==> #[trigger] sent.at(c, r)
                < field_modulus(),
        is_received(sent.columns@, got),
    ensures
        got.wf(),
        got.rows() == sent.rows(),
        forall|c: int, r: int|
            0 <= c < TRACE_WIDTH && 0 <= r < sent.rows() ==> #[trigger] got.at(c, r) == sent.at(c, r),
{
    assert(got.columns@[0]@.len() == sent.columns@[0]@.len());
    assert forall|c: int| 0 <= c < TRACE_WIDTH implies (#[trigger] got.columns@[c])@.len()
        == got.rows() by {
        assert(sent.columns@[c]@.len() == sent.rows());
    }
    assert forall|c: int, r: int| 0 <= c < TRACE_WIDTH && 0 <= r < sent.rows() implies
        #[trigger] got.at(c, r) == sent.at(c, r) by {
        assert(sent.columns@[c]@.len() == sent.rows());
        assert(sent.at(c, r) < field_modulus());
    }
}

/// Where both equations of a row hold in the field, and all its amounts are in the range of
/// `u64`, they hold of the amounts as numbers: nothing is hidden by a wrap around the
/// modulus.
pub proof fn law_in_range_rows_conserve(
    from_before: u128,
    to_before: u128,
    amount: u128,
    fee: u128,
    from_after: u128,
    to_after: u128,
)
    requires
        from_before <= u64::MAX,
        to_before <= u64::MAX,
        amount <= u64::MAX,
        fee <= u64::MAX,
        from_after <= u64::MAX,
        to_after <= u64::MAX,
        (from_after - (from_before - amount - fee)) % field_modulus() == 0,
        (to_after - (to_before + amount)) % field_modulus() == 0,
    ensures
        from_after == from_before - amount - fee,
        to_after == to_before + amount,
{
    lemma_small_multiple(from_after - (from_before - amount - fee), field_modulus());
    lemma_small_multiple(to_after - (to_before + amount), field_modulus());
}

proof fn lemma_small_multiple(x: int, p: int)
    requires
        -p < x < p,
        x % p == 0,
    ensures
        x == 0,
{
    if x > 0 {
        vstd::arithmetic::div_mod::lemma_small_mod(x as nat, p as nat);
    } else if x < 0 {
        vstd::arithmetic::div_mod::lemma_mod_add_multiples_vanish(x, p);
        vstd::arithmetic::div_mod::lemma_small_mod((x + p) as nat, p as nat);
    }
}

/// The rows of the table of a batch of transfers that conserve satisfy both equations.
pub proof fn law_conserving_rows_satisfy_the_equations(p: PublicInputs, steps: Seq<TransferStep>, r: int)
    requires
        is_table_of(p, steps),
        forall|i: int| 0 <= i < steps.len() ==> conserves(#[trigger] steps[i]),
        0 <= r < p.rows(),
    ensures
        p.at(COL_FROM_AFTER as int, r) == p.at(COL_FROM_BEFORE as int, r) - p.at(
            COL_AMOUNT as int,
            r,
        ) - p.at(COL_FEE as int, r),
        p.at(COL_TO_AFTER as int, r) == p.at(COL_TO_BEFORE as int, r) + p.at(COL_AMOUNT as int, r),
{
    assert(p.at(0, r) <= u64::MAX && p.at(1, r) <= u64::MAX && p.at(2, r) <= u64::MAX);
    assert(p.at(3, r) <= u64::MAX && p.at(4, r) <= u64::MAX && p.at(5, r) <= u64::MAX);
    if r < steps.len() {
        assert(conserves(steps[r]));
    }
}

/// Whether a value is in the range of `u64`.
pub fn is_valid_u64(value: u128) -> (valid: bool)
    ensures
        valid == (value <= u64::MAX),
{
    value <= u64::MAX as u128
}

/// What checking a proof against its public values gave.
#[derive(Debug)]
pub enum ProofOutcome {
    Accepted,
    /// The proof is wrong, and why.
    Rejected(String),
    /// The proof is none.
    Malformed,
}

/// Why a batch is not accepted.
#[derive(Debug)]
pub enum VerifyError {
    Stark(String),
    ValueOutOfU64Range { column: usize, step: usize },
    Malformed,
}

impl VerifyError {
    /// What is said about the error.
    pub open spec fn said(&self) -> Seq<char> {
        match self {
            VerifyError::Stark(reason) => "STARK proof did not verify: "@ + reason@,
            VerifyError::ValueOutOfU64Range { column, step } => "public value at column "@ + decimal(
                *column as nat,
            ) + ", step "@ + decimal(*step as nat)
                + " exceeds u64::MAX - not a real non-negative u64"@,
            VerifyError::Malformed => "malformed proof rejected before verification (e.g. wrong trace width)"@,
        }
    }

    /// The error in words.
    pub fn message(&self) -> (text: String)
        ensures
            text@ == self.said(),
    {
        match self {
            VerifyError::Stark(reason) => joined("STARK proof did not verify: ", reason.as_str()),
            VerifyError::ValueOutOfU64Range { column, step } => {
                let a = joined("public value at column ", decimal_text(*column as u64).as_str());
                let b = joined(joined(a.as_str(), ", step ").as_str(), decimal_text(*step as u64).as_str());
                joined(b.as_str(), " exceeds u64::MAX - not a real non-negative u64")
            },
            VerifyError::Malformed => "malformed proof rejected before verification (e.g. wrong trace width)".to_owned(),
        }
    }
}

/// All values are in the range of `u64`.
pub open spec fn all_in_range(p: PublicInputs) -> bool {
    forall|c: int, r: int|
        0 <= c < p.columns@.len() && 0 <= r < p.columns@[c]@.len() ==> #[trigger] p.at(c, r)
            <= u64::MAX
}

/// The value at `column` and `step` is the first out of range, column by column.
pub open spec fn first_out_of_range(p: PublicInputs, column: int, step: int) -> bool {
    &&& 0 <= column < p.columns@.len()
    &&& 0 <= step < p.columns@[column]@.len()
    &&& p.at(column, step) > u64::MAX
    &&& forall|c: int, r: int|
        0 <= c < p.columns@.len() && 0 <= r < p.columns@[c]@.len() && (c < column || (c == column
            && r < step)) ==> #[trigger] p.at(c, r) <= u64::MAX
}

/// A batch is accepted where its proof is, and all its values are in range.
pub open spec fn batch_result(
    outcome: ProofOutcome,
    p: PublicInputs,
    r: Result<(), VerifyError>,
) -> bool {
    match r {
        Ok(_) => outcome is Accepted && all_in_range(p),
        Err(VerifyError::Stark(reason)) => outcome is Rejected && outcome->Rejected_0@ == reason@,
        Err(VerifyError::Malformed) => outcome is Malformed,
        Err(VerifyError::ValueOutOfU64Range { column, step }) => outcome is Accepted
            && first_out_of_range(p, column as int, step as int),
    }
}

/// Whether a batch is accepted, given what checking its proof gave.
pub fn verify_batch(outcome: &ProofOutcome, p: &PublicInputs) -> (r: Result<(), VerifyError>)
    ensures
        batch_result(*outcome, *p, r),
{
    match outcome {
        ProofOutcome::Rejected(reason) => {
            return Err(VerifyError::Stark(reason.clone()));
        },
        ProofOutcome::Malformed => {
            return Err(VerifyError::Malformed);
        },
        ProofOutcome::Accepted => {},
    }
    let mut column: usize = 0;
    while column < p.columns.len()
        invariant
            outcome is Accepted,
            column <= p.columns@.len(),
            forall|c: int, r: int|
                0 <= c < column && 0 <= r < p.columns@[c]@.len() ==> #[trigger] p.at(c, r)
                    <= u64::MAX,
        decreases p.columns@.len() - column,
    {
        let mut step: usize = 0;
        while step < p.columns[column].len()
            invariant
                outcome is Accepted,
                column < p.columns@.len(),
                step <= p.columns@[column as int]@.len(),
                forall|c: int, r: int|
                    0 <= c < column && 0 <= r < p.columns@[c]@.len() ==> #[trigger] p.at(c, r)
                        <= u64::MAX,
                forall|r: int| 0 <= r < step ==> #[trigger] p.at(column as int, r) <= u64::MAX,
            decreases p.columns@[column as int]@.len() - step,
        {
            proof {
                assert(p.at(column as int, step as int) == p.columns@[column as int]@[step as int]);
            }
            if !is_valid_u64(p.columns[column][step]) {
                return Err(VerifyError::ValueOutOfU64Range { column, step });
            }
            step += 1;
        }
        column += 1;
    }
    Ok(())
}

/// What ties a row to the state: the roots before and after it, both accounts before and
/// after it, and the proofs that they are in the tree.
#[derive(Debug)]
pub struct RowStateBinding {
    pub root_before: [u8; 32],
    pub root_after: [u8; 32],
    pub from_before: StateAccount,
    pub from_after: StateAccount,
    pub to_before: StateAccount,
    pub to_after: StateAccount,
    pub from_proof_before: MerkleProof,
    pub from_proof_after: MerkleProof,
    pub to_proof_before: MerkleProof,
    pub to_proof_after: MerkleProof,
}

/// One of the four accounts of a row.
#[derive(Clone, Copy, Debug, PartialEq, Eq, Structural)]
pub enum RowField {
    FromBefore,
    FromAfter,
    ToBefore,
    ToAfter,
}

/// One of the two sides of a transfer.
#[derive(Clone, Copy, Debug, PartialEq, Eq, Structural)]
pub enum Side {
    From,
    To,
}

/// Why the bindings of a batch are not accepted.
#[derive(Clone, Copy, Debug, PartialEq, Eq, Structural)]
pub enum BindingError {
    TooManyBindings { max: usize, got: usize },
    RootSequenceMismatch { row: usize },
    BalanceMismatch { row: usize, field: RowField },
    AddressMismatch { row: usize, side: Side },
    MerkleProofFailed { row: usize, field: RowField },
    ExclusionProofClaimsNonzeroBalance { row: usize, field: RowField },
}

/// The name of an account of a row.
pub open spec fn field_name(f: RowField) -> Seq<char> {
    match f {
        RowField::FromBefore => "from_before"@,
        RowField::FromAfter => "from_after"@,
        RowField::ToBefore => "to_before"@,
        RowField::ToAfter => "to_after"@,
    }
}

/// The name of a side.
pub open spec fn side_name(s: Side) -> Seq<char> {
    match s {
        Side::From => "from"@,
        Side::To => "to"@,
    }
}

fn field_text(f: RowField) -> (text: &'static str)
    ensures
        text@ == field_name(f),
{
    match f {
        RowField::FromBefore => "from_before",
        RowField::FromAfter => "from_after",
        RowField::ToBefore => "to_before",
        RowField::ToAfter => "to_after",
    }
}

fn row_text(row: usize, before: &str, name: &str, after: &str) -> (text: String)
    ensures
        text@ == "row "@ + decimal(row as nat) + before@ + name@ + after@,
{
    let a = joined(joined("row ", decimal_text(row as u64).as_str()).as_str(), before);
    joined(joined(a.as_str(), name).as_str(), after)
}

impl BindingError {
    /// What is said about the error.
    pub open spec fn said(&self) -> Seq<char> {
        match self {
            BindingError::TooManyBindings { max, got } => "expected at most "@ + decimal(
                *max as nat,
            ) + " row bindings (one per real or padding row), got "@ + decimal(*got as nat),
            BindingError::RootSequenceMismatch { row } => "row "@ + decimal(*row as nat)
                + ": root_after does not chain into the next binding's root_before - not one coherent state transition"@,
            BindingError::BalanceMismatch { row, field } => "row "@ + decimal(*row as nat) + ": "@
                + field_name(*field)
                + "'s balance in the supplied Account snapshot doesn't match the STARK's public value"@,
            BindingError::AddressMismatch { row, side } => "row "@ + decimal(*row as nat)
                + ": the supplied "@ + side_name(*side)
                + " Merkle proof's key doesn't match the address the STARK publicly proved"@,
            BindingError::MerkleProofFailed { row, field } => "row "@ + decimal(*row as nat)
                + ": "@ + field_name(*field)
                + "'s Merkle inclusion proof does not verify against the claimed root"@,
            BindingError::ExclusionProofClaimsNonzeroBalance { row, field } => "row "@ + decimal(
                *row as nat,
            ) + ": "@ + field_name(*field)
                + "'s Merkle proof claims the account doesn't exist yet, but the supplied snapshot claims a non-zero balance"@,
        }
    }

    /// The error in words.
    pub fn message(&self) -> (text: String)
        ensures
            text@ == self.said(),
    {
        match self {
            BindingError::TooManyBindings { max, got } => {
                let a = joined("expected at most ", decimal_text(*max as u64).as_str());
                let b = joined(a.as_str(), " row bindings (one per real or padding row), got ");
                joined(b.as_str(), decimal_text(*got as u64).as_str())
            },
            BindingError::RootSequenceMismatch { row } => joined(
                joined("row ", decimal_text(*row as u64).as_str()).as_str(),
                ": root_after does not chain into the next binding's root_before - not one coherent state transition",
            ),
            BindingError::BalanceMismatch { row, field } => row_text(
                *row,
                ": ",
                field_text(*field),
                "'s balance in the supplied Account snapshot doesn't match the STARK's public value",
            ),
            BindingError::AddressMismatch { row, side } => row_text(
                *row,
                ": the supplied ",
                match side {
                    Side::From => "from",
                    Side::To => "to",
                },
                " Merkle proof's key doesn't match the address the STARK publicly proved",
            ),
            BindingError::MerkleProofFailed { row, field } => row_text(
                *row,
                ": ",
                field_text(*field),
                "'s Merkle inclusion proof does not verify against the claimed root",
            ),
            BindingError::ExclusionProofClaimsNonzeroBalance { row, field } => row_text(
                *row,
                ": ",
                field_text(*field),
                "'s Merkle proof claims the account doesn't exist yet, but the supplied snapshot claims a non-zero balance",
            ),
        }
    }
}

/// Why a batch that is bound to the state is not accepted.
#[derive(Debug)]
pub enum StateBindingError {
    Stark(VerifyError),
    Binding(BindingError),
}

impl StateBindingError {
    /// What is said about the error.
    pub open spec fn said(&self) -> Seq<char> {
        match self {
            StateBindingError::Stark(e) => e.said(),
            StateBindingError::Binding(e) => e.said(),
        }
    }

    /// The error in words.
    pub fn message(&self) -> (text: String)
        ensures
            text@ == self.said(),
    {
        match self {
            StateBindingError::Stark(e) => e.message(),
            StateBindingError::Binding(e) => e.message(),
        }
    }
}

/// The address in a row, of which the columns from `first` on hold the parts.
pub open spec fn is_row_address(p: PublicInputs, first: int, row: int, address: [u8; 32]) -> bool {
    forall|i: int| 0 <= i < 4 ==> limb(address@, i) == #[trigger] p.at(first + i, row)
}

/// The key of a proof is the address in the row.
pub open spec fn names(p: PublicInputs, first: int, row: int, proof: MerkleProof) -> bool {
    is_row_address(p, first, row, proof.key)
}

/// Why an account is not accepted: it is not the leaf of its proof, or, where the proof says
/// that there is none, it has a balance; or the proof does not lead to the root.
pub open spec fn account_failure(
    account: StateAccount,
    proof: MerkleProof,
    root: [u8; 32],
    row: usize,
    field: RowField,
) -> Option<BindingError> {
    if proof.leaf_value_hash is Some && proof.leaf_value_hash->0 != leaf_hash(account@) {
        Some(BindingError::MerkleProofFailed { row, field })
    } else if proof.leaf_value_hash is None && account.balance != 0 {
        Some(BindingError::ExclusionProofClaimsNonzeroBalance { row, field })
    } else if !proof_holds(root, proof, empty_hash(0)) {
        Some(BindingError::MerkleProofFailed { row, field })
    } else {
        None
    }
}

/// Why a row is not accepted.
pub open spec fn row_failure(p: PublicInputs, b: RowStateBinding, row: usize) -> Option<
    BindingError,
> {
    let r = row as int;
    let fb = account_failure(
        b.from_before,
        b.from_proof_before,
        b.root_before,
        row,
        RowField::FromBefore,
    );
    let fa = account_failure(
        b.from_after,
        b.from_proof_after,
        b.root_after,
        row,
        RowField::FromAfter,
    );
    let tb = account_failure(
        b.to_before,
        b.to_proof_before,
        b.root_before,
        row,
        RowField::ToBefore,
    );
    let ta = account_failure(b.to_after, b.to_proof_after, b.root_after, row, RowField::ToAfter);
    if b.from_before.balance != p.at(COL_FROM_BEFORE as int, r) {
        Some(BindingError::BalanceMismatch { row, field: RowField::FromBefore })
    } else if b.from_after.balance != p.at(COL_FROM_AFTER as int, r) {
        Some(BindingError::BalanceMismatch { row, field: RowField::FromAfter })
    } else if b.to_before.balance != p.at(COL_TO_BEFORE as int, r) {
        Some(BindingError::BalanceMismatch { row, field: RowField::ToBefore })
    } else if b.to_after.balance != p.at(COL_TO_AFTER as int, r) {
        Some(BindingError::BalanceMismatch { row, field: RowField::ToAfter })
    } else if !names(p, COL_FROM_ADDRESS as int, r, b.from_proof_before) || !names(
        p,
        COL_FROM_ADDRESS as int,
        r,
        b.from_proof_after,
    ) {
        Some(BindingError::AddressMismatch { row, side: Side::From })
    } else if !names(p, COL_TO_ADDRESS as int, r, b.to_proof_before) || !names(
        p,
        COL_TO_ADDRESS as int,
        r,
        b.to_proof_after,
    ) {
        Some(BindingError::AddressMismatch { row, side: Side::To })
    } else if fb is Some {
        fb
    } else if fa is Some {
        fa
    } else if tb is Some {
        tb
    } else {
        ta
    }
}

/// The first row from `i` on whose root does not lead into the next row.
pub open spec fn chain_failure(s: Seq<RowStateBinding>, i: int) -> Option<BindingError>
    decreases s.len() - i,
{
    if i < 0 || i + 1 >= s.len() {
        None
    } else if s[i].root_after != s[i + 1].root_before {
        Some(BindingError::RootSequenceMismatch { row: i as usize })
    } else {
        chain_failure(s, i + 1)
    }
}

/// The failure of the first row from `i` on that is not accepted.
pub open spec fn rows_failure(p: PublicInputs, s: Seq<RowStateBinding>, i: int) -> Option<
    BindingError,
>
    decreases s.len() - i,
{
    if i < 0 || i >= s.len() {
        None
    } else if row_failure(p, s[i], i as usize) is Some {
        row_failure(p, s[i], i as usize)
    } else {
        rows_failure(p, s, i + 1)
    }
}

/// Why bindings are not accepted: there are more than rows, the roots do not follow from each
/// other, or a row is not accepted.
pub open spec fn binding_failure(p: PublicInputs, s: Seq<RowStateBinding>) -> Option<BindingError> {
    if s.len() > p.rows() {
        Some(BindingError::TooManyBindings { max: p.rows() as usize, got: s.len() as usize })
    } else if chain_failure(s, 0) is Some {
        chain_failure(s, 0)
    } else {
        rows_failure(p, s, 0)
    }
}

/// The accounts of a binding have bytes.
pub open spec fn binding_encodable(b: RowStateBinding) -> bool {
    &&& encodable(b.from_before@)
    &&& encodable(b.from_after@)
    &&& encodable(b.to_before@)
    &&& encodable(b.to_after@)
}

fn check_account(
    account: &StateAccount,
    proof: &MerkleProof,
    root: [u8; 32],
    empty_leaf: [u8; 32],
    row: usize,
    field: RowField,
) -> (failure: Option<BindingError>)
    requires
        encodable(account@),
        empty_leaf == empty_hash(0),
    ensures
        failure == account_failure(*account, *proof, root, row, field),
{
    match proof.leaf_value_hash {
        Some(h) => {
            if !digests_equal(&h, &hash_leaf(account)) {
                return Some(BindingError::MerkleProofFailed { row, field });
            }
        },
        None => {
            if account.balance != 0 {
                return Some(BindingError::ExclusionProofClaimsNonzeroBalance { row, field });
            }
        },
    }
    if !verify_proof(root, proof, empty_leaf) {
        return Some(BindingError::MerkleProofFailed { row, field });
    }
    None
}

fn row_address(p: &PublicInputs, first: usize, row: usize) -> (address: [u8; 32])
    requires
        p.wf(),
        all_in_range(*p),
        first + 4 <= TRACE_WIDTH,
        row < p.rows(),
    ensures
        is_row_address(*p, first as int, row as int, address),
{
    let mut limbs: [u64; 4] = [0u64; 4];
    let mut i: usize = 0;
    while i < 4
        invariant
            i <= 4,
            p.wf(),
            all_in_range(*p),
            first + 4 <= TRACE_WIDTH,
            row < p.rows(),
            forall|j: int| 0 <= j < i ==> #[trigger] limbs@[j] == p.at(first + j, row as int),
        decreases 4 - i,
    {
        proof {
            assert(self_len(*p, first + i) == p.rows());
            assert(p.at(first + i, row as int) <= u64::MAX);
        }
        limbs[i] = p.columns[first + i][row] as u64;
        i += 1;
    }
    let address = limbs_to_address(limbs);
    proof {
        assert forall|i: int| 0 <= i < 4 implies limb(address@, i) == #[trigger] p.at(
            first + i,
            row as int,
        ) by {
            assert(limbs@[i] == p.at(first + i, row as int));
        }
    }
    address
}

spec fn self_len(p: PublicInputs, c: int) -> nat {
    p.columns@[c]@.len()
}

fn names_address(
    p: &PublicInputs,
    first: usize,
    row: usize,
    address: &[u8; 32],
    proof: &MerkleProof,
) -> (yes: bool)
    requires
        is_row_address(*p, first as int, row as int, *address),
    ensures
        yes == names(*p, first as int, row as int, *proof),
{
    let yes: bool = digests_equal(&proof.key, address);
    proof {
        if names(*p, first as int, row as int, *proof) {
            assert forall|i: int| 0 <= i < 4 implies #[trigger] limb(proof.key@, i) == limb(
                address@,
                i,
            ) by {
                assert(limb(proof.key@, i) == p.at(first + i, row as int));
            }
            law_limbs_determine_the_address(proof.key, *address);
        }
    }
    yes
}

fn cell(p: &PublicInputs, column: usize, row: usize) -> (value: u64)
    requires
        p.wf(),
        all_in_range(*p),
        column < TRACE_WIDTH,
        row < p.rows(),
    ensures
        value == p.at(column as int, row as int),
{
    proof {
        assert(self_len(*p, column as int) == p.rows());
        assert(p.at(column as int, row as int) <= u64::MAX);
    }
    p.columns[column][row] as u64
}

fn check_row(p: &PublicInputs, b: &RowStateBinding, row: usize, empty_leaf: [u8; 32]) -> (failure:
    Option<BindingError>)
    requires
        p.wf(),
        all_in_range(*p),
        row < p.rows(),
        binding_encodable(*b),
        empty_leaf == empty_hash(0),
    ensures
        failure == row_failure(*p, *b, row),
{
    if b.from_before.balance != cell(p, COL_FROM_BEFORE, row) {
        return Some(BindingError::BalanceMismatch { row, field: RowField::FromBefore });
    }
    if b.from_after.balance != cell(p, COL_FROM_AFTER, row) {
        return Some(BindingError::BalanceMismatch { row, field: RowField::FromAfter });
    }
    if b.to_before.balance != cell(p, COL_TO_BEFORE, row) {
        return Some(BindingError::BalanceMismatch { row, field: RowField::ToBefore });
    }
    if b.to_after.balance != cell(p, COL_TO_AFTER, row) {
        return Some(BindingError::BalanceMismatch { row, field: RowField::ToAfter });
    }
    let from: [u8; 32] = row_address(p, COL_FROM_ADDRESS, row);
    if !names_address(p, COL_FROM_ADDRESS, row, &from, &b.from_proof_before) || !names_address(
        p,
        COL_FROM_ADDRESS,
        row,
        &from,
        &b.from_proof_after,
    ) {
        return Some(BindingError::AddressMismatch { row, side: Side::From });
    }
    let to: [u8; 32] = row_address(p, COL_TO_ADDRESS, row);
    if !names_address(p, COL_TO_ADDRESS, row, &to, &b.to_proof_before) || !names_address(
        p,
        COL_TO_ADDRESS,
        row,
        &to,
        &b.to_proof_after,
    ) {
        return Some(BindingError::AddressMismatch { row, side: Side::To });
    }
    let fb = check_account(
        &b.from_before,
        &b.from_proof_before,
        b.root_before,
        empty_leaf,
        row,
        RowField::FromBefore,
    );
    if fb.is_some() {
        return fb;
    }
    let fa = check_account(
        &b.from_after,
        &b.from_proof_after,
        b.root_after,
        empty_leaf,
        row,
        RowField::FromAfter,
    );
    if fa.is_some() {
        return fa;
    }
    let tb = check_account(
        &b.to_before,
        &b.to_proof_before,
        b.root_before,
        empty_leaf,
        row,
        RowField::ToBefore,
    );
    if tb.is_some() {
        return tb;
    }
    check_account(
        &b.to_after,
        &b.to_proof_after,
        b.root_after,
        empty_leaf,
        row,
        RowField::ToAfter,
    )
}

/// Why the bindings of a batch whose values are in range are not accepted.
pub fn check_bindings(p: &PublicInputs, bindings: &Vec<RowStateBinding>) -> (failure: Option<
    BindingError,
>)
    requires
        p.wf(),
        all_in_range(*p),
        forall|i: int| 0 <= i < bindings@.len() ==> binding_encodable(#[trigger] bindings@[i]),
    ensures
        failure == binding_failure(*p, bindings@),
{
    let rows: usize = p.columns[COL_FROM_BEFORE].len();
    if bindings.len() > rows {
        return Some(BindingError::TooManyBindings { max: rows, got: bindings.len() });
    }
    let mut i: usize = 0;
    while bindings.len() - i > 1
        invariant
            i <= bindings@.len(),
            bindings@.len() <= rows,
            rows == p.rows(),
            chain_failure(bindings@, i as int) == chain_failure(bindings@, 0),
        decreases bindings@.len() - i,
    {
        if !digests_equal(&bindings[i].root_after, &bindings[i + 1].root_before) {
            return Some(BindingError::RootSequenceMismatch { row: i });
        }
        i += 1;
    }
    let empty_leaf: [u8; 32] = StateTree::new().empty_leaf_hash();
    let mut row: usize = 0;
    while row < bindings.len()
        invariant
            row <= bindings@.len() <= rows,
            rows == p.rows(),
            p.wf(),
            all_in_range(*p),
            empty_leaf == empty_hash(0),
            forall|j: int| 0 <= j < bindings@.len() ==> binding_encodable(#[trigger] bindings@[j]),
            chain_failure(bindings@, 0) is None,
            rows_failure(*p, bindings@, row as int) == rows_failure(*p, bindings@, 0),
        decreases bindings@.len() - row,
    {
        let failure = check_row(p, &bindings[row], row, empty_leaf);
        if failure.is_some() {
            return failure;
        }
        row += 1;
    }
    None
}

/// Whether a batch is accepted that is bound to the state, given what checking its proof gave.
pub fn verify_batch_bound_to_state(
    outcome: &ProofOutcome,
    p: &PublicInputs,
    bindings: &Vec<RowStateBinding>,
) -> (r: Result<(), StateBindingError>)
    requires
        p.wf(),
        forall|i: int| 0 <= i < bindings@.len() ==> binding_encodable(#[trigger] bindings@[i]),
    ensures
        match r {
            Ok(_) => batch_result(*outcome, *p, Ok(())) && binding_failure(*p, bindings@) is None,
            Err(StateBindingError::Stark(e)) => batch_result(*outcome, *p, Err(e)),
            Err(StateBindingError::Binding(e)) => batch_result(*outcome, *p, Ok(()))
                && binding_failure(*p, bindings@) == Some(e),
        },
{
    match verify_batch(outcome, p) {
        Err(e) => {
            return Err(StateBindingError::Stark(e));
        },
        Ok(_) => {},
    }
    match check_bindings(p, bindings) {
        Some(e) => Err(StateBindingError::Binding(e)),
        None => Ok(()),
    }
}

proof fn lemma_rows_accepted(p: PublicInputs, s: Seq<RowStateBinding>, i: int, row: int)
    requires
        rows_failure(p, s, i) is None,
        0 <= i <= row < s.len(),
    ensures
        row_failure(p, s[row], row as usize) is None,
    decreases s.len() - i,
{
    if i < row {
        lemma_rows_accepted(p, s, i + 1, row);
    }
}

proof fn lemma_chain_accepted(s: Seq<RowStateBinding>, i: int, row: int)
    requires
        chain_failure(s, i) is None,
        0 <= i <= row,
        row + 1 < s.len(),
    ensures
        s[row].root_after == s[row + 1].root_before,
    decreases s.len() - i,
{
    if i < row {
        lemma_chain_accepted(s, i + 1, row);
    }
}

/// What an accepted proof says of an account in a tree: it is the leaf of its address, or
/// there is no leaf and it has no balance.
pub open spec fn account_in_tree(
    m: Map<[u8; 32], [u8; 32]>,
    address: [u8; 32],
    account: StateAccount,
) -> bool {
    ||| leaf_of(m, address) == leaf_hash(account@)
    ||| leaf_of(m, address) == empty_hash(0) && account.balance == 0
}

/// Two byte strings on the path of the proof collide, one of the proof and one of the tree.
pub open spec fn proof_collides(m: Map<[u8; 32], [u8; 32]>, proof: MerkleProof) -> bool {
    path_collides(m, proof.key, claimed_leaf(proof, empty_hash(0)), proof.siblings@)
}

/// The rows of an accepted batch are what happened to the state: where the roots of a row are
/// those of two trees, the first tree holds both accounts with the balances that the row has
/// before the transfer, and the second with those that it has after it, unless two byte
/// strings on the path of that account's proof collide; and the trees of neighbouring rows have one root.
pub proof fn law_bound_rows_are_in_the_state(
    p: PublicInputs,
    s: Seq<RowStateBinding>,
    row: int,
    before: Map<[u8; 32], [u8; 32]>,
    after: Map<[u8; 32], [u8; 32]>,
)
    requires
        binding_failure(p, s) is None,
        0 <= row < s.len(),
        s.len() <= usize::MAX,
        s[row].root_before == root_of(before),
        s[row].root_after == root_of(after),
    ensures
        row + 1 < s.len() ==> s[row].root_after == s[row + 1].root_before,
        s[row].from_before.balance == p.at(COL_FROM_BEFORE as int, row),
        s[row].from_after.balance == p.at(COL_FROM_AFTER as int, row),
        s[row].to_before.balance == p.at(COL_TO_BEFORE as int, row),
        s[row].to_after.balance == p.at(COL_TO_AFTER as int, row),
        is_row_address(p, COL_FROM_ADDRESS as int, row, s[row].from_proof_before.key),
        is_row_address(p, COL_TO_ADDRESS as int, row, s[row].to_proof_before.key),
        account_in_tree(before, s[row].from_proof_before.key, s[row].from_before)
            || proof_collides(before, s[row].from_proof_before),
        account_in_tree(after, s[row].from_proof_before.key, s[row].from_after) || proof_collides(
            after,
            s[row].from_proof_after,
        ),
        account_in_tree(before, s[row].to_proof_before.key, s[row].to_before) || proof_collides(
            before,
            s[row].to_proof_before,
        ),
        account_in_tree(after, s[row].to_proof_before.key, s[row].to_after) || proof_collides(
            after,
            s[row].to_proof_after,
        ),
{
    let b = s[row];
    lemma_rows_accepted(p, s, 0, row);
    if row + 1 < s.len() {
        lemma_chain_accepted(s, 0, row);
    }
    law_proofs_bind(b.from_proof_before, before);
    law_proofs_bind(b.from_proof_after, after);
    law_proofs_bind(b.to_proof_before, before);
    law_proofs_bind(b.to_proof_after, after);
    assert forall|i: int| 0 <= i < 4 implies #[trigger] limb(b.from_proof_before.key@, i) == limb(
        b.from_proof_after.key@,
        i,
    ) by {
        assert(limb(b.from_proof_before.key@, i) == p.at(COL_FROM_ADDRESS + i, row));
        assert(limb(b.from_proof_after.key@, i) == p.at(COL_FROM_ADDRESS + i, row));
    }
    law_limbs_determine_the_address(b.from_proof_before.key, b.from_proof_after.key);
    assert forall|i: int| 0 <= i < 4 implies #[trigger] limb(b.to_proof_before.key@, i) == limb(
        b.to_proof_after.key@,
        i,
    ) by {
        assert(limb(b.to_proof_before.key@, i) == p.at(COL_TO_ADDRESS + i, row));
        assert(limb(b.to_proof_after.key@, i) == p.at(COL_TO_ADDRESS + i, row));
    }
    law_limbs_determine_the_address(b.to_proof_before.key, b.to_proof_after.key);
}

} // verus!
