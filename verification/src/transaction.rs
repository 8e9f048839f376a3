//! Transactions, their bytes and their signatures.
use crate::codec::{
    borsh_bytes, borsh_write_bytes, borsh_write_u32, le_bytes, lemma_le_bytes_len, lemma_le_injective,
    lemma_pow256,
};
use crate::hash::{sha256, sha256_digest};
use crate::keys::{
    address_of, ed25519_public, ed25519_signed, mldsa_signs, signature_good, verify, HybridSignature,
    Keypair, PublicKeyBundle,
};
use crate::pubkey::Pubkey;
use vstd::prelude::*;

verus! {

/// A call of a program.
#[derive(Debug)]
pub struct Instruction {
    pub program_id: Pubkey,
    /// The accounts that the call is about, in the order that the program gives meaning to.
    pub accounts: Vec<Pubkey>,
    pub data: Vec<u8>,
}

/// What an instruction says.
#[verifier::ext_equal]
pub ghost struct InstructionData {
    pub program_id: Pubkey,
    pub accounts: Seq<Pubkey>,
    pub data: Seq<u8>,
}

impl View for Instruction {
    type V = InstructionData;

    open spec fn view(&self) -> InstructionData {
        InstructionData {
            program_id: self.program_id,
            accounts: self.accounts@,
            data: self.data@,
        }
    }
}

impl Clone for Instruction {
    fn clone(&self) -> (copy: Self)
        ensures
            copy@ == self@,
    {
        let accounts = self.accounts.clone();
        let data = self.data.clone();
        proof {
            assert(accounts@ =~= self.accounts@);
            assert(data@ =~= self.data@);
        }
        Instruction { program_id: self.program_id, accounts, data }
    }
}

/// What is signed.
#[derive(Debug)]
pub struct Message {
    pub payer: Pubkey,
    pub payer_keys: PublicKeyBundle,
    /// The hash of a recent block.
    pub recent_blockhash: [u8; 32],
    pub instructions: Vec<Instruction>,
}

/// What a message says.
#[verifier::ext_equal]
pub ghost struct MessageData {
    pub payer: Pubkey,
    pub ed25519: [u8; 32],
    pub mldsa: Seq<u8>,
    pub recent_blockhash: [u8; 32],
    pub instructions: Seq<InstructionData>,
}

/// What a list of instructions says.
pub open spec fn instructions_data(s: Seq<Instruction>) -> Seq<InstructionData> {
    s.map_values(|i: Instruction| i@)
}

impl View for Message {
    type V = MessageData;

    open spec fn view(&self) -> MessageData {
        MessageData {
            payer: self.payer,
            ed25519: self.payer_keys.ed25519,
            mldsa: self.payer_keys.mldsa@,
            recent_blockhash: self.recent_blockhash,
            instructions: instructions_data(self.instructions@),
        }
    }
}

/// The addresses one behind the other.
pub open spec fn address_list_bytes(s: Seq<Pubkey>) -> Seq<u8>
    decreases s.len(),
{
    if s.len() == 0 {
        Seq::empty()
    } else {
        s[0].0@ + address_list_bytes(s.skip(1))
    }
}

/// The bytes of an instruction.
pub open spec fn instruction_bytes(i: InstructionData) -> Seq<u8> {
    i.program_id.0@ + le_bytes(i.accounts.len(), 4) + address_list_bytes(i.accounts) + borsh_bytes(
        i.data,
    )
}

/// The instructions one behind the other.
pub open spec fn instruction_list_bytes(s: Seq<InstructionData>) -> Seq<u8>
    decreases s.len(),
{
    if s.len() == 0 {
        Seq::empty()
    } else {
        instruction_bytes(s[0]) + instruction_list_bytes(s.skip(1))
    }
}

/// The bytes of a message.
pub open spec fn message_bytes(m: MessageData) -> Seq<u8> {
    m.payer.0@ + m.ed25519@ + borsh_bytes(m.mldsa) + m.recent_blockhash@ + le_bytes(
        m.instructions.len(),
        4,
    ) + instruction_list_bytes(m.instructions)
}

/// The lengths in an instruction fit the four bytes in which they are written.
pub open spec fn instruction_fits(i: InstructionData) -> bool {
    i.accounts.len() <= u32::MAX && i.data.len() <= u32::MAX
}

/// The lengths in a message fit the four bytes in which they are written.
pub open spec fn message_fits(m: MessageData) -> bool {
    &&& m.mldsa.len() <= u32::MAX
    &&& m.instructions.len() <= u32::MAX
    &&& forall|i: int|
        0 <= i < m.instructions.len() ==> instruction_fits(#[trigger] m.instructions[i])
}

impl Instruction {
    fn encode(&self) -> (bytes: Option<Vec<u8>>)
        ensures
            match bytes {
                Some(b) => instruction_fits(self@) && b@ == instruction_bytes(self@),
                None => !instruction_fits(self@),
            },
    {
        if self.accounts.len() > u32::MAX as usize || self.data.len() > u32::MAX as usize {
            return None;
        }
        let mut out: Vec<u8> = Vec::new();
        out.extend_from_slice(self.program_id.0.as_slice());
        let mut count: Vec<u8> = borsh_write_u32(self.accounts.len() as u32);
        out.append(&mut count);
        let ghost head = self.program_id.0@ + le_bytes(self.accounts@.len(), 4);
        proof {
            assert(out@ =~= head);
            assert(self.accounts@.skip(0) =~= self.accounts@);
        }
        let mut i: usize = 0;
        while i < self.accounts.len()
            invariant
                i <= self.accounts@.len(),
                out@ + address_list_bytes(self.accounts@.skip(i as int)) == head
                    + address_list_bytes(self.accounts@),
            decreases self.accounts@.len() - i,
        {
            let ghost before = out@;
            out.extend_from_slice(self.accounts[i].0.as_slice());
            proof {
                let rest = self.accounts@.skip(i as int);
                assert(rest.skip(1) =~= self.accounts@.skip(i + 1));
                assert(out@ + address_list_bytes(self.accounts@.skip(i + 1)) =~= before
                    + address_list_bytes(rest));
            }
            i += 1;
        }
        proof {
            assert(out@ + address_list_bytes(self.accounts@.skip(i as int)) =~= out@);
        }
        let mut data: Vec<u8> = borsh_write_bytes(self.data.as_slice());
        out.append(&mut data);
        proof {
            assert(out@ =~= instruction_bytes(self@));
        }
        Some(out)
    }
}

impl Message {
    /// The bytes that are signed, or none where a length does not fit.
    pub fn encode(&self) -> (bytes: Option<Vec<u8>>)
        ensures
            match bytes {
                Some(b) => message_fits(self@) && b@ == message_bytes(self@),
                None => !message_fits(self@),
            },
    {
        if self.payer_keys.mldsa.len() > u32::MAX as usize || self.instructions.len()
            > u32::MAX as usize {
            return None;
        }
        let mut out: Vec<u8> = Vec::new();
        out.extend_from_slice(self.payer.0.as_slice());
        out.extend_from_slice(self.payer_keys.ed25519.as_slice());
        let mut mldsa: Vec<u8> = borsh_write_bytes(self.payer_keys.mldsa.as_slice());
        out.append(&mut mldsa);
        out.extend_from_slice(self.recent_blockhash.as_slice());
        let mut count: Vec<u8> = borsh_write_u32(self.instructions.len() as u32);
        out.append(&mut count);
        let ghost all = self@.instructions;
        let ghost head = out@;
        proof {
            assert(head =~= self.payer.0@ + self@.ed25519@ + borsh_bytes(self@.mldsa)
                + self.recent_blockhash@ + le_bytes(all.len(), 4));
            assert(all.skip(0) =~= all);
        }
        let mut i: usize = 0;
        while i < self.instructions.len()
            invariant
                i <= self.instructions@.len(),
                all == instructions_data(self.instructions@),
                all == self@.instructions,
                forall|j: int| 0 <= j < i ==> instruction_fits(#[trigger] all[j]),
                out@ + instruction_list_bytes(all.skip(i as int)) == head + instruction_list_bytes(all),
            decreases self.instructions@.len() - i,
        {
            let ghost before = out@;
            proof {
                assert(all[i as int] == self.instructions@[i as int]@);
            }
            match self.instructions[i].encode() {
                Some(mut bytes) => {
                    out.append(&mut bytes);
                    proof {
                        let rest = all.skip(i as int);
                        assert(rest.skip(1) =~= all.skip(i + 1));
                        assert(out@ + instruction_list_bytes(all.skip(i + 1)) =~= before
                            + instruction_list_bytes(rest));
                    }
                },
                None => {
                    return None;
                },
            }
            i += 1;
        }
        proof {
            assert(out@ + instruction_list_bytes(all.skip(i as int)) =~= out@);
            assert(out@ =~= message_bytes(self@));
        }
        Some(out)
    }
}

/// A signed message.
#[derive(Debug)]
pub struct Transaction {
    pub message: Message,
    pub signature: HybridSignature,
}

/// The keys belong to the payer, and the signature of the message is good under them.
pub open spec fn transaction_good(t: Transaction) -> bool {
    &&& address_of(t.message@.ed25519, t.message@.mldsa) == t.message@.payer.0
    &&& message_fits(t.message@)
    &&& signature_good(
        t.message@.ed25519,
        t.message@.mldsa,
        message_bytes(t.message@),
        t.signature.ed25519.0,
        t.signature.mldsa@,
    )
}

/// The identity of a transaction.
pub open spec fn transaction_id(t: Transaction) -> [u8; 32] {
    let body = if message_fits(t.message@) {
        message_bytes(t.message@)
    } else {
        Seq::empty()
    };
    sha256(body + t.signature.ed25519.0@ + t.signature.mldsa@)
}

impl Transaction {
    /// A transaction of `payer`, or none where the system has no random numbers. Its
    /// signature is good, where the keypair was generated.
    pub fn new_signed(
        payer: &Keypair,
        recent_blockhash: [u8; 32],
        instructions: Vec<Instruction>,
    ) -> (transaction: Option<Self>)
        requires
            payer.wf(),
            instructions@.len() <= u32::MAX,
            forall|i: int|
                0 <= i < instructions@.len() ==> instruction_fits((#[trigger] instructions@[i])@),
        ensures
            transaction is Some ==> {
                let t = transaction->0;
                &&& t.message@ == (MessageData {
                    payer: Pubkey(
                        address_of(ed25519_public(payer.ed25519_secret()), payer.mldsa_public_bytes()),
                    ),
                    ed25519: ed25519_public(payer.ed25519_secret()),
                    mldsa: payer.mldsa_public_bytes(),
                    recent_blockhash,
                    instructions: instructions_data(instructions@),
                })
                &&& t.signature.ed25519.0 == ed25519_signed(
                    payer.ed25519_secret(),
                    message_bytes(t.message@),
                )
                &&& mldsa_signs(
                    payer.mldsa_secret(),
                    message_bytes(t.message@),
                    t.signature.mldsa@,
                )
                &&& payer.honest() ==> transaction_good(t)
            },
    {
        let payer_keys = payer.public_key_bundle();
        let message = Message {
            payer: payer_keys.to_address(),
            payer_keys,
            recent_blockhash,
            instructions,
        };
        proof {
            assert forall|i: int| 0 <= i < message@.instructions.len() implies instruction_fits(
                #[trigger] message@.instructions[i],
            ) by {
                assert(message@.instructions[i] == instructions@[i]@);
            }
        }
        let bytes = match message.encode() {
            Some(bytes) => bytes,
            None => {
                return None;
            },
        };
        Transaction::with_signature(message, payer.sign(bytes.as_slice()))
    }

    /// The transaction of a message and its signature; none exactly where the message could
    /// not be signed.
    pub fn with_signature(message: Message, signature: Option<HybridSignature>) -> (transaction:
        Option<Self>)
        ensures
            match signature {
                Some(s) => transaction == Some(Transaction { message, signature: s }),
                None => transaction is None,
            },
    {
        match signature {
            Some(signature) => Some(Transaction { message, signature }),
            None => None,
        }
    }

    /// Whether the keys belong to the payer and the signature is good under them.
    pub fn verify_signature(&self) -> (good: bool)
        ensures
            good == transaction_good(*self),
    {
        let address = self.message.payer_keys.to_address();
        if !address.same_as(&self.message.payer) {
            return false;
        }
        match self.message.encode() {
            Some(bytes) => verify(&self.message.payer_keys, bytes.as_slice(), &self.signature),
            None => false,
        }
    }

    /// The identity of the transaction.
    pub fn hash(&self) -> (id: [u8; 32])
        ensures
            id == transaction_id(*self),
    {
        let mut data: Vec<u8> = match self.message.encode() {
            Some(bytes) => bytes,
            None => Vec::new(),
        };
        let ghost body = data@;
        data.extend_from_slice(self.signature.ed25519.0.as_slice());
        data.extend_from_slice(self.signature.mldsa.as_slice());
        proof {
            assert(data@ =~= body + self.signature.ed25519.0@ + self.signature.mldsa@);
        }
        sha256_digest(data.as_slice())
    }
}

proof fn lemma_split_equal(a: Seq<u8>, x: Seq<u8>, b: Seq<u8>, y: Seq<u8>)
    requires
        a.len() == b.len(),
        a + x == b + y,
    ensures
        a == b,
        x == y,
{
    let s = a + x;
    let t = b + y;
    assert(a =~= s.take(a.len() as int));
    assert(b =~= t.take(b.len() as int));
    assert(x =~= s.skip(a.len() as int));
    assert(y =~= t.skip(b.len() as int));
}

proof fn lemma_array_split(a: [u8; 32], x: Seq<u8>, b: [u8; 32], y: Seq<u8>)
    requires
        a@ + x == b@ + y,
    ensures
        a == b,
        x == y,
{
    lemma_split_equal(a@, x, b@, y);
    assert(a =~= b);
}

proof fn lemma_count_split(a: nat, x: Seq<u8>, b: nat, y: Seq<u8>)
    requires
        a <= u32::MAX,
        b <= u32::MAX,
        le_bytes(a, 4) + x == le_bytes(b, 4) + y,
    ensures
        a == b,
        x == y,
{
    lemma_le_bytes_len(a, 4);
    lemma_le_bytes_len(b, 4);
    lemma_split_equal(le_bytes(a, 4), x, le_bytes(b, 4), y);
    lemma_pow256();
    lemma_le_injective(a, b, 4);
}

proof fn lemma_borsh_split(a: Seq<u8>, x: Seq<u8>, b: Seq<u8>, y: Seq<u8>)
    requires
        a.len() <= u32::MAX,
        b.len() <= u32::MAX,
        borsh_bytes(a) + x == borsh_bytes(b) + y,
    ensures
        a == b,
        x == y,
{
    assert(borsh_bytes(a) + x =~= le_bytes(a.len(), 4) + (a + x));
    assert(borsh_bytes(b) + y =~= le_bytes(b.len(), 4) + (b + y));
    lemma_count_split(a.len(), a + x, b.len(), b + y);
    lemma_split_equal(a, x, b, y);
}

proof fn lemma_address_list_split(a: Seq<Pubkey>, x: Seq<u8>, b: Seq<Pubkey>, y: Seq<u8>)
    requires
        a.len() == b.len(),
        address_list_bytes(a) + x == address_list_bytes(b) + y,
    ensures
        a == b,
        x == y,
    decreases a.len(),
{
    if a.len() == 0 {
        assert(address_list_bytes(a) + x =~= x);
        assert(address_list_bytes(b) + y =~= y);
        assert(a =~= b);
    } else {
        let a1 = a.skip(1);
        let b1 = b.skip(1);
        assert(address_list_bytes(a) + x =~= a[0].0@ + (address_list_bytes(a1) + x));
        assert(address_list_bytes(b) + y =~= b[0].0@ + (address_list_bytes(b1) + y));
        lemma_array_split(
            a[0].0,
            address_list_bytes(a1) + x,
            b[0].0,
            address_list_bytes(b1) + y,
        );
        lemma_address_list_split(a1, x, b1, y);
        assert forall|i: int| 0 <= i < a.len() implies a[i] == b[i] by {
            if i > 0 {
                assert(a1[i - 1] == b1[i - 1]);
            }
        }
        assert(a =~= b);
    }
}

proof fn lemma_instruction_split(a: InstructionData, x: Seq<u8>, b: InstructionData, y: Seq<u8>)
    requires
        instruction_fits(a),
        instruction_fits(b),
        instruction_bytes(a) + x == instruction_bytes(b) + y,
    ensures
        a == b,
        x == y,
{
    let ta = borsh_bytes(a.data) + x;
    let tb = borsh_bytes(b.data) + y;
    let la = address_list_bytes(a.accounts) + ta;
    let lb = address_list_bytes(b.accounts) + tb;
    assert(instruction_bytes(a) + x =~= a.program_id.0@ + (le_bytes(a.accounts.len(), 4) + la));
    assert(instruction_bytes(b) + y =~= b.program_id.0@ + (le_bytes(b.accounts.len(), 4) + lb));
    lemma_array_split(
        a.program_id.0,
        le_bytes(a.accounts.len(), 4) + la,
        b.program_id.0,
        le_bytes(b.accounts.len(), 4) + lb,
    );
    lemma_count_split(a.accounts.len(), la, b.accounts.len(), lb);
    lemma_address_list_split(a.accounts, ta, b.accounts, tb);
    lemma_borsh_split(a.data, x, b.data, y);
    assert(a =~= b);
}

proof fn lemma_instruction_list_split(a: Seq<InstructionData>, b: Seq<InstructionData>)
    requires
        a.len() == b.len(),
        forall|i: int| 0 <= i < a.len() ==> instruction_fits(#[trigger] a[i]),
        forall|i: int| 0 <= i < b.len() ==> instruction_fits(#[trigger] b[i]),
        instruction_list_bytes(a) == instruction_list_bytes(b),
    ensures
        a == b,
    decreases a.len(),
{
    if a.len() == 0 {
        assert(a =~= b);
    } else {
        let a1 = a.skip(1);
        let b1 = b.skip(1);
        lemma_instruction_split(
            a[0],
            instruction_list_bytes(a1),
            b[0],
            instruction_list_bytes(b1),
        );
        assert forall|i: int| 0 <= i < a1.len() implies instruction_fits(#[trigger] a1[i]) by {
            assert(a1[i] == a[i + 1]);
        }
        assert forall|i: int| 0 <= i < b1.len() implies instruction_fits(#[trigger] b1[i]) by {
            assert(b1[i] == b[i + 1]);
        }
        lemma_instruction_list_split(a1, b1);
        assert forall|i: int| 0 <= i < a.len() implies a[i] == b[i] by {
            if i > 0 {
                assert(a1[i - 1] == b1[i - 1]);
            }
        }
        assert(a =~= b);
    }
}

/// Different messages have different bytes, so that a signature is a signature of one
/// message only.
pub proof fn law_message_bytes_injective(a: MessageData, b: MessageData)
    requires
        message_fits(a),
        message_fits(b),
        message_bytes(a) == message_bytes(b),
    ensures
        a == b,
{
    let ia = instruction_list_bytes(a.instructions);
    let ib = instruction_list_bytes(b.instructions);
    let ca = le_bytes(a.instructions.len(), 4) + ia;
    let cb = le_bytes(b.instructions.len(), 4) + ib;
    let ra = a.recent_blockhash@ + ca;
    let rb = b.recent_blockhash@ + cb;
    let ma = borsh_bytes(a.mldsa) + ra;
    let mb = borsh_bytes(b.mldsa) + rb;
    assert(message_bytes(a) =~= a.payer.0@ + (a.ed25519@ + ma));
    assert(message_bytes(b) =~= b.payer.0@ + (b.ed25519@ + mb));
    lemma_array_split(a.payer.0, a.ed25519@ + ma, b.payer.0, b.ed25519@ + mb);
    lemma_array_split(a.ed25519, ma, b.ed25519, mb);
    lemma_borsh_split(a.mldsa, ra, b.mldsa, rb);
    lemma_array_split(a.recent_blockhash, ca, b.recent_blockhash, cb);
    lemma_count_split(a.instructions.len(), ia, b.instructions.len(), ib);
    lemma_instruction_list_split(a.instructions, b.instructions);
    assert(a =~= b);
}

} // verus!
