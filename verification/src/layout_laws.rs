//! Where everything stands in the bytes that are signed, hashed and sent.
use crate::account::Account;
use crate::codec::{
    borsh_bytes, filled, le_bytes, le_value, lemma_le_bytes_len, lemma_le_round_trip, lemma_pow256,
};
use crate::dag::Certificate;
use crate::decode::DecodeError;
use crate::hash::{sha256, sha3_256};
use crate::keymap::{differ_first_at, entries_map, key_lt, lemma_key_lt_asymmetric};
use crate::keys::{
    address_of, ed25519_public, ed25519_verifies, is_ed25519_pair, mldsa_verifies, signature_good, Keypair,
    KeypairError, MLDSA_PUBLIC_LEN, MLDSA_SECRET_LEN, MLDSA_SIGNATURE_LEN,
};
use crate::poh::{chained, linked, next_hash, PohEntry};
use crate::pubkey::{reward_pool_bytes, treasury_bytes, Pubkey, PubkeyError};
use crate::roundmap::rounds_map;
use crate::signer_codec::{request_bytes, request_fits, response_fits, RequestData, ResponseData};
use crate::signer_guard::{guard_bytes, old_guard_bytes, own_recorded, GuardState};
use crate::signer_handshake::{challenge_bytes, AuthChallenge, AuthResponse};
use crate::signer_wire::{
    framed, keyed_input, mac_input, mac_of, DIR_C2S, DIR_S2C, MAX_FRAME_BYTES, PROTO_VERSION,
    RS_AUTH_DOMAIN, RS_SESSION_DOMAIN,
};
use crate::state_account::{encodable, StateAccount, StateAccountData};
use crate::text::decimal;
use crate::transaction::{
    address_list_bytes, instruction_bytes, instruction_fits, instruction_list_bytes, message_bytes,
    message_fits, transaction_good, transaction_id, Instruction, InstructionData, Message,
    MessageData, Transaction,
};
use crate::vertex::{
    batch_list_bytes, digest_list_bytes, is_vertex, law_vertex_round_trip, vertex_bytes,
    vertex_digest, vertex_fault, vertex_fits, vertex_of, Vertex, VertexData,
};
use vstd::prelude::*;
use vstd::string::*;
use vstd::utf8::*;

verus! {

/// The number in `n` bytes at `at`, least significant first.
pub open spec fn number_at(s: Seq<u8>, at: int, n: int) -> nat {
    le_value(s.subrange(at, at + n))
}

/// A number is written least significant byte first, and read so.
pub proof fn law_least_significant_first(x: nat, n: nat, s: Seq<u8>)
    ensures
        le_bytes(x, n).len() == n,
        n > 0 ==> le_bytes(x, n)[0] == x % 256 && le_bytes(x, n).skip(1) == le_bytes(
            x / 256,
            (n - 1) as nat,
        ),
        le_value(Seq::empty()) == 0,
        s.len() > 0 ==> le_value(s) == s[0] + 256 * le_value(s.skip(1)),
{
    lemma_le_bytes_len(x, n);
    if n > 0 {
        assert(le_bytes(x, n).skip(1) =~= le_bytes(x / 256, (n - 1) as nat));
    }
}

proof fn lemma_number(s: Seq<u8>, at: int, x: nat, n: nat)
    requires
        0 <= at,
        at + n <= s.len(),
        s.subrange(at, at + n) == le_bytes(x, n),
        (n == 4 && x <= u32::MAX) || (n == 8 && x <= u64::MAX),
    ensures
        number_at(s, at, n as int) == x,
{
    lemma_pow256();
    lemma_le_round_trip(x, n);
}

/// Bytes of a length that is not known beforehand follow their length, in four bytes.
pub proof fn law_lengths_come_first(data: Seq<u8>)
    requires
        data.len() <= u32::MAX,
    ensures
        borsh_bytes(data).len() == 4 + data.len(),
        number_at(borsh_bytes(data), 0, 4) == data.len(),
        borsh_bytes(data).skip(4) == data,
        framed(data) == borsh_bytes(data),
{
    let s = borsh_bytes(data);
    lemma_le_bytes_len(data.len(), 4);
    assert(s.subrange(0, 4) =~= le_bytes(data.len(), 4));
    lemma_number(s, 0, data.len(), 4);
    assert(s.skip(4) =~= data);
}

proof fn lemma_batches_at(s: Seq<(u32, [u8; 32])>, i: int)
    requires
        0 <= i < s.len(),
    ensures
        batch_list_bytes(s).len() == 36 * s.len(),
        batch_list_bytes(s).subrange(36 * i, 36 * i + 4) == le_bytes(s[i].0 as nat, 4),
        batch_list_bytes(s).subrange(36 * i + 4, 36 * i + 36) == s[i].1@,
    decreases s.len(),
{
    let t = batch_list_bytes(s);
    let front = batch_list_bytes(s.drop_last());
    lemma_le_bytes_len(s.last().0 as nat, 4);
    if s.len() > 1 {
        lemma_batches_at(
            s.drop_last(),
            if i < s.len() - 1 {
                i
            } else {
                0
            },
        );
    }
    assert(front.len() == 36 * (s.len() - 1));
    if i == s.len() - 1 {
        assert(t.subrange(36 * i, 36 * i + 4) =~= le_bytes(s[i].0 as nat, 4));
        assert(t.subrange(36 * i + 4, 36 * i + 36) =~= s[i].1@);
    } else {
        assert(t.subrange(36 * i, 36 * i + 4) =~= front.subrange(36 * i, 36 * i + 4));
        assert(t.subrange(36 * i + 4, 36 * i + 36) =~= front.subrange(36 * i + 4, 36 * i + 36));
    }
}

proof fn lemma_digests_at(s: Seq<[u8; 32]>, i: int)
    requires
        0 <= i < s.len(),
    ensures
        digest_list_bytes(s).len() == 32 * s.len(),
        digest_list_bytes(s).subrange(32 * i, 32 * i + 32) == s[i]@,
    decreases s.len(),
{
    let t = digest_list_bytes(s);
    let front = digest_list_bytes(s.drop_last());
    if s.len() > 1 {
        lemma_digests_at(
            s.drop_last(),
            if i < s.len() - 1 {
                i
            } else {
                0
            },
        );
    }
    assert(front.len() == 32 * (s.len() - 1));
    if i == s.len() - 1 {
        assert(t.subrange(32 * i, 32 * i + 32) =~= s[i]@);
    } else {
        assert(t.subrange(32 * i, 32 * i + 32) =~= front.subrange(32 * i, 32 * i + 32));
    }
}

proof fn lemma_lists_len(v: VertexData)
    ensures
        batch_list_bytes(v.batch_digests).len() == 36 * v.batch_digests.len(),
        digest_list_bytes(v.parents).len() == 32 * v.parents.len(),
{
    if v.batch_digests.len() > 0 {
        lemma_batches_at(v.batch_digests, 0);
    }
    if v.parents.len() > 0 {
        lemma_digests_at(v.parents, 0);
    }
}

/// The bytes of a vertex: its round in eight bytes, its author, how many batches there are in
/// four, each with its worker in four and its digest, then how many parents in four and each of
/// them. Its digest is the hash of exactly these.
pub proof fn law_vertices_are_laid_out(v: VertexData, i: int, j: int)
    requires
        vertex_fits(v),
    ensures
        ({
            let s = vertex_bytes(v);
            let b = v.batch_digests.len() as int;
            let p = v.parents.len() as int;
            &&& s.len() == 48 + 36 * b + 32 * p
            &&& number_at(s, 0, 8) == v.round
            &&& s.subrange(8, 40) == v.author.0@
            &&& number_at(s, 40, 4) == b
            &&& 0 <= i < b ==> number_at(s, 44 + 36 * i, 4) == v.batch_digests[i].0
                && s.subrange(48 + 36 * i, 80 + 36 * i) == v.batch_digests[i].1@
            &&& number_at(s, 44 + 36 * b, 4) == p
            &&& 0 <= j < p ==> s.subrange(48 + 36 * b + 32 * j, 80 + 36 * b + 32 * j)
                == v.parents[j]@
            &&& vertex_digest(v) == sha3_256(s)
        }),
{
    let s = vertex_bytes(v);
    let b = v.batch_digests.len() as int;
    let p = v.parents.len() as int;
    lemma_lists_len(v);
    lemma_le_bytes_len(v.round as nat, 8);
    lemma_le_bytes_len(b as nat, 4);
    lemma_le_bytes_len(p as nat, 4);
    assert(s.subrange(0, 8) =~= le_bytes(v.round as nat, 8));
    lemma_number(s, 0, v.round as nat, 8);
    assert(s.subrange(8, 40) =~= v.author.0@);
    assert(s.subrange(40, 44) =~= le_bytes(b as nat, 4));
    lemma_number(s, 40, b as nat, 4);
    assert(s.subrange(44 + 36 * b, 48 + 36 * b) =~= le_bytes(p as nat, 4));
    lemma_number(s, 44 + 36 * b, p as nat, 4);
    if 0 <= i < b {
        lemma_batches_at(v.batch_digests, i);
        let t = batch_list_bytes(v.batch_digests);
        assert(s.subrange(44 + 36 * i, 48 + 36 * i) =~= t.subrange(36 * i, 36 * i + 4));
        lemma_number(s, 44 + 36 * i, v.batch_digests[i].0 as nat, 4);
        assert(s.subrange(48 + 36 * i, 80 + 36 * i) =~= t.subrange(36 * i + 4, 36 * i + 36));
    }
    if 0 <= j < p {
        lemma_digests_at(v.parents, j);
        let t = digest_list_bytes(v.parents);
        assert(s.subrange(48 + 36 * b + 32 * j, 80 + 36 * b + 32 * j) =~= t.subrange(
            32 * j,
            32 * j + 32,
        ));
    }
}

proof fn lemma_addresses_at(s: Seq<Pubkey>, i: int)
    requires
        0 <= i < s.len(),
    ensures
        address_list_bytes(s).len() == 32 * s.len(),
        address_list_bytes(s).subrange(32 * i, 32 * i + 32) == s[i].0@,
    decreases s.len(),
{
    let t = address_list_bytes(s);
    let rest = address_list_bytes(s.skip(1));
    if s.len() > 1 {
        lemma_addresses_at(
            s.skip(1),
            if i > 0 {
                i - 1
            } else {
                0
            },
        );
    }
    assert(rest.len() == 32 * (s.len() - 1));
    if i == 0 {
        assert(t.subrange(0, 32) =~= s[0].0@);
    } else {
        assert(t.subrange(32 * i, 32 * i + 32) =~= rest.subrange(32 * (i - 1), 32 * (i - 1) + 32));
    }
}

/// The bytes of an instruction: its program, how many accounts in four bytes, each of them, the
/// length of its data in four, and its data.
pub proof fn law_instructions_are_laid_out(i: InstructionData, j: int)
    requires
        instruction_fits(i),
    ensures
        ({
            let s = instruction_bytes(i);
            let n = i.accounts.len() as int;
            &&& s.len() == 40 + 32 * n + i.data.len()
            &&& s.subrange(0, 32) == i.program_id.0@
            &&& number_at(s, 32, 4) == n
            &&& 0 <= j < n ==> s.subrange(36 + 32 * j, 68 + 32 * j) == i.accounts[j].0@
            &&& number_at(s, 36 + 32 * n, 4) == i.data.len()
            &&& s.skip(40 + 32 * n) == i.data
        }),
{
    let s = instruction_bytes(i);
    let n = i.accounts.len() as int;
    let t = address_list_bytes(i.accounts);
    if n > 0 {
        lemma_addresses_at(i.accounts, 0);
    }
    lemma_le_bytes_len(n as nat, 4);
    lemma_le_bytes_len(i.data.len(), 4);
    assert(s.subrange(0, 32) =~= i.program_id.0@);
    assert(s.subrange(32, 36) =~= le_bytes(n as nat, 4));
    lemma_number(s, 32, n as nat, 4);
    assert(s.subrange(36 + 32 * n, 40 + 32 * n) =~= le_bytes(i.data.len(), 4));
    lemma_number(s, 36 + 32 * n, i.data.len(), 4);
    assert(s.skip(40 + 32 * n) =~= i.data);
    if 0 <= j < n {
        lemma_addresses_at(i.accounts, j);
        assert(s.subrange(36 + 32 * j, 68 + 32 * j) =~= t.subrange(32 * j, 32 * j + 32));
    }
}

/// Instructions follow each other in their order, with nothing between them.
pub proof fn law_instructions_follow_each_other(first: InstructionData, rest: Seq<InstructionData>)
    ensures
        instruction_list_bytes(Seq::empty()) == Seq::<u8>::empty(),
        instruction_list_bytes(seq![first] + rest) == instruction_bytes(first)
            + instruction_list_bytes(rest),
{
    assert((seq![first] + rest).skip(1) =~= rest);
}

/// The bytes of a message: the payer, its two public keys, the second after its length in four
/// bytes, the hash of a recent block, how many instructions there are in four bytes, and they.
pub proof fn law_messages_are_laid_out(m: MessageData)
    requires
        message_fits(m),
    ensures
        ({
            let s = message_bytes(m);
            let k = m.mldsa.len() as int;
            &&& s.subrange(0, 32) == m.payer.0@
            &&& s.subrange(32, 64) == m.ed25519@
            &&& number_at(s, 64, 4) == k
            &&& s.subrange(68, 68 + k) == m.mldsa
            &&& s.subrange(68 + k, 100 + k) == m.recent_blockhash@
            &&& number_at(s, 100 + k, 4) == m.instructions.len()
            &&& s.skip(104 + k) == instruction_list_bytes(m.instructions)
        }),
{
    let s = message_bytes(m);
    let k = m.mldsa.len() as int;
    lemma_le_bytes_len(k as nat, 4);
    lemma_le_bytes_len(m.instructions.len(), 4);
    assert(s.subrange(0, 32) =~= m.payer.0@);
    assert(s.subrange(32, 64) =~= m.ed25519@);
    assert(s.subrange(64, 68) =~= le_bytes(k as nat, 4));
    lemma_number(s, 64, k as nat, 4);
    assert(s.subrange(68, 68 + k) =~= m.mldsa);
    assert(s.subrange(68 + k, 100 + k) =~= m.recent_blockhash@);
    assert(s.subrange(100 + k, 104 + k) =~= le_bytes(m.instructions.len(), 4));
    lemma_number(s, 100 + k, m.instructions.len(), 4);
    assert(s.skip(104 + k) =~= instruction_list_bytes(m.instructions));
}

/// A transaction is good exactly where both signatures of its message verify under the two keys
/// that it names, these have their lengths, and their hash is the payer's address. Its id is the
/// hash of the message and both signatures.
pub proof fn law_good_transactions_are_signed_by_their_payer(t: Transaction)
    requires
        message_fits(t.message@),
    ensures
        ({
            let m = t.message@;
            let signed = message_bytes(m);
            &&& transaction_good(t) <==> {
                &&& ed25519_verifies(m.ed25519, signed, t.signature.ed25519.0)
                &&& mldsa_verifies(m.mldsa, signed, t.signature.mldsa@)
                &&& m.mldsa.len() == 1952
                &&& t.signature.mldsa@.len() == 3309
                &&& m.payer.0 == sha256(m.ed25519@ + m.mldsa)
            }
            &&& transaction_id(t) == sha256(
                signed + t.signature.ed25519.0@ + t.signature.mldsa@,
            )
        }),
{
}

/// A signature counts only where both halves verify, and keys and signatures have their
/// lengths.
pub proof fn law_both_signatures_count(
    ed25519: [u8; 32],
    mldsa: Seq<u8>,
    msg: Seq<u8>,
    one: [u8; 64],
    two: Seq<u8>,
)
    ensures
        signature_good(ed25519, mldsa, msg, one, two) <==> ed25519_verifies(ed25519, msg, one)
            && mldsa_verifies(mldsa, msg, two) && mldsa.len() == 1952 && two.len() == 3309,
        address_of(ed25519, mldsa) == sha256(ed25519@ + mldsa),
        MLDSA_PUBLIC_LEN == 1952,
        MLDSA_SECRET_LEN == 4032,
        MLDSA_SIGNATURE_LEN == 3309,
{
}

/// Each entry of a history is the hash of the one before it, of the seed at the start, and of
/// what was mixed in.
pub proof fn law_histories_are_linked(seed: [u8; 32], entries: Seq<PohEntry>, i: int)
    requires
        0 <= i < entries.len(),
        chained(seed, entries),
    ensures
        ({
            let before = if i == 0 {
                seed
            } else {
                entries[i - 1].hash
            };
            match entries[i].mixed_data {
                None => entries[i].hash == sha256(before@),
                Some(data) => entries[i].hash == sha256(before@ + data@),
            }
        }),
{
    assert(linked(seed, entries, i));
    let before = if i == 0 {
        seed
    } else {
        entries[i - 1].hash
    };
    assert(before@ + Seq::<u8>::empty() =~= before@);
}

/// A history in which every entry is such a hash is accepted.
pub proof fn law_linked_histories_are_accepted(seed: [u8; 32], entries: Seq<PohEntry>)
    requires
        forall|i: int|
            0 <= i < entries.len() ==> (#[trigger] entries[i]).hash == sha256(
                (if i == 0 {
                    seed
                } else {
                    entries[i - 1].hash
                })@ + (match entries[i].mixed_data {
                    None => Seq::empty(),
                    Some(data) => data@,
                }),
            ),
    ensures
        chained(seed, entries),
{
    assert forall|i: int| 0 <= i < entries.len() implies #[trigger] linked(seed, entries, i) by {
        assert(entries[i].hash == entries[i].hash);
    }
}

/// The next hash is taken over the last one and what is mixed in.
pub proof fn law_next_hash_covers_both(before: [u8; 32], data: Seq<u8>)
    ensures
        next_hash(before, data) == sha256(before@ + data),
{
}

/// The addresses of the treasury and of the reward pool are their names, followed by zeros.
pub proof fn law_names_are_addresses()
    ensures
        treasury_bytes().len() == 32,
        treasury_bytes().take(8) == encode_utf8("TREASURY"@),
        forall|i: int| 8 <= i < 32 ==> #[trigger] treasury_bytes()[i] == 0,
        reward_pool_bytes().len() == 32,
        reward_pool_bytes().take(9) == encode_utf8("STAKEPOOL"@),
        forall|i: int| 9 <= i < 32 ==> #[trigger] reward_pool_bytes()[i] == 0,
{
    reveal_strlit("TREASURY");
    reveal_strlit("STAKEPOOL");
    is_ascii_chars_encode_utf8("TREASURY"@);
    is_ascii_chars_encode_utf8("STAKEPOOL"@);
    assert(treasury_bytes().take(8) =~= encode_utf8("TREASURY"@));
    assert(reward_pool_bytes().take(9) =~= encode_utf8("STAKEPOOL"@));
}

/// What a node asks of its signer, byte by byte.
pub proof fn law_requests_are_laid_out(r: RequestData)
    requires
        request_fits(r),
    ensures
        ({
            let s = request_bytes(r);
            match r {
                RequestData::GetBundle => s.len() == 1 && s[0] == 0,
                RequestData::SignOwnVote { round, digest } => {
                    &&& s.len() == 41 && s[0] == 1
                    &&& number_at(s, 1, 8) == round
                    &&& s.subrange(9, 41) == digest@
                },
                RequestData::SignPeerVote { vertex_bytes, digest } => {
                    let n = vertex_bytes.len() as int;
                    &&& s.len() == 37 + n && s[0] == 2
                    &&& number_at(s, 1, 4) == n
                    &&& s.subrange(5, 5 + n) == vertex_bytes
                    &&& s.subrange(5 + n, 37 + n) == digest@
                },
                RequestData::SignNetworkHandshake { transcript } => {
                    let n = transcript.len() as int;
                    &&& s.len() == 5 + n && s[0] == 3
                    &&& number_at(s, 1, 4) == n
                    &&& s.skip(5) == transcript
                },
                RequestData::SignCheckpoint { chain_id, round, merkle_root } => {
                    &&& s.len() == 73 && s[0] == 4
                    &&& s.subrange(1, 33) == chain_id@
                    &&& number_at(s, 33, 8) == round
                    &&& s.subrange(41, 73) == merkle_root@
                },
                RequestData::SignNetworkKeyCert { chain_id, validator_id, network_addr } => {
                    &&& s.len() == 97 && s[0] == 5
                    &&& s.subrange(1, 33) == chain_id@
                    &&& s.subrange(33, 65) == validator_id@
                    &&& s.subrange(65, 97) == network_addr@
                },
            }
        }),
{
    let s = request_bytes(r);
    match r {
        RequestData::GetBundle => {},
        RequestData::SignOwnVote { round, digest } => {
            lemma_le_bytes_len(round as nat, 8);
            assert(s.subrange(1, 9) =~= le_bytes(round as nat, 8));
            lemma_number(s, 1, round as nat, 8);
            assert(s.subrange(9, 41) =~= digest@);
        },
        RequestData::SignPeerVote { vertex_bytes, digest } => {
            let n = vertex_bytes.len() as int;
            lemma_le_bytes_len(n as nat, 4);
            assert(s.subrange(1, 5) =~= le_bytes(n as nat, 4));
            lemma_number(s, 1, n as nat, 4);
            assert(s.subrange(5, 5 + n) =~= vertex_bytes);
            assert(s.subrange(5 + n, 37 + n) =~= digest@);
        },
        RequestData::SignNetworkHandshake { transcript } => {
            let n = transcript.len() as int;
            lemma_le_bytes_len(n as nat, 4);
            assert(s.subrange(1, 5) =~= le_bytes(n as nat, 4));
            lemma_number(s, 1, n as nat, 4);
            assert(s.skip(5) =~= transcript);
        },
        RequestData::SignCheckpoint { chain_id, round, merkle_root } => {
            lemma_le_bytes_len(round as nat, 8);
            assert(s.subrange(1, 33) =~= chain_id@);
            assert(s.subrange(33, 41) =~= le_bytes(round as nat, 8));
            lemma_number(s, 33, round as nat, 8);
            assert(s.subrange(41, 73) =~= merkle_root@);
        },
        RequestData::SignNetworkKeyCert { chain_id, validator_id, network_addr } => {
            assert(s.subrange(1, 33) =~= chain_id@);
            assert(s.subrange(33, 65) =~= validator_id@);
            assert(s.subrange(65, 97) =~= network_addr@);
        },
    }
}

/// What a signer answers, byte by byte.
pub proof fn law_answers_are_laid_out(r: ResponseData)
    requires
        response_fits(r),
    ensures
        ({
            let s = crate::signer_codec::response_bytes(r);
            match r {
                ResponseData::Bundle { ed25519, mldsa } => {
                    &&& s.len() == 37 + mldsa.len() && s[0] == 0
                    &&& s.subrange(1, 33) == ed25519@
                    &&& number_at(s, 33, 4) == mldsa.len()
                    &&& s.skip(37) == mldsa
                },
                ResponseData::Signature { ed25519_half, mldsa } => {
                    &&& s.len() == 69 + mldsa.len() && s[0] == 1
                    &&& s.subrange(1, 65) == ed25519_half@
                    &&& number_at(s, 65, 4) == mldsa.len()
                    &&& s.skip(69) == mldsa
                },
                ResponseData::Refused { text } => {
                    &&& s.len() == 5 + encode_utf8(text).len() && s[0] == 2
                    &&& number_at(s, 1, 4) == encode_utf8(text).len()
                    &&& s.skip(5) == encode_utf8(text)
                },
            }
        }),
{
    let s = crate::signer_codec::response_bytes(r);
    match r {
        ResponseData::Bundle { ed25519, mldsa } => {
            lemma_le_bytes_len(mldsa.len(), 4);
            assert(s.subrange(1, 33) =~= ed25519@);
            assert(s.subrange(33, 37) =~= le_bytes(mldsa.len(), 4));
            lemma_number(s, 33, mldsa.len(), 4);
            assert(s.skip(37) =~= mldsa);
        },
        ResponseData::Signature { ed25519_half, mldsa } => {
            lemma_le_bytes_len(mldsa.len(), 4);
            assert(s.subrange(1, 65) =~= ed25519_half@);
            assert(s.subrange(65, 69) =~= le_bytes(mldsa.len(), 4));
            lemma_number(s, 65, mldsa.len(), 4);
            assert(s.skip(69) =~= mldsa);
        },
        ResponseData::Refused { text } => {
            let n = encode_utf8(text).len();
            lemma_le_bytes_len(n, 4);
            assert(s.subrange(1, 5) =~= le_bytes(n, 4));
            lemma_number(s, 1, n, 4);
            assert(s.skip(5) =~= encode_utf8(text));
        },
    }
}

/// What a signer remembers, byte by byte: the round and the digest of its last own vertex, and
/// the round and the root of its last checkpoint with a one where there was any. A one at the end
/// stands for an own vertex that these do not show.
pub proof fn law_memories_are_laid_out(s: GuardState)
    ensures
        ({
            let b = guard_bytes(s);
            let unseen = s.own_seen && s.last_own_round == 0 && forall|i: int|
                0 <= i < 32 ==> #[trigger] s.last_own_digest@[i] == 0;
            &&& b.len() == if unseen {
                82int
            } else {
                81
            }
            &&& unseen ==> b[81] == 1
            &&& number_at(b, 0, 8) == s.last_own_round
            &&& b.subrange(8, 40) == s.last_own_digest@
            &&& number_at(b, 40, 8) == s.last_checkpoint_round
            &&& b.subrange(48, 80) == s.last_checkpoint_root@
            &&& b[80] == if s.checkpoint_seen {
                1u8
            } else {
                0u8
            }
            &&& old_guard_bytes(s) == b.take(40)
        }),
{
    let b = guard_bytes(s);
    lemma_le_bytes_len(s.last_own_round as nat, 8);
    lemma_le_bytes_len(s.last_checkpoint_round as nat, 8);
    assert(b.subrange(0, 8) =~= le_bytes(s.last_own_round as nat, 8));
    lemma_number(b, 0, s.last_own_round as nat, 8);
    assert(b.subrange(8, 40) =~= s.last_own_digest@);
    assert(b.subrange(40, 48) =~= le_bytes(s.last_checkpoint_round as nat, 8));
    lemma_number(b, 40, s.last_checkpoint_round as nat, 8);
    assert(b.subrange(48, 80) =~= s.last_checkpoint_root@);
    assert(old_guard_bytes(s) =~= b.take(40));
    if forall|i: int| 0 <= i < 32 ==> #[trigger] s.last_own_digest@[i] == 0 {
        assert(s.last_own_digest =~= filled(0));
    }
    assert(own_recorded(s) <==> s.last_own_round != 0 || !(forall|i: int|
        0 <= i < 32 ==> #[trigger] s.last_own_digest@[i] == 0));
}

/// The greeting of a signer: the version of the protocol, one where it wants to know who dials,
/// and its nonce; and the answer: the other nonce and the tag.
pub proof fn law_greetings_are_laid_out(c: AuthChallenge, r: AuthResponse)
    ensures
        ({
            let s = challenge_bytes(c);
            &&& s.len() == 34
            &&& s[0] == c.proto_version
            &&& s[1] == if c.auth_required {
                1u8
            } else {
                0u8
            }
            &&& s.skip(2) == c.nonce@
        }),
        ({
            let s = crate::signer_handshake::response_bytes(r);
            &&& s.len() == 64
            &&& s.take(32) == r.client_nonce@
            &&& s.skip(32) == r.tag@
        }),
        PROTO_VERSION == 5,
{
    assert(challenge_bytes(c).skip(2) =~= c.nonce@);
    let s = crate::signer_handshake::response_bytes(r);
    assert(s.take(32) =~= r.client_nonce@);
    assert(s.skip(32) =~= r.tag@);
}

/// What a tag and a session key are taken over: what they are for, in words, the length of the
/// token in eight bytes, the token, the nonce of the signer and that of the dialler.
pub proof fn law_tokens_are_hashed_with_both_nonces(
    domain: Seq<char>,
    token: Seq<u8>,
    server_nonce: [u8; 32],
    client_nonce: [u8; 32],
)
    requires
        token.len() <= u64::MAX,
    ensures
        ({
            let s = keyed_input(domain, token, server_nonce, client_nonce);
            let d = encode_utf8(domain).len() as int;
            let n = token.len() as int;
            &&& s.len() == d + 72 + n
            &&& s.take(d) == encode_utf8(domain)
            &&& number_at(s, d, 8) == n
            &&& s.subrange(d + 8, d + 8 + n) == token
            &&& s.subrange(d + 8 + n, d + 40 + n) == server_nonce@
            &&& s.subrange(d + 40 + n, d + 72 + n) == client_nonce@
        }),
        RS_AUTH_DOMAIN@ == "qchain-remote-signer-auth-v1"@,
        RS_SESSION_DOMAIN@ == "qchain-remote-signer-session-v1"@,
{
    let s = keyed_input(domain, token, server_nonce, client_nonce);
    let d = encode_utf8(domain).len() as int;
    let n = token.len() as int;
    lemma_le_bytes_len(n as nat, 8);
    assert(s.take(d) =~= encode_utf8(domain));
    assert(s.subrange(d, d + 8) =~= le_bytes(n as nat, 8));
    lemma_number(s, d, n as nat, 8);
    assert(s.subrange(d + 8, d + 8 + n) =~= token);
    assert(s.subrange(d + 8 + n, d + 40 + n) =~= server_nonce@);
    assert(s.subrange(d + 40 + n, d + 72 + n) =~= client_nonce@);
}

/// What the authenticator of a frame is taken over: the key, the direction, the number of the
/// frame in eight bytes, the length of the payload in eight, and the payload.
pub proof fn law_frames_are_authenticated(key: [u8; 32], dir: u8, seq: u64, payload: Seq<u8>)
    requires
        payload.len() <= u64::MAX,
    ensures
        ({
            let s = mac_input(key, dir, seq, payload);
            &&& s.len() == 49 + payload.len()
            &&& s.take(32) == key@
            &&& s[32] == dir
            &&& number_at(s, 33, 8) == seq
            &&& number_at(s, 41, 8) == payload.len()
            &&& s.skip(49) == payload
            &&& mac_of(key, dir, seq, payload) == sha3_256(s)
        }),
        DIR_C2S == 0,
        DIR_S2C == 1,
        MAX_FRAME_BYTES == 1_048_576,
{
    let s = mac_input(key, dir, seq, payload);
    lemma_le_bytes_len(seq as nat, 8);
    lemma_le_bytes_len(payload.len(), 8);
    assert(s.take(32) =~= key@);
    assert(s.subrange(33, 41) =~= le_bytes(seq as nat, 8));
    lemma_number(s, 33, seq as nat, 8);
    assert(s.subrange(41, 49) =~= le_bytes(payload.len(), 8));
    lemma_number(s, 41, payload.len(), 8);
    assert(s.skip(49) =~= payload);
}

/// Of two addresses the one comes first that has the smaller byte where they first part.
pub proof fn law_addresses_are_ordered(a: [u8; 32], b: [u8; 32], i: int)
    requires
        0 <= i < 32,
        forall|j: int| 0 <= j < i ==> #[trigger] a@[j] == b@[j],
    ensures
        a@[i] < b@[i] ==> key_lt(a, b) && !key_lt(b, a),
        a@[i] > b@[i] ==> key_lt(b, a) && !key_lt(a, b),
{
    assert forall|j: int| 0 <= j < i implies a[j] == b[j] by {
        assert(a@[j] == b@[j]);
    }
    if a@[i] < b@[i] {
        assert(differ_first_at(a, b, i));
        lemma_key_lt_asymmetric(a, b);
    }
    if a@[i] > b@[i] {
        assert(differ_first_at(b, a, i));
        lemma_key_lt_asymmetric(b, a);
    }
}

/// What is wrong with bytes that are no vertex: they end too early where the two counts in them
/// ask for more, and else there are too many.
pub proof fn law_malformed_vertices(s: Seq<u8>)
    ensures
        ({
            let b = number_at(s, 40, 4) as int;
            let p = number_at(s, 44 + 36 * b, 4) as int;
            let short = s.len() < 44 || s.len() < 48 + 36 * b || s.len() < 48 + 36 * b + 32 * p;
            &&& short ==> vertex_fault(s) == DecodeError::UnexpectedLength
            &&& !short ==> vertex_fault(s) == DecodeError::NotAllBytesRead
        }),
{
}

/// Bytes are a vertex exactly where they are those of one, and stand for that one alone.
pub proof fn law_bytes_stand_for_vertices(v: VertexData)
    requires
        vertex_fits(v),
    ensures
        is_vertex(vertex_bytes(v)),
        vertex_of(vertex_bytes(v)) == v,
{
    law_vertex_round_trip(v, vertex_of(vertex_bytes(v)));
}

/// The bytes of a key pair: the secret of the first key and its public half, and the secret of
/// the second.
pub proof fn law_key_pairs_are_laid_out(keypair: Keypair)
    ensures
        ({
            let s = keypair.encoded();
            &&& s.len() == 64 + keypair.mldsa_secret().len()
            &&& s.take(32) == keypair.ed25519_secret()@
            &&& s.subrange(32, 64) == ed25519_public(keypair.ed25519_secret())@
            &&& s.skip(64) == keypair.mldsa_secret()
        }),
{
    let s = keypair.encoded();
    assert(s.take(32) =~= keypair.ed25519_secret()@);
    assert(s.subrange(32, 64) =~= ed25519_public(keypair.ed25519_secret())@);
    assert(s.skip(64) =~= keypair.mldsa_secret());
}

/// How bytes that are no key pair, and texts that are no address, are told.
pub proof fn law_key_faults_are_told(n: u64, reason: String)
    ensures
        KeypairError::WrongLength(n).said() == "invalid keypair: expected 4096 bytes, got "@
            + decimal(n as nat),
        KeypairError::InvalidEd25519(reason).said() == "invalid ed25519 keypair bytes: "@ + reason@,
        KeypairError::InvalidMlDsa(reason).said() == "invalid ML-DSA-65 secret key: "@ + reason@,
        PubkeyError::NotBase58(reason).said() == reason@,
        PubkeyError::WrongLength(n).said() == "invalid pubkey: expected 32 bytes, got "@ + decimal(
            n as nat,
        ),
{
}

/// What the parts of a message, a vertex and a certificate are to those who read them.
pub proof fn law_parts_are_shown(t: Message, i: Instruction, v: Vertex, c: Certificate, k: int)
    ensures
        i@.program_id == i.program_id && i@.accounts == i.accounts@ && i@.data == i.data@,
        t@.payer == t.payer && t@.ed25519 == t.payer_keys.ed25519 && t@.mldsa == t.payer_keys.mldsa@
            && t@.recent_blockhash == t.recent_blockhash,
        t@.instructions.len() == t.instructions@.len(),
        0 <= k < t.instructions@.len() ==> t@.instructions[k] == t.instructions@[k]@,
        v@.round == v.round && v@.author == v.author && v@.batch_digests == v.batch_digests@
            && v@.parents == v.parents@,
        c@.vertex == c.vertex@ && c@.signatures.len() == c.signatures@.len(),
        0 <= k < c.signatures@.len() ==> c@.signatures[k].0 == c.signatures@[k].0
            && c@.signatures[k].1.ed25519 == c.signatures@[k].1.ed25519.0
            && c@.signatures[k].1.mldsa == c.signatures@[k].1.mldsa@,
{
}

/// What the parts of an account are to those who read it.
pub proof fn law_accounts_are_shown(a: Account, s: StateAccount)
    ensures
        a@.balance == a.balance && a@.owner == a.owner && a@.data == a.data@ && a@.executable
            == a.executable,
        s@.balance == s.balance && s@.nonce == s.nonce && s@.algorithm_id == s.algorithm_id
            && s@.owner == s.owner && s@.code_hash == s.code_hash && s@.data == s.data@,
{
}

/// A list of entries holds, under each key, what was last entered there.
pub proof fn law_entries_are_held<V>(
    s: Seq<([u8; 32], V)>,
    key: [u8; 32],
    value: V,
    t: Seq<(u64, Pubkey, V)>,
    round: u64,
    author: Pubkey,
)
    ensures
        entries_map(Seq::<([u8; 32], V)>::empty()) == Map::<[u8; 32], V>::empty(),
        entries_map(s.push((key, value))) == entries_map(s).insert(key, value),
        rounds_map(Seq::<(u64, Pubkey, V)>::empty()) == Map::<(u64, Pubkey), V>::empty(),
        rounds_map(t.push((round, author, value))) == rounds_map(t).insert((round, author), value),
{
    assert(s.push((key, value)).drop_last() =~= s);
    assert(t.push((round, author, value)).drop_last() =~= t);
}

/// What can be written down: whatever has no more parts, of any one kind, than four bytes can
/// count.
pub proof fn law_what_can_be_written(
    m: MessageData,
    i: InstructionData,
    v: VertexData,
    a: StateAccountData,
    r: RequestData,
)
    ensures
        instruction_fits(i) <==> i.accounts.len() < 0x1_0000_0000 && i.data.len() < 0x1_0000_0000,
        message_fits(m) <==> m.mldsa.len() < 0x1_0000_0000 && m.instructions.len() < 0x1_0000_0000
            && forall|k: int|
            0 <= k < m.instructions.len() ==> instruction_fits(#[trigger] m.instructions[k]),
        vertex_fits(v) <==> v.batch_digests.len() < 0x1_0000_0000 && v.parents.len()
            < 0x1_0000_0000,
        encodable(a) <==> a.data.len() < 0x1_0000_0000,
        match r {
            RequestData::SignPeerVote { vertex_bytes, digest } => request_fits(r)
                <==> vertex_bytes.len() < 0x1_0000_0000,
            RequestData::SignNetworkHandshake { transcript } => request_fits(r) <==> transcript.len()
                < 0x1_0000_0000,
            _ => request_fits(r),
        },
{
}

/// What a signer can answer in bytes.
pub proof fn law_what_can_be_answered(r: ResponseData)
    ensures
        match r {
            ResponseData::Bundle { ed25519, mldsa } => response_fits(r) <==> mldsa.len()
                < 0x1_0000_0000,
            ResponseData::Signature { ed25519_half, mldsa } => response_fits(r) <==> mldsa.len()
                < 0x1_0000_0000,
            ResponseData::Refused { text } => response_fits(r) <==> encode_utf8(text).len()
                < 0x1_0000_0000,
        },
{
}

/// Bytes are a pair of the first kind of key where the second half is the public key of the first.
pub proof fn law_pairs_of_the_first_key(secret: [u8; 32], public: [u8; 32])
    ensures
        is_ed25519_pair(secret@ + public@) <==> public == ed25519_public(secret),
{
    let s = secret@ + public@;
    assert(s.subrange(0, 32) =~= secret@);
    assert(s.subrange(32, 64) =~= public@);
    if is_ed25519_pair(s) {
        let t = choose|t: [u8; 32]|
            t@ == s.subrange(0, 32) && #[trigger] ed25519_public(t)@ == s.subrange(32, 64);
        assert(t =~= secret);
        assert(ed25519_public(t) =~= public);
    }
    if public == ed25519_public(secret) {
        assert(ed25519_public(secret)@ == s.subrange(32, 64));
    }
}

/// A transaction that cannot be written down is not good, and its id covers its signatures alone.
pub proof fn law_unwritable_transactions_are_not_good(t: Transaction)
    requires
        !message_fits(t.message@),
    ensures
        !transaction_good(t),
        transaction_id(t) == sha256(t.signature.ed25519.0@ + t.signature.mldsa@),
{
    assert(Seq::<u8>::empty() + t.signature.ed25519.0@ =~= t.signature.ed25519.0@);
}

} // verus!
