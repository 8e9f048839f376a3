//! Vertices of the graph that validators build, and their bytes.
use crate::codec::{
    array_at, borsh_write_u32, borsh_write_u64, le_bytes, le_decode, le_value, lemma_le_bytes_len,
    lemma_le_injective, lemma_le_round_trip, lemma_le_value_round_trip, lemma_pow256,
};
use crate::decode::DecodeError;
use crate::hash::{collide, copy_digests, sha3_256, sha3_256_digest};
use crate::pubkey::Pubkey;
use vstd::prelude::*;

verus! {

/// What a validator proposes in a round.
#[derive(Debug)]
pub struct Vertex {
    pub round: u64,
    pub author: Pubkey,
    /// The batches that the vertex stands for, each with the worker that has it.
    pub batch_digests: Vec<(u32, [u8; 32])>,
    /// The vertices of the round before that the author knows to be certified.
    pub parents: Vec<[u8; 32]>,
}

/// What a vertex says.
#[verifier::ext_equal]
pub ghost struct VertexData {
    pub round: u64,
    pub author: Pubkey,
    pub batch_digests: Seq<(u32, [u8; 32])>,
    pub parents: Seq<[u8; 32]>,
}

impl View for Vertex {
    type V = VertexData;

    open spec fn view(&self) -> VertexData {
        VertexData {
            round: self.round,
            author: self.author,
            batch_digests: self.batch_digests@,
            parents: self.parents@,
        }
    }
}

impl Clone for Vertex {
    fn clone(&self) -> (copy: Self)
        ensures
            copy@ == self@,
    {
        let mut batch_digests: Vec<(u32, [u8; 32])> = Vec::with_capacity(self.batch_digests.len());
        let mut i: usize = 0;
        while i < self.batch_digests.len()
            invariant
                i <= self.batch_digests@.len(),
                batch_digests@ == self.batch_digests@.take(i as int),
            decreases self.batch_digests@.len() - i,
        {
            batch_digests.push(self.batch_digests[i]);
            proof {
                assert(batch_digests@ =~= self.batch_digests@.take(i + 1));
            }
            i += 1;
        }
        proof {
            assert(batch_digests@ =~= self.batch_digests@);
        }
        Vertex {
            round: self.round,
            author: self.author,
            batch_digests,
            parents: copy_digests(&self.parents),
        }
    }
}

/// The batches one behind the other.
pub open spec fn batch_list_bytes(s: Seq<(u32, [u8; 32])>) -> Seq<u8>
    decreases s.len(),
{
    if s.len() == 0 {
        Seq::empty()
    } else {
        batch_list_bytes(s.drop_last()) + le_bytes(s.last().0 as nat, 4) + s.last().1@
    }
}

/// The digests one behind the other.
pub open spec fn digest_list_bytes(s: Seq<[u8; 32]>) -> Seq<u8>
    decreases s.len(),
{
    if s.len() == 0 {
        Seq::empty()
    } else {
        digest_list_bytes(s.drop_last()) + s.last()@
    }
}

/// The bytes of a vertex.
pub open spec fn vertex_bytes(v: VertexData) -> Seq<u8> {
    le_bytes(v.round as nat, 8) + v.author.0@ + le_bytes(v.batch_digests.len(), 4)
        + batch_list_bytes(v.batch_digests) + le_bytes(v.parents.len(), 4) + digest_list_bytes(
        v.parents,
    )
}

/// The lengths in a vertex fit the four bytes in which they are written.
pub open spec fn vertex_fits(v: VertexData) -> bool {
    v.batch_digests.len() <= u32::MAX && v.parents.len() <= u32::MAX
}

/// The digest by which a vertex is known.
pub open spec fn vertex_digest(v: VertexData) -> [u8; 32] {
    sha3_256(vertex_bytes(v))
}

/// `bytes` are those of a vertex.
pub open spec fn is_vertex(bytes: Seq<u8>) -> bool {
    exists|v: VertexData| vertex_fits(v) && #[trigger] vertex_bytes(v) == bytes
}

/// The vertex whose bytes these are.
pub open spec fn vertex_of(bytes: Seq<u8>) -> VertexData {
    choose|v: VertexData| vertex_fits(v) && #[trigger] vertex_bytes(v) == bytes
}

proof fn lemma_batch_list_len(s: Seq<(u32, [u8; 32])>)
    ensures
        batch_list_bytes(s).len() == 36 * s.len(),
    decreases s.len(),
{
    if s.len() > 0 {
        lemma_batch_list_len(s.drop_last());
        lemma_le_bytes_len(s.last().0 as nat, 4);
    }
}

proof fn lemma_digest_list_len(s: Seq<[u8; 32]>)
    ensures
        digest_list_bytes(s).len() == 32 * s.len(),
    decreases s.len(),
{
    if s.len() > 0 {
        lemma_digest_list_len(s.drop_last());
    }
}

proof fn lemma_batch_list_injective(a: Seq<(u32, [u8; 32])>, b: Seq<(u32, [u8; 32])>)
    requires
        a.len() == b.len(),
        batch_list_bytes(a) == batch_list_bytes(b),
    ensures
        a == b,
    decreases a.len(),
{
    if a.len() > 0 {
        let x = batch_list_bytes(a);
        let y = batch_list_bytes(b);
        lemma_batch_list_len(a.drop_last());
        lemma_batch_list_len(b.drop_last());
        lemma_le_bytes_len(a.last().0 as nat, 4);
        lemma_le_bytes_len(b.last().0 as nat, 4);
        lemma_pow256();
        let n = 36 * (a.len() - 1);
        assert(x.take(n) =~= batch_list_bytes(a.drop_last()));
        assert(y.take(n) =~= batch_list_bytes(b.drop_last()));
        lemma_batch_list_injective(a.drop_last(), b.drop_last());
        assert(x.subrange(n, n + 4) =~= le_bytes(a.last().0 as nat, 4));
        assert(y.subrange(n, n + 4) =~= le_bytes(b.last().0 as nat, 4));
        lemma_le_injective(a.last().0 as nat, b.last().0 as nat, 4);
        assert(x.skip(n + 4) =~= a.last().1@);
        assert(y.skip(n + 4) =~= b.last().1@);
        assert(a.last().1 =~= b.last().1);
        assert(a =~= a.drop_last().push(a.last()));
        assert(b =~= b.drop_last().push(b.last()));
    } else {
        assert(a =~= b);
    }
}

proof fn lemma_digest_list_injective(a: Seq<[u8; 32]>, b: Seq<[u8; 32]>)
    requires
        a.len() == b.len(),
        digest_list_bytes(a) == digest_list_bytes(b),
    ensures
        a == b,
    decreases a.len(),
{
    if a.len() > 0 {
        let x = digest_list_bytes(a);
        let y = digest_list_bytes(b);
        lemma_digest_list_len(a.drop_last());
        lemma_digest_list_len(b.drop_last());
        let n = 32 * (a.len() - 1);
        assert(x.take(n) =~= digest_list_bytes(a.drop_last()));
        assert(y.take(n) =~= digest_list_bytes(b.drop_last()));
        lemma_digest_list_injective(a.drop_last(), b.drop_last());
        assert(x.skip(n) =~= a.last()@);
        assert(y.skip(n) =~= b.last()@);
        assert(a.last() =~= b.last());
        assert(a =~= a.drop_last().push(a.last()));
        assert(b =~= b.drop_last().push(b.last()));
    } else {
        assert(a =~= b);
    }
}

/// The bytes end before their two lists do.
pub open spec fn is_cut_short(s: Seq<u8>) -> bool {
    let b = le_value(s.subrange(40, 44)) as int;
    let p = le_value(s.subrange(44 + 36 * b, 48 + 36 * b)) as int;
    s.len() < 44 || s.len() < 48 + 36 * b || s.len() < 48 + 36 * b + 32 * p
}

/// What is wrong with bytes that are not those of a vertex.
pub open spec fn vertex_fault(s: Seq<u8>) -> DecodeError {
    if is_cut_short(s) {
        DecodeError::UnexpectedLength
    } else {
        DecodeError::NotAllBytesRead
    }
}

/// The bytes are as many as their two lists say.
spec fn has_vertex_shape(s: Seq<u8>) -> bool {
    let b = le_value(s.subrange(40, 44)) as int;
    let p = le_value(s.subrange(44 + 36 * b, 48 + 36 * b)) as int;
    &&& s.len() >= 44
    &&& s.len() >= 48 + 36 * b
    &&& s.len() == 48 + 36 * b + 32 * p
}

proof fn lemma_vertex_parts(v: VertexData)
    requires
        vertex_fits(v),
    ensures
        has_vertex_shape(vertex_bytes(v)),
        ({
            let s = vertex_bytes(v);
            let b = v.batch_digests.len() as int;
            &&& s.len() == 48 + 36 * b + 32 * v.parents.len()
            &&& s.subrange(0, 8) == le_bytes(v.round as nat, 8)
            &&& s.subrange(8, 40) == v.author.0@
            &&& s.subrange(40, 44) == le_bytes(b as nat, 4)
            &&& s.subrange(44, 44 + 36 * b) == batch_list_bytes(v.batch_digests)
            &&& s.subrange(44 + 36 * b, 48 + 36 * b) == le_bytes(v.parents.len(), 4)
            &&& s.skip(48 + 36 * b) == digest_list_bytes(v.parents)
        }),
{
    let s = vertex_bytes(v);
    let b = v.batch_digests.len() as int;
    lemma_le_bytes_len(v.round as nat, 8);
    lemma_le_bytes_len(v.batch_digests.len(), 4);
    lemma_le_bytes_len(v.parents.len(), 4);
    lemma_batch_list_len(v.batch_digests);
    lemma_digest_list_len(v.parents);
    lemma_pow256();
    lemma_le_round_trip(v.batch_digests.len(), 4);
    lemma_le_round_trip(v.parents.len(), 4);
    assert(s.subrange(0, 8) =~= le_bytes(v.round as nat, 8));
    assert(s.subrange(8, 40) =~= v.author.0@);
    assert(s.subrange(40, 44) =~= le_bytes(b as nat, 4));
    assert(s.subrange(44, 44 + 36 * b) =~= batch_list_bytes(v.batch_digests));
    assert(s.subrange(44 + 36 * b, 48 + 36 * b) =~= le_bytes(v.parents.len(), 4));
    assert(s.skip(48 + 36 * b) =~= digest_list_bytes(v.parents));
}

/// Two vertices with the same bytes are the same.
pub proof fn law_vertex_round_trip(a: VertexData, b: VertexData)
    requires
        vertex_fits(a),
        vertex_fits(b),
        vertex_bytes(a) == vertex_bytes(b),
    ensures
        a == b,
{
    lemma_vertex_parts(a);
    lemma_vertex_parts(b);
    lemma_pow256();
    lemma_le_injective(a.round as nat, b.round as nat, 8);
    lemma_le_injective(a.batch_digests.len(), b.batch_digests.len(), 4);
    lemma_le_injective(a.parents.len(), b.parents.len(), 4);
    assert(a.author.0 =~= b.author.0);
    lemma_batch_list_injective(a.batch_digests, b.batch_digests);
    lemma_digest_list_injective(a.parents, b.parents);
}

/// A digest stands for one vertex, unless the bytes of two vertices collide.
pub proof fn law_digest_names_one_vertex(a: VertexData, b: VertexData)
    requires
        vertex_fits(a),
        vertex_fits(b),
        vertex_digest(a) == vertex_digest(b),
    ensures
        a == b || collide(vertex_bytes(a), vertex_bytes(b)),
{
    if vertex_bytes(a) == vertex_bytes(b) {
        law_vertex_round_trip(a, b);
    }
}

fn u32_at(bytes: &[u8], at: usize) -> (n: u32)
    requires
        at + 4 <= bytes@.len(),
    ensures
        n == le_value(bytes@.subrange(at as int, at + 4)),
        le_bytes(n as nat, 4) == bytes@.subrange(at as int, at + 4),
{
    let len: usize = bytes.len();
    proof {
        assert(at + 4 <= len);
    }
    let part = vstd::slice::slice_subrange(bytes, at, at + 4);
    proof {
        lemma_le_value_round_trip(part@);
        lemma_pow256();
    }
    le_decode(part) as u32
}

fn batches_at(bytes: &[u8], at: usize, count: usize) -> (batches: Vec<(u32, [u8; 32])>)
    requires
        at + 36 * count <= bytes@.len(),
    ensures
        batches@.len() == count,
        batch_list_bytes(batches@) == bytes@.subrange(at as int, at + 36 * count),
{
    let len: usize = bytes.len();
    let mut out: Vec<(u32, [u8; 32])> = Vec::new();
    let mut i: usize = 0;
    proof {
        assert(bytes@.subrange(at as int, at as int) =~= Seq::<u8>::empty());
    }
    while i < count
        invariant
            i <= count,
            len == bytes@.len(),
            at + 36 * count <= len,
            out@.len() == i,
            batch_list_bytes(out@) == bytes@.subrange(at as int, at + 36 * i),
        decreases count - i,
    {
        let from: usize = at + 36 * i;
        let worker: u32 = u32_at(bytes, from);
        let digest: [u8; 32] = array_at(bytes, from + 4);
        let ghost before = out@;
        out.push((worker, digest));
        proof {
            assert(out@.drop_last() =~= before);
            assert(batch_list_bytes(out@) =~= bytes@.subrange(at as int, at + 36 * (i + 1)));
        }
        i += 1;
    }
    out
}

fn digests_at(bytes: &[u8], at: usize, count: usize) -> (digests: Vec<[u8; 32]>)
    requires
        at + 32 * count <= bytes@.len(),
    ensures
        digests@.len() == count,
        digest_list_bytes(digests@) == bytes@.subrange(at as int, at + 32 * count),
{
    let len: usize = bytes.len();
    let mut out: Vec<[u8; 32]> = Vec::new();
    let mut i: usize = 0;
    proof {
        assert(bytes@.subrange(at as int, at as int) =~= Seq::<u8>::empty());
    }
    while i < count
        invariant
            i <= count,
            len == bytes@.len(),
            at + 32 * count <= len,
            out@.len() == i,
            digest_list_bytes(out@) == bytes@.subrange(at as int, at + 32 * i),
        decreases count - i,
    {
        let from: usize = at + 32 * i;
        let digest: [u8; 32] = array_at(bytes, from);
        let ghost before = out@;
        out.push(digest);
        proof {
            assert(out@.drop_last() =~= before);
            assert(digest_list_bytes(out@) =~= bytes@.subrange(at as int, at + 32 * (i + 1)));
        }
        i += 1;
    }
    out
}

impl Vertex {
    /// The bytes of the vertex, or none where a length does not fit.
    pub fn encode(&self) -> (bytes: Option<Vec<u8>>)
        ensures
            match bytes {
                Some(b) => vertex_fits(self@) && b@ == vertex_bytes(self@),
                None => !vertex_fits(self@),
            },
    {
        if self.batch_digests.len() > u32::MAX as usize || self.parents.len() > u32::MAX as usize {
            return None;
        }
        let mut out: Vec<u8> = borsh_write_u64(self.round);
        out.extend_from_slice(self.author.0.as_slice());
        let mut batches: Vec<u8> = borsh_write_u32(self.batch_digests.len() as u32);
        out.append(&mut batches);
        let ghost head = out@;
        proof {
            assert(head =~= le_bytes(self.round as nat, 8) + self.author.0@ + le_bytes(
                self.batch_digests@.len(),
                4,
            ));
            assert(out@ =~= head + batch_list_bytes(self.batch_digests@.take(0)));
        }
        let mut i: usize = 0;
        while i < self.batch_digests.len()
            invariant
                i <= self.batch_digests@.len(),
                out@ == head + batch_list_bytes(self.batch_digests@.take(i as int)),
            decreases self.batch_digests@.len() - i,
        {
            let mut worker: Vec<u8> = borsh_write_u32(self.batch_digests[i].0);
            out.append(&mut worker);
            out.extend_from_slice(self.batch_digests[i].1.as_slice());
            proof {
                let t = self.batch_digests@.take(i + 1);
                assert(t.drop_last() =~= self.batch_digests@.take(i as int));
                assert(out@ =~= head + batch_list_bytes(t));
            }
            i += 1;
        }
        let mut parents: Vec<u8> = borsh_write_u32(self.parents.len() as u32);
        out.append(&mut parents);
        let ghost middle = out@;
        proof {
            assert(self.batch_digests@.take(i as int) =~= self.batch_digests@);
            assert(out@ =~= middle + digest_list_bytes(self.parents@.take(0)));
        }
        let mut j: usize = 0;
        while j < self.parents.len()
            invariant
                j <= self.parents@.len(),
                out@ == middle + digest_list_bytes(self.parents@.take(j as int)),
            decreases self.parents@.len() - j,
        {
            out.extend_from_slice(self.parents[j].as_slice());
            proof {
                let t = self.parents@.take(j + 1);
                assert(t.drop_last() =~= self.parents@.take(j as int));
                assert(out@ =~= middle + digest_list_bytes(t));
            }
            j += 1;
        }
        proof {
            assert(self.parents@.take(j as int) =~= self.parents@);
            assert(out@ =~= vertex_bytes(self@));
        }
        Some(out)
    }

    /// The vertex that `bytes` stand for, all of them.
    pub fn decode(bytes: &[u8]) -> (vertex: Result<Self, DecodeError>)
        ensures
            match vertex {
                Ok(v) => is_vertex(bytes@) && vertex_fits(v@) && bytes@ == vertex_bytes(v@) && v@
                    == vertex_of(bytes@),
                Err(e) => !is_vertex(bytes@) && e == vertex_fault(bytes@),
            },
    {
        let vertex = Self::decode_parts(bytes);
        proof {
            if vertex is Ok {
                assert(is_vertex(bytes@));
                law_vertex_round_trip(vertex->Ok_0@, vertex_of(bytes@));
            } else {
                assert forall|v: VertexData| vertex_fits(v) implies #[trigger] vertex_bytes(v)
                    != bytes@ by {
                    lemma_vertex_parts(v);
                }
            }
        }
        vertex
    }

    fn decode_parts(bytes: &[u8]) -> (vertex: Result<Self, DecodeError>)
        ensures
            match vertex {
                Ok(v) => vertex_fits(v@) && bytes@ == vertex_bytes(v@),
                Err(e) => !has_vertex_shape(bytes@) && e == vertex_fault(bytes@),
            },
    {
        let len: usize = bytes.len();
        if len < 44 {
            return Err(DecodeError::UnexpectedLength);
        }
        let batches: u32 = u32_at(bytes, 40);
        if (len as u64) < 48 + 36 * (batches as u64) {
            return Err(DecodeError::UnexpectedLength);
        }
        let after: usize = 44 + 36 * (batches as usize);
        let parents: u32 = u32_at(bytes, after);
        let whole: u64 = 48 + 36 * (batches as u64) + 32 * (parents as u64);
        if (len as u64) < whole {
            return Err(DecodeError::UnexpectedLength);
        }
        if len as u64 > whole {
            return Err(DecodeError::NotAllBytesRead);
        }
        let first = vstd::slice::slice_subrange(bytes, 0, 8);
        proof {
            lemma_le_value_round_trip(first@);
        }
        let v = Vertex {
            round: le_decode(first),
            author: Pubkey(array_at(bytes, 8)),
            batch_digests: batches_at(bytes, 44, batches as usize),
            parents: digests_at(bytes, after + 4, parents as usize),
        };
        proof {
            lemma_batch_list_len(v@.batch_digests);
            lemma_digest_list_len(v@.parents);
            assert(bytes@ =~= vertex_bytes(v@));
        }
        Ok(v)
    }

    /// The digest by which the vertex is known, or none where a length does not fit its
    /// bytes.
    pub fn digest(&self) -> (digest: Option<[u8; 32]>)
        ensures
            match digest {
                Some(d) => vertex_fits(self@) && d == vertex_digest(self@),
                None => !vertex_fits(self@),
            },
    {
        match self.encode() {
            Some(bytes) => Some(sha3_256_digest(bytes.as_slice())),
            None => None,
        }
    }
}

} // verus!
