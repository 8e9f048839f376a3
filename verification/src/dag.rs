//! Certified vertices, and what a validator knows of them.
use crate::committee::{lemma_weight_insert, stake_in, weight, ValidatorSet};
use crate::keymap::{ascending, key_lt, KeyMap};
use crate::keys::{HybridSignature, SignatureData};
use crate::pubkey::Pubkey;
use crate::vertex::{vertex_digest, Vertex, VertexData};
use vstd::prelude::*;

verus! {

/// A vertex with the votes of a quorum.
#[derive(Debug)]
pub struct Certificate {
    pub vertex: Vertex,
    pub signatures: Vec<(Pubkey, HybridSignature)>,
}

/// What a certificate says.
#[verifier::ext_equal]
pub ghost struct CertificateData {
    pub vertex: VertexData,
    pub signatures: Seq<(Pubkey, SignatureData)>,
}

/// What a list of votes says.
pub open spec fn votes_data(s: Seq<(Pubkey, HybridSignature)>) -> Seq<(Pubkey, SignatureData)> {
    s.map_values(|v: (Pubkey, HybridSignature)| (v.0, v.1@))
}

impl View for Certificate {
    type V = CertificateData;

    open spec fn view(&self) -> CertificateData {
        CertificateData { vertex: self.vertex@, signatures: votes_data(self.signatures@) }
    }
}

impl Clone for Certificate {
    fn clone(&self) -> (copy: Self)
        ensures
            copy@ == self@,
    {
        let mut signatures: Vec<(Pubkey, HybridSignature)> = Vec::with_capacity(
            self.signatures.len(),
        );
        let mut i: usize = 0;
        while i < self.signatures.len()
            invariant
                i <= self.signatures@.len(),
                votes_data(signatures@) == votes_data(self.signatures@).take(i as int),
            decreases self.signatures@.len() - i,
        {
            let ghost before = signatures@;
            let signature = self.signatures[i].1.clone();
            signatures.push((self.signatures[i].0, signature));
            proof {
                assert(votes_data(signatures@) =~= votes_data(before).push(
                    (self.signatures@[i as int].0, signature@),
                ));
                assert(signature@ == self.signatures@[i as int].1@);
                assert(votes_data(signatures@) =~= votes_data(self.signatures@).take(i + 1));
            }
            i += 1;
        }
        proof {
            assert(votes_data(signatures@) =~= votes_data(self.signatures@));
        }
        Certificate { vertex: self.vertex.clone(), signatures }
    }
}

/// The certificates of a round.
pub open spec fn in_round(m: Map<[u8; 32], CertificateData>, round: u64) -> Set<[u8; 32]> {
    m.dom().filter(|d: [u8; 32]| m[d].vertex.round == round)
}

/// The stake of the authors of the certificates of a round.
pub open spec fn round_stake(
    m: Map<[u8; 32], CertificateData>,
    round: u64,
    set: ValidatorSet,
) -> nat {
    weight(in_round(m, round), |d: [u8; 32]| stake_in(set, m[d].vertex.author))
}

/// `s` lists the certificates of a round, each once, in ascending order.
pub open spec fn lists_round(
    s: Seq<[u8; 32]>,
    m: Map<[u8; 32], CertificateData>,
    round: u64,
) -> bool {
    &&& forall|i: int, j: int| 0 <= i < j < s.len() ==> key_lt(#[trigger] s[i], #[trigger] s[j])
    &&& forall|d: [u8; 32]| #[trigger] s.contains(d) <==> in_round(m, round).contains(d)
}

/// The certificates that a validator knows, by the digests of their vertices.
pub struct DagStore {
    certificates: KeyMap<Certificate>,
}

impl DagStore {
    /// The certificates are in order.
    pub closed spec fn wf(&self) -> bool {
        self.certificates.wf()
    }

    /// The certificates.
    pub closed spec fn view(&self) -> Map<[u8; 32], CertificateData> {
        self.certificates@.map_values(|c: Certificate| c@)
    }

    /// No certificates.
    pub fn new() -> (dag: Self)
        ensures
            dag.wf(),
            dag@ == Map::<[u8; 32], CertificateData>::empty(),
    {
        let dag = DagStore { certificates: KeyMap::new() };
        proof {
            assert(dag@ =~= Map::<[u8; 32], CertificateData>::empty());
        }
        dag
    }

    /// How many certificates there are.
    pub fn len(&self) -> (n: usize)
        requires
            self.wf(),
        ensures
            n == self@.len(),
            self@.dom().finite(),
    {
        proof {
            self.certificates.lemma_listed();
            assert(self@.dom() =~= self.certificates@.dom());
        }
        self.certificates.len()
    }

    /// Whether the vertex with this digest is known to be certified.
    pub fn contains(&self, digest: &[u8; 32]) -> (known: bool)
        requires
            self.wf(),
        ensures
            known == self@.contains_key(*digest),
    {
        self.certificates.contains_key(digest)
    }

    /// The certificate of the vertex with this digest.
    pub fn get(&self, digest: &[u8; 32]) -> (certificate: Option<&Certificate>)
        requires
            self.wf(),
        ensures
            match certificate {
                Some(c) => self@.contains_key(*digest) && c@ == self@[*digest],
                None => !self@.contains_key(*digest),
            },
    {
        self.certificates.get(digest)
    }

    /// Takes a certificate in, under the digest of its vertex.
    pub fn insert(&mut self, digest: [u8; 32], certificate: Certificate)
        requires
            old(self).wf(),
            digest == vertex_digest(certificate@.vertex),
        ensures
            final(self).wf(),
            final(self)@ == old(self)@.insert(digest, certificate@),
    {
        self.certificates.insert(digest, certificate);
        proof {
            assert(self@ =~= old(self)@.insert(digest, certificate@));
        }
    }

    /// The digests of the certificates of a round, in ascending order.
    pub fn digests_in_round(&self, round: u64) -> (digests: Vec<[u8; 32]>)
        requires
            self.wf(),
        ensures
            lists_round(digests@, self@, round),
    {
        let mut out: Vec<[u8; 32]> = Vec::new();
        let n: usize = self.certificates.len();
        let mut i: usize = 0;
        proof {
            self.certificates.lemma_listed();
        }
        let ghost all = self.certificates.listed();
        while i < n
            invariant
                self.wf(),
                i <= n == all.len(),
                all == self.certificates.listed(),
                ascending(all),
                forall|j: int|
                    0 <= j < out@.len() ==> exists|k: int|
                        0 <= k < i && (#[trigger] all[k]).0 == #[trigger] out@[j]
                            && all[k].1@.vertex.round == round,
                forall|k: int|
                    0 <= k < i && (#[trigger] all[k]).1@.vertex.round == round ==> out@.contains(
                        all[k].0,
                    ),
                forall|a: int, b: int|
                    0 <= a < b < out@.len() ==> key_lt(#[trigger] out@[a], #[trigger] out@[b]),
            decreases n - i,
        {
            let entry = self.certificates.entry(i);
            let ghost before = out@;
            if entry.1.vertex.round == round {
                out.push(entry.0);
                proof {
                    assert forall|a: int, b: int| 0 <= a < b < out@.len() implies key_lt(
                        #[trigger] out@[a],
                        #[trigger] out@[b],
                    ) by {
                        if b < before.len() {
                            assert(key_lt(before[a], before[b]));
                        } else {
                            assert(out@[a] == before[a]);
                            let k = choose|k: int|
                                0 <= k < i && (#[trigger] all[k]).0 == before[a]
                                    && all[k].1@.vertex.round == round;
                            assert(key_lt(all[k].0, all[i as int].0));
                        }
                    }
                    assert forall|j: int| 0 <= j < out@.len() implies exists|k: int|
                        0 <= k < i + 1 && (#[trigger] all[k]).0 == #[trigger] out@[j]
                            && all[k].1@.vertex.round == round by {
                        if j < before.len() {
                            assert(out@[j] == before[j]);
                            let k = choose|k: int|
                                0 <= k < i && (#[trigger] all[k]).0 == before[j]
                                    && all[k].1@.vertex.round == round;
                            assert(all[k].0 == out@[j]);
                        } else {
                            assert(all[i as int].0 == out@[j]);
                        }
                    }
                    assert forall|k: int|
                        0 <= k < i + 1 && (#[trigger] all[k]).1@.vertex.round == round implies out@.contains(
                        all[k].0,
                    ) by {
                        if k < i {
                            let j = choose|j: int| 0 <= j < before.len() && before[j] == all[k].0;
                            assert(out@[j] == all[k].0);
                        } else {
                            assert(out@[before.len() as int] == all[k].0);
                        }
                    }
                }
            }
            i += 1;
        }
        proof {
            let m = self@;
            assert forall|d: [u8; 32]| #[trigger] out@.contains(d) <==> in_round(m, round).contains(d) by {
                if out@.contains(d) {
                    let j = choose|j: int| 0 <= j < out@.len() && out@[j] == d;
                    let k = choose|k: int|
                        0 <= k < n && (#[trigger] all[k]).0 == out@[j] && all[k].1@.vertex.round
                            == round;
                    assert(self.certificates@.contains_key(all[k].0));
                }
                if in_round(m, round).contains(d) {
                    assert(self.certificates@.contains_key(d));
                    let k = choose|k: int| 0 <= k < all.len() && #[trigger] all[k].0 == d;
                    assert(self.certificates@[all[k].0] == all[k].1);
                    assert(out@.contains(all[k].0));
                }
            }
        }
        out
    }

    /// The stake of the authors of the certificates of a round.
    pub fn stake_in_round(&self, round: u64, set: &ValidatorSet) -> (stake: u128)
        requires
            self.wf(),
        ensures
            stake == round_stake(self@, round, *set),
    {
        let digests = self.digests_in_round(round);
        let ghost m = self@;
        let ghost w = |d: [u8; 32]| stake_in(*set, m[d].vertex.author);
        let mut total: u128 = 0;
        let mut i: usize = 0;
        let ghost mut seen: Set<[u8; 32]> = Set::empty();
        while i < digests.len()
            invariant
                self.wf(),
                m == self@,
                w == (|d: [u8; 32]| stake_in(*set, m[d].vertex.author)),
                lists_round(digests@, m, round),
                i <= digests@.len(),
                seen.finite(),
                forall|d: [u8; 32]| #[trigger]
                    seen.contains(d) <==> exists|j: int| 0 <= j < i && digests@[j] == d,
                total == weight(seen, w),
                total <= i * u64::MAX,
            decreases digests@.len() - i,
        {
            proof {
                assert(digests@.contains(digests@[i as int]));
                assert(in_round(m, round).contains(digests@[i as int]));
                assert(!seen.contains(digests@[i as int])) by {
                    if seen.contains(digests@[i as int]) {
                        let j = choose|j: int| 0 <= j < i && digests@[j] == digests@[i as int];
                        assert(key_lt(digests@[j], digests@[i as int]));
                        crate::keymap::lemma_key_lt_asymmetric(digests@[j], digests@[i as int]);
                    }
                }
                lemma_weight_insert(seen, w, digests@[i as int]);
                assert(i * u64::MAX + u64::MAX == (i + 1) * u64::MAX) by (nonlinear_arith);
                assert((i + 1) * u64::MAX <= u128::MAX) by (nonlinear_arith)
                    requires
                        i + 1 <= usize::MAX,
                        usize::MAX <= u64::MAX,
                ;
            }
            match self.certificates.get(&digests[i]) {
                Some(c) => {
                    total = total + set.stake_of(&c.vertex.author) as u128;
                },
                None => {},
            }
            proof {
                let before = seen;
                seen = seen.insert(digests@[i as int]);
                assert forall|d: [u8; 32]| #[trigger] seen.contains(d) <==> exists|j: int|
                    0 <= j < i + 1 && digests@[j] == d by {
                    if before.contains(d) {
                        let j = choose|j: int| 0 <= j < i && digests@[j] == d;
                        assert(digests@[j] == d);
                    }
                }
            }
            i += 1;
        }
        proof {
            assert(seen =~= in_round(m, round)) by {
                assert forall|d: [u8; 32]| seen.contains(d) <==> in_round(m, round).contains(d) by {
                    if in_round(m, round).contains(d) {
                        assert(digests@.contains(d));
                    }
                    if seen.contains(d) {
                        let j = choose|j: int| 0 <= j < i && digests@[j] == d;
                        assert(digests@.contains(digests@[j]));
                    }
                }
            }
        }
        total
    }
}

} // verus!
