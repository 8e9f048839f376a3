//! The simulated network between validators, and the account of a run.
use crate::committee::ValidatorSet;
use crate::hash::{copy_digests, digests_equal};
use crate::pubkey::{base58, Pubkey};
use crate::sim_validator::{
    ByzantineBehavior, EvidenceData, SimMessage, SimMessageData, SimValidator,
};
use crate::text::{decimal, decimal_text, joined};
use crate::vertex::vertex_digest;
use vstd::prelude::*;

verus! {

/// Two groups of validators between which nothing gets through before a tick.
#[derive(Debug)]
pub struct Partition {
    pub group_a: Vec<usize>,
    pub group_b: Vec<usize>,
    pub until: u64,
}

/// A change of the committee at the end of an epoch.
#[derive(Debug)]
pub struct Rotation {
    /// How many rounds an epoch has.
    pub epoch_rounds: u64,
    /// The committee of the first epoch.
    pub epoch0: Vec<usize>,
    /// The committee of every later epoch.
    pub epoch1: Vec<usize>,
}

/// What came of a run.
#[derive(Debug)]
pub struct SimReport {
    pub safety_violation: Option<String>,
    pub equivocation_succeeded: Option<String>,
    pub honest_committed_counts: Vec<usize>,
    pub made_progress: bool,
    pub committed_orders: Vec<Vec<[u8; 32]>>,
    pub equivocation_evidence_captured: bool,
    pub max_committed_round: u64,
    pub max_round_with_quorum: u64,
    pub progress_note: Option<String>,
}

fn holds(list: &Vec<usize>, x: usize) -> (found: bool)
    ensures
        found == list@.contains(x),
{
    let mut i: usize = 0;
    while i < list.len()
        invariant
            i <= list@.len(),
            forall|j: int| 0 <= j < i ==> list@[j] != x,
        decreases list@.len() - i,
    {
        if list[i] == x {
            proof {
                assert(list@[i as int] == x);
            }
            return true;
        }
        i += 1;
    }
    false
}

/// A message between two validators is lost in a partition.
pub open spec fn is_cut_off(partition: Option<Partition>, tick: u64, from: usize, to: usize) -> bool {
    match partition {
        None => false,
        Some(p) => tick < p.until && ((p.group_a@.contains(from) && p.group_b@.contains(to)) || (
        p.group_b@.contains(from) && p.group_a@.contains(to))),
    }
}

/// Whether a message between two validators is lost in a partition.
pub fn cut_off(partition: &Option<Partition>, tick: u64, from: usize, to: usize) -> (lost: bool)
    ensures
        lost == is_cut_off(*partition, tick, from, to),
{
    match partition {
        None => false,
        Some(p) => tick < p.until && ((holds(&p.group_a, from) && holds(&p.group_b, to)) || (holds(
            &p.group_b,
            from,
        ) && holds(&p.group_a, to))),
    }
}

/// A message on its way.
pub struct Event {
    /// The tick at which it arrives.
    pub at: u64,
    pub seq: u64,
    pub from: usize,
    pub to: usize,
    pub message: SimMessage,
}

/// `a` is delivered before `b`.
pub open spec fn comes_first(a: Event, b: Event) -> bool {
    a.at < b.at || (a.at == b.at && a.seq < b.seq)
}

/// The messages on their way, in the order in which they are delivered.
pub struct EventQueue {
    events: Vec<Event>,
    next_seq: u64,
}

/// Each event is delivered before those that follow it.
pub open spec fn in_delivery_order(s: Seq<Event>) -> bool {
    forall|i: int, j: int| 0 <= i < j < s.len() ==> comes_first(#[trigger] s[i], #[trigger] s[j])
}

impl EventQueue {
    /// The events, in the order in which they are delivered.
    pub closed spec fn view(&self) -> Seq<Event> {
        self.events@
    }

    /// The number of the next message.
    pub closed spec fn seq(&self) -> u64 {
        self.next_seq
    }

    /// The events are in order, and numbered below the next number.
    pub open spec fn wf(&self) -> bool {
        &&& in_delivery_order(self@)
        &&& forall|i: int| 0 <= i < self@.len() ==> (#[trigger] self@[i]).seq < self.seq()
    }

    /// Nothing is on its way.
    pub fn new() -> (queue: Self)
        ensures
            queue.wf(),
            queue@ == Seq::<Event>::empty(),
            queue.seq() == 0,
    {
        EventQueue { events: Vec::new(), next_seq: 0 }
    }

    /// Sends a message off at `tick`: it arrives at the next tick, or `delay` ticks later.
    /// It comes behind everything that arrives then or earlier.
    pub fn push(&mut self, tick: u64, delay: u64, from: usize, to: usize, message: SimMessage)
        requires
            old(self).wf(),
            tick + 1 + delay <= u64::MAX,
            old(self).seq() < u64::MAX,
        ensures
            final(self).wf(),
            final(self).seq() == old(self).seq() + 1,
            exists|k: int|
                0 <= k <= old(self)@.len() && final(self)@ == #[trigger] old(self)@.insert(
                    k,
                    (Event {
                        at: (tick + 1 + delay) as u64,
                        seq: old(self).seq(),
                        from,
                        to,
                        message,
                    }),
                ),
    {
        let at: u64 = tick + 1 + delay;
        let mut k: usize = self.events.len();
        while k > 0 && self.events[k - 1].at > at
            invariant
                k <= self.events@.len(),
                forall|i: int| k <= i < self.events@.len() ==> (#[trigger] self.events@[i]).at > at,
            decreases k,
        {
            k -= 1;
        }
        let ghost before = self.events@;
        let event = Event { at, seq: self.next_seq, from, to, message };
        self.events.insert(k, event);
        self.next_seq = self.next_seq + 1;
        proof {
            let after = self.events@;
            assert(after =~= before.insert(k as int, event));
            assert forall|i: int, j: int| 0 <= i < j < after.len() implies comes_first(
                #[trigger] after[i],
                #[trigger] after[j],
            ) by {
                let x = if i < k {
                    i
                } else {
                    i - 1
                };
                let y = if j < k {
                    j
                } else {
                    j - 1
                };
                if i != k && j != k {
                    assert(after[i] == before[x] && after[j] == before[y]);
                    assert(comes_first(before[x], before[y]));
                } else if j == k {
                    assert(after[i] == before[i]);
                    if i < k - 1 {
                        assert(comes_first(before[i], before[k - 1]));
                    }
                } else {
                    assert(after[j] == before[j - 1]);
                }
            }
            assert forall|i: int| 0 <= i < after.len() implies (#[trigger] after[i]).seq
                < self.next_seq by {
                if i < k {
                    assert(after[i] == before[i]);
                } else if i > k {
                    assert(after[i] == before[i - 1]);
                }
            }
        }
    }

    /// Takes out what arrives at `tick` or earlier, in order.
    pub fn take_due(&mut self, tick: u64) -> (due: Vec<Event>)
        requires
            old(self).wf(),
        ensures
            final(self).wf(),
            final(self).seq() == old(self).seq(),
            due@ + final(self)@ == old(self)@,
            forall|i: int| 0 <= i < due@.len() ==> (#[trigger] due@[i]).at <= tick,
            forall|i: int| 0 <= i < final(self)@.len() ==> (#[trigger] final(self)@[i]).at > tick,
            in_delivery_order(due@),
    {
        let ghost before = self.events@;
        let mut k: usize = 0;
        while k < self.events.len() && self.events[k].at <= tick
            invariant
                before == self.events@,
                k <= before.len(),
                forall|i: int| 0 <= i < k ==> (#[trigger] before[i]).at <= tick,
            decreases before.len() - k,
        {
            k += 1;
        }
        let rest = self.events.split_off(k);
        let mut due: Vec<Event> = rest;
        std::mem::swap(&mut due, &mut self.events);
        proof {
            assert(due@ =~= before.take(k as int));
            assert(self.events@ =~= before.skip(k as int));
            assert(due@ + self.events@ =~= before);
            assert forall|i: int| 0 <= i < self.events@.len() implies (#[trigger] self.events@[i]).at
                > tick by {
                assert(self.events@[i] == before[k + i]);
                if i > 0 {
                    assert(comes_first(before[k as int], before[k + i]));
                }
            }
            assert forall|i: int, j: int| 0 <= i < j < self.events@.len() implies comes_first(
                #[trigger] self.events@[i],
                #[trigger] self.events@[j],
            ) by {
                assert(comes_first(before[k + i], before[k + j]));
            }
            assert forall|i: int| 0 <= i < self.events@.len() implies (#[trigger] self.events@[i]).seq
                < self.next_seq by {
                assert(self.events@[i] == before[k + i]);
            }
            assert forall|i: int, j: int| 0 <= i < j < due@.len() implies comes_first(
                #[trigger] due@[i],
                #[trigger] due@[j],
            ) by {
                assert(comes_first(before[i], before[j]));
            }
        }
        due
    }
}

/// The certificates that were ever formed: the round and author of each vertex, and its
/// digest.
pub struct Certified {
    list: Vec<(u64, Pubkey, [u8; 32])>,
}

impl Certified {
    /// The certificates, each once, in the order in which they were first seen.
    pub closed spec fn view(&self) -> Seq<(u64, Pubkey, [u8; 32])> {
        self.list@
    }

    /// Each certificate is listed once.
    pub open spec fn wf(&self) -> bool {
        self@.no_duplicates()
    }

    /// No certificates.
    pub fn new() -> (certified: Self)
        ensures
            certified.wf(),
            certified@ == Seq::<(u64, Pubkey, [u8; 32])>::empty(),
    {
        Certified { list: Vec::new() }
    }

    /// Takes note of the certificate in a message that broadcasts one.
    pub fn note(&mut self, message: &SimMessage)
        requires
            old(self).wf(),
            crate::sim_validator::message_has_digest(message@),
        ensures
            final(self).wf(),
            final(self)@ == (match message@ {
                SimMessageData::CertificateBroadcast(c) => {
                    let entry = (c.vertex.round, c.vertex.author, vertex_digest(c.vertex));
                    if old(self)@.contains(entry) {
                        old(self)@
                    } else {
                        old(self)@.push(entry)
                    }
                },
                _ => old(self)@,
            }),
    {
        match message {
            SimMessage::CertificateBroadcast(c) => {
                let digest: [u8; 32] = match c.vertex.digest() {
                    Some(d) => d,
                    None => [0u8; 32],
                };
                let ghost entry = (c@.vertex.round, c@.vertex.author, digest);
                let mut i: usize = 0;
                while i < self.list.len()
                    invariant
                        *self == *old(self),
                        self.wf(),
                        i <= self.list@.len(),
                        forall|j: int| 0 <= j < i ==> self.list@[j] != entry,
                        message@ == SimMessageData::CertificateBroadcast(c@),
                        entry == (c@.vertex.round, c@.vertex.author, digest),
                        digest == vertex_digest(c@.vertex),
                    decreases self.list@.len() - i,
                {
                    let e: (u64, Pubkey, [u8; 32]) = self.list[i];
                    if e.0 == c.vertex.round && e.1.same_as(&c.vertex.author) && digests_equal(
                        &e.2,
                        &digest,
                    ) {
                        proof {
                            assert(self.list@[i as int] == entry);
                            assert(old(self)@.contains(entry));
                        }
                        return;
                    }
                    i += 1;
                }
                self.list.push((c.vertex.round, c.vertex.author, digest));
            },
            _ => {},
        }
    }
}

/// The validators of each round: those of the first epoch, and, where the committee
/// changes, those of the later ones.
pub struct ValidatorSchedule {
    pub first: ValidatorSet,
    pub later: Option<ValidatorSet>,
    pub epoch_rounds: u64,
}

impl ValidatorSchedule {
    /// The validators of a round.
    pub open spec fn at(&self, round: u64) -> ValidatorSet {
        match self.later {
            Some(set) if round >= self.epoch_rounds => set,
            _ => self.first,
        }
    }

    /// The validators of a round.
    pub fn for_round(&self, round: u64) -> (set: &ValidatorSet)
        ensures
            *set == self.at(round),
    {
        match &self.later {
            Some(set) => {
                if round >= self.epoch_rounds {
                    set
                } else {
                    &self.first
                }
            },
            None => &self.first,
        }
    }
}

/// The ids of all validators but the one at `i`.
pub fn peers_of(ids: &Vec<Pubkey>, i: usize) -> (peers: Vec<Pubkey>)
    requires
        i < ids@.len(),
    ensures
        peers@ == ids@.remove(i as int),
{
    let mut out: Vec<Pubkey> = Vec::new();
    let mut j: usize = 0;
    while j < ids.len()
        invariant
            i < ids@.len(),
            j <= ids@.len(),
            j <= i ==> out@ == ids@.take(j as int),
            j > i ==> out@ == ids@.take(j as int).remove(i as int),
        decreases ids@.len() - j,
    {
        if j != i {
            out.push(ids[j]);
        }
        proof {
            if j < i {
                assert(out@ =~= ids@.take(j + 1));
            } else {
                assert(out@ =~= ids@.take(j + 1).remove(i as int));
            }
        }
        j += 1;
    }
    proof {
        assert(ids@.take(j as int) =~= ids@);
    }
    out
}

/// The place of an id, where it is one.
pub fn index_of(ids: &Vec<Pubkey>, id: &Pubkey) -> (place: Option<usize>)
    ensures
        match place {
            Some(i) => i < ids@.len() && ids@[i as int] == *id && forall|j: int|
                0 <= j < i ==> ids@[j] != *id,
            None => !ids@.contains(*id),
        },
{
    let mut i: usize = 0;
    while i < ids.len()
        invariant
            i <= ids@.len(),
            forall|j: int| 0 <= j < i ==> ids@[j] != *id,
        decreases ids@.len() - i,
    {
        if ids[i].same_as(id) {
            return Some(i);
        }
        i += 1;
    }
    None
}

/// Up to the length of the shorter one, the two orders are the same.
pub open spec fn consistent(a: Seq<[u8; 32]>, b: Seq<[u8; 32]>) -> bool {
    forall|i: int| 0 <= i < a.len() && i < b.len() ==> a[i] == b[i]
}

/// Whether one order is a prefix of the other.
pub fn is_prefix_consistent(a: &Vec<[u8; 32]>, b: &Vec<[u8; 32]>) -> (yes: bool)
    ensures
        yes == consistent(a@, b@),
{
    let mut i: usize = 0;
    while i < a.len() && i < b.len()
        invariant
            i <= a@.len(),
            i <= b@.len(),
            forall|j: int| 0 <= j < i ==> a@[j] == b@[j],
        decreases a@.len() - i,
    {
        if !digests_equal(&a[i], &b[i]) {
            proof {
                assert(a@[i as int] != b@[i as int]);
            }
            return false;
        }
        i += 1;
    }
    true
}

/// The order that a validator has committed.
pub open spec fn order_of(s: Seq<SimValidator>, i: int) -> Seq<[u8; 32]> {
    s[i]@.committed
}

/// The validator at `i` is honest.
pub open spec fn is_honest(s: Seq<SimValidator>, i: int) -> bool {
    s[i].behavior is Honest
}

/// The honest validators at `i` and `j` have committed different orders.
pub open spec fn diverge(s: Seq<SimValidator>, i: int, j: int) -> bool {
    &&& 0 <= i < j < s.len()
    &&& is_honest(s, i)
    &&& is_honest(s, j)
    &&& !consistent(order_of(s, i), order_of(s, j))
}

/// The words for two validators that disagree.
pub open spec fn divergence_words(i: int, j: int) -> Seq<char> {
    "honest validators at index "@ + decimal(i as nat) + " and "@ + decimal(j as nat)
        + " disagree on committed order"@
}

/// The first two honest validators that disagree, where there are any.
fn find_divergence(sims: &Vec<SimValidator>) -> (found: Option<String>)
    requires
        forall|i: int| 0 <= i < sims@.len() ==> (#[trigger] sims@[i]).wf(),
    ensures
        match found {
            None => forall|i: int, j: int| !#[trigger] diverge(sims@, i, j),
            Some(text) => exists|i: int, j: int| #[trigger]
                diverge(sims@, i, j) && text@ == divergence_words(i, j) && forall|k: int, l: int| #[trigger]
                    diverge(sims@, k, l) ==> i < k || (i == k && j <= l),
        },
{
    let mut i: usize = 0;
    while i < sims.len()
        invariant
            i <= sims@.len(),
            forall|k: int, l: int| #[trigger] diverge(sims@, k, l) ==> i <= k,
        decreases sims@.len() - i,
    {
        let mut j: usize = i + 1;
        while j < sims.len()
            invariant
                i < sims@.len(),
                i < j <= sims@.len(),
                forall|k: int, l: int| #[trigger]
                    diverge(sims@, k, l) ==> i < k || (i == k && j <= l),
            decreases sims@.len() - j,
        {
            proof {
                sims@[i as int].lemma_fields();
                sims@[j as int].lemma_fields();
            }
            if sims[i].behavior == ByzantineBehavior::Honest && sims[j].behavior
                == ByzantineBehavior::Honest && !is_prefix_consistent(
                &sims[i].committed_order,
                &sims[j].committed_order,
            ) {
                let head = joined(
                    joined("honest validators at index ", decimal_text(i as u64).as_str()).as_str(),
                    " and ",
                );
                let text = joined(
                    joined(head.as_str(), decimal_text(j as u64).as_str()).as_str(),
                    " disagree on committed order",
                );
                proof {
                    assert(diverge(sims@, i as int, j as int));
                }
                return Some(text);
            }
            proof {
                assert(!diverge(sims@, i as int, j as int));
            }
            j += 1;
        }
        i += 1;
    }
    None
}

/// Two certificates are of one author and round. As each is listed once, their digests
/// differ.
pub open spec fn rival_certificates(c: Seq<(u64, Pubkey, [u8; 32])>, i: int, j: int) -> bool {
    &&& 0 <= i < j < c.len()
    &&& c[i].0 == c[j].0
    &&& c[i].1 == c[j].1
}

/// How many certificates of the list are of this round and author.
pub open spec fn certificates_of(
    c: Seq<(u64, Pubkey, [u8; 32])>,
    round: u64,
    author: Pubkey,
) -> nat
    decreases c.len(),
{
    if c.len() == 0 {
        0
    } else {
        certificates_of(c.drop_last(), round, author) + if c.last().0 == round && c.last().1
            == author {
            1nat
        } else {
            0
        }
    }
}

/// The words for an author with more than one certificate for a round.
pub open spec fn rivals_words(n: nat, round: u64, author: Pubkey) -> Seq<char> {
    decimal(n) + " distinct certificates formed for round "@ + decimal(round as nat)
        + ", author "@ + base58(author.0@)
}

proof fn lemma_certificates_of(c: Seq<(u64, Pubkey, [u8; 32])>, round: u64, author: Pubkey)
    ensures
        certificates_of(c, round, author) <= c.len(),
        certificates_of(c, round, author) >= 1 ==> exists|i: int|
            0 <= i < c.len() && (#[trigger] c[i]).0 == round && c[i].1 == author,
        forall|i: int|
            0 <= i < c.len() && (#[trigger] c[i]).0 == round && c[i].1 == author
                ==> certificates_of(c, round, author) >= 1,
        certificates_of(c, round, author) >= 2 ==> exists|i: int, j: int| #[trigger]
            rival_certificates(c, i, j) && c[i].0 == round && c[i].1 == author,
        forall|i: int, j: int| #[trigger]
            rival_certificates(c, i, j) && c[i].0 == round && c[i].1 == author
                ==> certificates_of(c, round, author) >= 2,
    decreases c.len(),
{
    if c.len() > 0 {
        let t = c.drop_last();
        lemma_certificates_of(t, round, author);
        let n = certificates_of(t, round, author);
        let last = c.last().0 == round && c.last().1 == author;
        if certificates_of(c, round, author) >= 1 {
            if n >= 1 {
                let i = choose|i: int|
                    0 <= i < t.len() && (#[trigger] t[i]).0 == round && t[i].1 == author;
                assert(c[i].0 == round && c[i].1 == author);
            } else {
                assert(c[c.len() - 1].0 == round);
            }
        }
        assert forall|i: int|
            0 <= i < c.len() && (#[trigger] c[i]).0 == round && c[i].1 == author implies certificates_of(
            c,
            round,
            author,
        ) >= 1 by {
            if i < t.len() {
                assert(t[i] == c[i]);
            }
        }
        if certificates_of(c, round, author) >= 2 {
            if n >= 2 {
                let (i, j) = choose|i: int, j: int| #[trigger]
                    rival_certificates(t, i, j) && t[i].0 == round && t[i].1 == author;
                assert(rival_certificates(c, i, j));
            } else {
                let i = choose|i: int|
                    0 <= i < t.len() && (#[trigger] t[i]).0 == round && t[i].1 == author;
                assert(rival_certificates(c, i, c.len() - 1));
            }
        }
        assert forall|i: int, j: int| #[trigger]
            rival_certificates(c, i, j) && c[i].0 == round && c[i].1 == author implies certificates_of(
            c,
            round,
            author,
        ) >= 2 by {
            assert(t[i] == c[i]);
            if j < t.len() {
                assert(rival_certificates(t, i, j));
            }
        }
    }
}

impl Certified {
    fn count(&self, round: u64, author: &Pubkey) -> (n: usize)
        ensures
            n == certificates_of(self@, round, *author),
    {
        let mut n: usize = 0;
        let mut i: usize = 0;
        proof {
            assert(self@.take(0) =~= Seq::<(u64, Pubkey, [u8; 32])>::empty());
        }
        while i < self.list.len()
            invariant
                i <= self.list@.len(),
                n == certificates_of(self@.take(i as int), round, *author),
                n <= i,
            decreases self.list@.len() - i,
        {
            proof {
                assert(self@.take(i + 1).drop_last() =~= self@.take(i as int));
                assert(self@.take(i + 1).last() == self@[i as int]);
            }
            if self.list[i].0 == round && self.list[i].1.same_as(author) {
                n += 1;
            }
            i += 1;
        }
        proof {
            assert(self@.take(i as int) =~= self@);
        }
        n
    }

    /// Whether some author has more than one certificate for a round, in words.
    fn find_rivals(&self) -> (found: Option<String>)
        ensures
            match found {
                None => forall|i: int, j: int| !#[trigger] rival_certificates(self@, i, j),
                Some(text) => exists|i: int| #[trigger]
                    first_rival(self@, i) && text@ == rivals_words(
                        certificates_of(self@, self@[i].0, self@[i].1),
                        self@[i].0,
                        self@[i].1,
                    ),
            },
    {
        let mut i: usize = 0;
        while i < self.list.len()
            invariant
                i <= self.list@.len(),
                forall|k: int|
                    0 <= k < i ==> certificates_of(
                        self@,
                        (#[trigger] self@[k]).0,
                        self@[k].1,
                    ) < 2,
            decreases self.list@.len() - i,
        {
            let e: (u64, Pubkey, [u8; 32]) = self.list[i];
            let n: usize = self.count(e.0, &e.1);
            if n > 1 {
                let head = joined(
                    decimal_text(n as u64).as_str(),
                    " distinct certificates formed for round ",
                );
                let middle = joined(
                    joined(head.as_str(), decimal_text(e.0).as_str()).as_str(),
                    ", author ",
                );
                let text = joined(middle.as_str(), e.1.to_string().as_str());
                proof {
                    assert(first_rival(self@, i as int));
                }
                return Some(text);
            }
            i += 1;
        }
        proof {
            assert forall|i: int, j: int| !#[trigger] rival_certificates(self@, i, j) by {
                if rival_certificates(self@, i, j) {
                    lemma_certificates_of(self@, self@[i].0, self@[i].1);
                }
            }
        }
        None
    }
}

/// The certificate at `i` is the first of an author and round with more than one.
pub open spec fn first_rival(c: Seq<(u64, Pubkey, [u8; 32])>, i: int) -> bool {
    &&& 0 <= i < c.len()
    &&& certificates_of(c, c[i].0, c[i].1) >= 2
    &&& forall|k: int| 0 <= k < i ==> certificates_of(c, (#[trigger] c[k]).0, c[k].1) < 2
}

/// A round in which an honest validator has committed a vertex.
pub open spec fn committed_round(s: Seq<SimValidator>, i: int, k: int, round: u64) -> bool {
    &&& 0 <= i < s.len()
    &&& is_honest(s, i)
    &&& 0 <= k < order_of(s, i).len()
    &&& s[i]@.dag.contains_key(order_of(s, i)[k])
    &&& s[i]@.dag[order_of(s, i)[k]].vertex.round == round
}

fn highest_committed(sims: &Vec<SimValidator>) -> (round: u64)
    requires
        forall|i: int| 0 <= i < sims@.len() ==> (#[trigger] sims@[i]).wf(),
    ensures
        round == 0 || exists|i: int, k: int| #[trigger] committed_round(sims@, i, k, round),
        forall|i: int, k: int, r: u64| #[trigger] committed_round(sims@, i, k, r) ==> r <= round,
{
    let mut best: u64 = 0;
    let mut i: usize = 0;
    while i < sims.len()
        invariant
            i <= sims@.len(),
            forall|j: int| 0 <= j < sims@.len() ==> (#[trigger] sims@[j]).wf(),
            best == 0 || exists|j: int, k: int| #[trigger] committed_round(sims@, j, k, best),
            forall|j: int, k: int, r: u64| #[trigger]
                committed_round(sims@, j, k, r) && j < i ==> r <= best,
        decreases sims@.len() - i,
    {
        proof {
            sims@[i as int].lemma_fields();
        }
        if sims[i].behavior == ByzantineBehavior::Honest {
            let mut k: usize = 0;
            while k < sims[i].committed_order.len()
                invariant
                    i < sims@.len(),
                    k <= sims@[i as int].committed_order@.len(),
                    is_honest(sims@, i as int),
                    sims@[i as int].dag.wf(),
                    sims@[i as int]@.dag == sims@[i as int].dag@,
                    sims@[i as int]@.committed == sims@[i as int].committed_order@,
                    best == 0 || exists|j: int, l: int| #[trigger]
                        committed_round(sims@, j, l, best),
                    forall|j: int, l: int, r: u64| #[trigger]
                        committed_round(sims@, j, l, r) && j < i ==> r <= best,
                    forall|l: int, r: u64| #[trigger]
                        committed_round(sims@, i as int, l, r) && l < k ==> r <= best,
                decreases sims@[i as int].committed_order@.len() - k,
            {
                match sims[i].dag.get(&sims[i].committed_order[k]) {
                    Some(c) => {
                        let round: u64 = c.vertex.round;
                        proof {
                            assert(committed_round(sims@, i as int, k as int, round));
                        }
                        if round > best {
                            best = round;
                        }
                    },
                    None => {},
                }
                k += 1;
            }
        }
        i += 1;
    }
    best
}

/// How many different authors have a certificate for a round.
pub open spec fn authors_of(c: Seq<(u64, Pubkey, [u8; 32])>, round: u64) -> Set<Pubkey> {
    Set::new(|a: Pubkey| certificates_of(c, round, a) >= 1)
}

/// A round for which a quorum of authors have a certificate.
pub open spec fn has_quorum(
    c: Seq<(u64, Pubkey, [u8; 32])>,
    schedule: ValidatorSchedule,
    round: u64,
) -> bool {
    &&& exists|i: int| 0 <= i < c.len() && (#[trigger] c[i]).0 == round
    &&& authors_of(c, round).len() >= schedule.at(round).quorum
}

impl Certified {
    /// The number of different authors with a certificate for a round.
    fn author_count(&self, round: u64) -> (n: usize)
        ensures
            n == authors_of(self@, round).len(),
            authors_of(self@, round).finite(),
    {
        let mut n: usize = 0;
        let mut i: usize = 0;
        let ghost mut seen: Set<Pubkey> = Set::empty();
        while i < self.list.len()
            invariant
                i <= self.list@.len(),
                n <= i,
                seen.finite(),
                seen.len() == n,
                forall|a: Pubkey| #[trigger]
                    seen.contains(a) <==> exists|k: int|
                        0 <= k < i && (#[trigger] self@[k]).0 == round && self@[k].1 == a,
            decreases self.list@.len() - i,
        {
            let e: (u64, Pubkey, [u8; 32]) = self.list[i];
            if e.0 == round {
                let mut first: bool = true;
                let mut k: usize = 0;
                while k < i
                    invariant
                        k <= i < self.list@.len(),
                        first <==> !exists|l: int|
                            0 <= l < k && (#[trigger] self@[l]).0 == round && self@[l].1 == e.1,
                    decreases i - k,
                {
                    if self.list[k].0 == round && self.list[k].1.same_as(&e.1) {
                        first = false;
                        proof {
                            assert(self@[k as int].1 == e.1);
                        }
                    }
                    k += 1;
                }
                if first {
                    n += 1;
                }
                proof {
                    assert(first == !seen.contains(e.1));
                    let before = seen;
                    seen = seen.insert(e.1);
                    if !first {
                        assert(seen =~= before);
                    }
                    assert forall|a: Pubkey| #[trigger] seen.contains(a) <==> exists|k: int|
                        0 <= k < i + 1 && (#[trigger] self@[k]).0 == round && self@[k].1 == a by {
                        if before.contains(a) {
                            let k = choose|k: int|
                                0 <= k < i && (#[trigger] self@[k]).0 == round && self@[k].1 == a;
                            assert(self@[k].1 == a);
                        } else if a == e.1 {
                            assert(self@[i as int].1 == a);
                        }
                    }
                }
            } else {
                proof {
                    assert forall|a: Pubkey| #[trigger] seen.contains(a) <==> exists|k: int|
                        0 <= k < i + 1 && (#[trigger] self@[k]).0 == round && self@[k].1 == a by {
                        if seen.contains(a) {
                            let k = choose|k: int|
                                0 <= k < i && (#[trigger] self@[k]).0 == round && self@[k].1 == a;
                            assert(self@[k].1 == a);
                        }
                    }
                }
            }
            i += 1;
        }
        proof {
            assert forall|a: Pubkey| seen.contains(a) <==> authors_of(self@, round).contains(a) by {
                lemma_certificates_of(self@, round, a);
            }
            assert(seen =~= authors_of(self@, round));
        }
        n
    }

    fn highest_quorum(&self, schedule: &ValidatorSchedule) -> (round: u64)
        ensures
            round == 0 || has_quorum(self@, *schedule, round),
            forall|r: u64| #[trigger] has_quorum(self@, *schedule, r) ==> r <= round,
    {
        let mut best: u64 = 0;
        let mut i: usize = 0;
        while i < self.list.len()
            invariant
                i <= self.list@.len(),
                best == 0 || has_quorum(self@, *schedule, best),
                forall|k: int|
                    0 <= k < i && has_quorum(self@, *schedule, (#[trigger] self@[k]).0)
                        ==> self@[k].0 <= best,
            decreases self.list@.len() - i,
        {
            let round: u64 = self.list[i].0;
            let n: usize = self.author_count(round);
            if n as u64 >= schedule.for_round(round).quorum_threshold() {
                proof {
                    assert(self@[i as int].0 == round);
                    assert(has_quorum(self@, *schedule, round));
                }
                if round > best {
                    best = round;
                }
            }
            i += 1;
        }
        best
    }
}

/// How many vertices each honest validator has committed, in the order of the validators.
pub open spec fn honest_counts(s: Seq<SimValidator>) -> Seq<usize>
    decreases s.len(),
{
    if s.len() == 0 {
        Seq::empty()
    } else {
        let rest = honest_counts(s.drop_last());
        if s.last().behavior is Honest {
            rest.push(s.last()@.committed.len() as usize)
        } else {
            rest
        }
    }
}

/// A list of numbers as it is shown.
pub open spec fn list_words(s: Seq<usize>) -> Seq<char> {
    "["@ + list_items(s) + "]"@
}

/// Numbers with commas between them.
pub open spec fn list_items(s: Seq<usize>) -> Seq<char>
    decreases s.len(),
{
    if s.len() == 0 {
        Seq::empty()
    } else if s.len() == 1 {
        decimal(s[0] as nat)
    } else {
        list_items(s.drop_last()) + ", "@ + decimal(s.last() as nat)
    }
}

fn list_text(s: &Vec<usize>) -> (text: String)
    ensures
        text@ == list_words(s@),
{
    let mut items: String = String::new();
    let mut i: usize = 0;
    proof {
        assert(s@.take(0) =~= Seq::<usize>::empty());
        assert(items@ =~= list_items(s@.take(0)));
    }
    while i < s.len()
        invariant
            i <= s@.len(),
            items@ == list_items(s@.take(i as int)),
        decreases s@.len() - i,
    {
        proof {
            assert(s@.take(i + 1).drop_last() =~= s@.take(i as int));
            assert(s@.take(i + 1).last() == s@[i as int]);
        }
        let number = decimal_text(s[i] as u64);
        if i == 0 {
            items = number;
        } else {
            items = joined(joined(items.as_str(), ", ").as_str(), number.as_str());
        }
        i += 1;
    }
    proof {
        assert(s@.take(i as int) =~= s@);
    }
    joined(joined("[", items.as_str()).as_str(), "]")
}

/// Why a run did not get beyond the end of the first epoch.
pub open spec fn note_words(
    committed: u64,
    epoch_rounds: u64,
    counts: Seq<usize>,
    quorum: u64,
) -> Seq<char> {
    "did not cross epoch boundary: max_committed_round="@ + decimal(committed as nat)
        + " < epoch_rounds="@ + decimal(epoch_rounds as nat) + " (committed counts "@ + list_words(
        counts,
    ) + "); max_round_with_quorum="@ + decimal(quorum as nat)
        + ". This is the documented leader-starvation liveness limit under the injected certificate loss (extend_order stops at the first Undecided round; the indirect commit rule is deferred), NOT a safety issue and NOT noise — it is deterministic for this seed's drop schedule."@
}

fn note_text(committed: u64, epoch_rounds: u64, counts: &Vec<usize>, quorum: u64) -> (text: String)
    ensures
        text@ == note_words(committed, epoch_rounds, counts@, quorum),
{
    let a = joined(
        "did not cross epoch boundary: max_committed_round=",
        decimal_text(committed).as_str(),
    );
    let b = joined(
        joined(a.as_str(), " < epoch_rounds=").as_str(),
        decimal_text(epoch_rounds).as_str(),
    );
    let c = joined(joined(b.as_str(), " (committed counts ").as_str(), list_text(counts).as_str());
    let d = joined(
        joined(c.as_str(), "); max_round_with_quorum=").as_str(),
        decimal_text(quorum).as_str(),
    );
    joined(
        d.as_str(),
        ". This is the documented leader-starvation liveness limit under the injected certificate loss (extend_order stops at the first Undecided round; the indirect commit rule is deferred), NOT a safety issue and NOT noise — it is deterministic for this seed's drop schedule.",
    )
}

/// The account of a run: where honest validators disagree, where an author got two
/// certificates for a round, how far each honest validator got, and why the end of the
/// first epoch was not passed.
pub fn report(
    sims: &Vec<SimValidator>,
    certified: &Certified,
    schedule: &ValidatorSchedule,
    rotation: &Option<Rotation>,
) -> (r: SimReport)
    requires
        forall|i: int| 0 <= i < sims@.len() ==> (#[trigger] sims@[i]).wf(),
        certified.wf(),
    ensures
        match r.safety_violation {
            None => forall|i: int, j: int| !#[trigger] diverge(sims@, i, j),
            Some(text) => exists|i: int, j: int| #[trigger]
                diverge(sims@, i, j) && text@ == divergence_words(i, j) && forall|k: int, l: int| #[trigger]
                    diverge(sims@, k, l) ==> i < k || (i == k && j <= l),
        },
        match r.equivocation_succeeded {
            None => forall|i: int, j: int| !#[trigger] rival_certificates(certified@, i, j),
            Some(text) => exists|i: int| #[trigger]
                first_rival(certified@, i) && text@ == rivals_words(
                    certificates_of(certified@, certified@[i].0, certified@[i].1),
                    certified@[i].0,
                    certified@[i].1,
                ),
        },
        r.honest_committed_counts@ == honest_counts(sims@),
        r.made_progress == exists|i: int|
            0 <= i < honest_counts(sims@).len() && #[trigger] honest_counts(sims@)[i] > 0,
        r.committed_orders@.len() == sims@.len(),
        forall|i: int|
            0 <= i < sims@.len() ==> (#[trigger] r.committed_orders@[i])@ == order_of(sims@, i),
        r.equivocation_evidence_captured == exists|i: int|
            0 <= i < sims@.len() && is_honest(sims@, i) && (#[trigger] sims@[i])@.evidence
                != Map::<(u64, Pubkey), EvidenceData>::empty(),
        r.max_committed_round == 0 || exists|i: int, k: int| #[trigger]
            committed_round(sims@, i, k, r.max_committed_round),
        forall|i: int, k: int, x: u64| #[trigger]
            committed_round(sims@, i, k, x) ==> x <= r.max_committed_round,
        r.max_round_with_quorum == 0 || has_quorum(
            certified@,
            *schedule,
            r.max_round_with_quorum,
        ),
        forall|x: u64| #[trigger]
            has_quorum(certified@, *schedule, x) ==> x <= r.max_round_with_quorum,
        match (r.progress_note, rotation) {
            (Some(text), Some(rot)) => r.max_committed_round < rot.epoch_rounds && text@
                == note_words(
                r.max_committed_round,
                rot.epoch_rounds,
                honest_counts(sims@),
                r.max_round_with_quorum,
            ),
            (Some(text), None) => false,
            (None, Some(rot)) => r.max_committed_round >= rot.epoch_rounds,
            (None, None) => true,
        },
{
    let safety_violation = find_divergence(sims);
    let equivocation_succeeded = certified.find_rivals();
    let mut counts: Vec<usize> = Vec::new();
    let mut orders: Vec<Vec<[u8; 32]>> = Vec::new();
    let mut progress: bool = false;
    let mut captured: bool = false;
    let mut i: usize = 0;
    proof {
        assert(sims@.take(0) =~= Seq::<SimValidator>::empty());
    }
    while i < sims.len()
        invariant
            i <= sims@.len(),
            forall|j: int| 0 <= j < sims@.len() ==> (#[trigger] sims@[j]).wf(),
            counts@ == honest_counts(sims@.take(i as int)),
            progress == exists|j: int| 0 <= j < counts@.len() && #[trigger] counts@[j] > 0,
            orders@.len() == i,
            forall|j: int| 0 <= j < i ==> (#[trigger] orders@[j])@ == order_of(sims@, j),
            captured == exists|j: int|
                0 <= j < i && is_honest(sims@, j) && (#[trigger] sims@[j])@.evidence
                    != Map::<(u64, Pubkey), EvidenceData>::empty(),
        decreases sims@.len() - i,
    {
        proof {
            sims@[i as int].lemma_fields();
            assert(sims@.take(i + 1).drop_last() =~= sims@.take(i as int));
            assert(sims@.take(i + 1).last() == sims@[i as int]);
        }
        let order = copy_digests(&sims[i].committed_order);
        let n: usize = order.len();
        orders.push(order);
        if sims[i].behavior == ByzantineBehavior::Honest {
            let ghost before = counts@;
            counts.push(n);
            proof {
                assert forall|j: int| 0 <= j < before.len() implies counts@[j] == before[j] by {}
                if n > 0 {
                    assert(counts@[before.len() as int] > 0);
                } else if progress {
                    let j = choose|j: int| 0 <= j < before.len() && #[trigger] before[j] > 0;
                    assert(counts@[j] > 0);
                }
            }
            if n > 0 {
                progress = true;
            }
            let none: bool = sims[i].equivocation_evidence.is_empty();
            proof {
                if none {
                    assert(sims@[i as int]@.evidence =~= Map::<
                        (u64, Pubkey),
                        EvidenceData,
                    >::empty());
                } else {
                    if sims@[i as int]@.evidence == Map::<(u64, Pubkey), EvidenceData>::empty() {
                        assert(sims@[i as int].equivocation_evidence@ =~= Map::empty());
                    }
                }
            }
            if !none {
                captured = true;
                proof {
                    assert(is_honest(sims@, i as int));
                }
            }
        }
        i += 1;
    }
    proof {
        assert(sims@.take(i as int) =~= sims@);
    }
    let max_committed_round: u64 = highest_committed(sims);
    let max_round_with_quorum: u64 = certified.highest_quorum(schedule);
    let progress_note: Option<String> = match rotation {
        None => None,
        Some(rot) => {
            if max_committed_round >= rot.epoch_rounds {
                None
            } else {
                Some(
                    note_text(
                        max_committed_round,
                        rot.epoch_rounds,
                        &counts,
                        max_round_with_quorum,
                    ),
                )
            }
        },
    };
    SimReport {
        safety_violation,
        equivocation_succeeded,
        honest_committed_counts: counts,
        made_progress: progress,
        committed_orders: orders,
        equivocation_evidence_captured: captured,
        max_committed_round,
        max_round_with_quorum,
        progress_note,
    }
}

} // verus!
