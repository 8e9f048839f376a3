//! What keeps a signer from signing two things where it may sign one: its memory of the
//! last own vertex and of the last checkpoint.
use crate::codec::{
    array_at, filled, le_bytes, le_decode, le_encode, lemma_le_bytes_len, lemma_le_round_trip,
    lemma_le_value_round_trip, lemma_pow256,
};
use crate::hash::digests_equal;
use crate::text::{decimal, decimal_text, joined};
use vstd::prelude::*;

verus! {

/// What was signed last.
#[derive(Clone, Copy, Debug, PartialEq, Eq)]
pub struct GuardState {
    pub last_own_round: u64,
    pub last_own_digest: [u8; 32],
    /// Whether an own vertex was signed at all; round 0 is a round like any other.
    pub own_seen: bool,
    pub last_checkpoint_round: u64,
    pub last_checkpoint_root: [u8; 32],
    /// Whether a checkpoint was signed at all; round 0 is a round like any other.
    pub checkpoint_seen: bool,
}

/// The memory of a signer that has signed nothing.
pub open spec fn blank() -> GuardState {
    GuardState {
        last_own_round: 0,
        last_own_digest: filled(0),
        own_seen: false,
        last_checkpoint_round: 0,
        last_checkpoint_root: filled(0),
        checkpoint_seen: false,
    }
}

/// The place of the last own vertex is filled in.
pub open spec fn own_recorded(s: GuardState) -> bool {
    s.last_own_round != 0 || s.last_own_digest != filled(0)
}

/// The bytes of a memory but for whether an own vertex was signed.
pub open spec fn plain_guard_bytes(s: GuardState) -> Seq<u8> {
    le_bytes(s.last_own_round as nat, 8) + s.last_own_digest@ + le_bytes(
        s.last_checkpoint_round as nat,
        8,
    ) + s.last_checkpoint_root@ + seq![
        if s.checkpoint_seen {
            1u8
        } else {
            0u8
        },
    ]
}

/// Where the place of the last own vertex is filled in, an own vertex was signed.
pub open spec fn in_order(s: GuardState) -> bool {
    own_recorded(s) ==> s.own_seen
}

/// The bytes of a memory. That an own vertex was signed is written down only where the place
/// of the last one does not show it: one of round 0 whose digest is all zeros.
pub open spec fn guard_bytes(s: GuardState) -> Seq<u8> {
    if s.own_seen && !own_recorded(s) {
        plain_guard_bytes(s).push(1u8)
    } else {
        plain_guard_bytes(s)
    }
}

/// The bytes of a memory from before checkpoints were guarded.
pub open spec fn old_guard_bytes(s: GuardState) -> Seq<u8> {
    le_bytes(s.last_own_round as nat, 8) + s.last_own_digest@
}

/// `bytes` stand for `s`: in the present form, or in the old one, which is that of an own
/// vertex and says nothing of checkpoints.
pub open spec fn stands_for(bytes: Seq<u8>, s: GuardState) -> bool {
    ||| bytes == guard_bytes(s) && in_order(s)
    ||| bytes == old_guard_bytes(s) && s.last_checkpoint_round == 0 && s.last_checkpoint_root
        == filled(0) && !s.checkpoint_seen && s.own_seen
}

impl GuardState {
    fn empty() -> (state: Self)
        ensures
            state == blank(),
    {
        GuardState {
            last_own_round: 0,
            last_own_digest: [0u8; 32],
            own_seen: false,
            last_checkpoint_round: 0,
            last_checkpoint_root: [0u8; 32],
            checkpoint_seen: false,
        }
    }

    fn shows_own(&self) -> (shown: bool)
        ensures
            shown == own_recorded(*self),
    {
        self.last_own_round != 0 || !digests_equal(&self.last_own_digest, &[0u8; 32])
    }

    /// The bytes of the memory.
    pub fn encode(&self) -> (bytes: Vec<u8>)
        ensures
            bytes@ == guard_bytes(*self),
    {
        let mut out: Vec<u8> = le_encode(self.last_own_round, 8);
        out.extend_from_slice(self.last_own_digest.as_slice());
        let mut round: Vec<u8> = le_encode(self.last_checkpoint_round, 8);
        out.append(&mut round);
        out.extend_from_slice(self.last_checkpoint_root.as_slice());
        if self.checkpoint_seen {
            out.push(1);
        } else {
            out.push(0);
        }
        let shown = self.shows_own();
        proof {
            assert(out@ =~= plain_guard_bytes(*self));
        }
        if self.own_seen && !shown {
            out.push(1);
        }
        out
    }
}

fn number_at(bytes: &[u8], at: usize) -> (n: u64)
    requires
        at + 8 <= bytes@.len(),
    ensures
        le_bytes(n as nat, 8) == bytes@.subrange(at as int, at + 8),
{
    let n: usize = bytes.len();
    proof {
        assert(at + 8 <= n);
    }
    let part = vstd::slice::slice_subrange(bytes, at, at + 8);
    proof {
        lemma_le_value_round_trip(part@);
    }
    le_decode(part)
}

/// What the guard says to a request.
pub ghost enum GuardRuling {
    /// No, and why.
    Refuse(Seq<char>),
    /// Yes: it was signed before.
    Repeat,
    /// Yes, once this is remembered.
    Record(GuardState),
}

/// The ruling on an own vertex.
pub open spec fn own_ruling(state: Option<GuardState>, round: u64, digest: [u8; 32]) -> GuardRuling {
    let base = match state {
        Some(s) => s,
        None => blank(),
    };
    if base.own_seen && round < base.last_own_round {
        GuardRuling::Refuse(
            "refusing to sign own vertex for round "@ + decimal(round as nat)
                + ": already signed a higher round "@ + decimal(base.last_own_round as nat),
        )
    } else if base.own_seen && round == base.last_own_round {
        if base.last_own_digest != digest {
            GuardRuling::Refuse(
                "DOUBLE-SIGN BLOCKED: already signed a DIFFERENT own vertex for round "@ + decimal(
                    round as nat,
                ),
            )
        } else {
            GuardRuling::Repeat
        }
    } else {
        GuardRuling::Record(
            GuardState { last_own_round: round, last_own_digest: digest, own_seen: true, ..base },
        )
    }
}

/// The ruling on a checkpoint.
pub open spec fn checkpoint_ruling(
    state: Option<GuardState>,
    round: u64,
    root: [u8; 32],
) -> GuardRuling {
    let base = match state {
        Some(s) => s,
        None => blank(),
    };
    if base.checkpoint_seen && round < base.last_checkpoint_round {
        GuardRuling::Refuse(
            "refusing to sign checkpoint for round "@ + decimal(round as nat)
                + ": already signed a higher checkpoint round "@ + decimal(
                base.last_checkpoint_round as nat,
            ),
        )
    } else if base.checkpoint_seen && round == base.last_checkpoint_round {
        if base.last_checkpoint_root != root {
            GuardRuling::Refuse(
                "STATE-EQUIVOCATION BLOCKED: already signed a DIFFERENT state root for checkpoint round "@
                    + decimal(round as nat),
            )
        } else {
            GuardRuling::Repeat
        }
    } else {
        GuardRuling::Record(
            GuardState {
                last_checkpoint_round: round,
                last_checkpoint_root: root,
                checkpoint_seen: true,
                ..base
            },
        )
    }
}

/// The memory after a ruling, where remembering worked or failed.
pub open spec fn guard_after(
    state: Option<GuardState>,
    ruling: GuardRuling,
    durable: bool,
) -> Option<GuardState> {
    match ruling {
        GuardRuling::Record(next) if durable => Some(next),
        _ => state,
    }
}

/// Why a request is refused after a ruling, where remembering worked or failed.
pub open spec fn guard_refusal(
    ruling: GuardRuling,
    persisted: Result<(), String>,
) -> Option<Seq<char>> {
    match ruling {
        GuardRuling::Refuse(reason) => Some(reason),
        GuardRuling::Repeat => None,
        GuardRuling::Record(_) => match persisted {
            Ok(_) => None,
            Err(e) => Some("cannot persist double-sign guard: "@ + e@),
        },
    }
}

/// What came of a request, as one of refusal or none.
pub open spec fn refused_with(r: Result<(), String>) -> Option<Seq<char>> {
    match r {
        Ok(_) => None,
        Err(e) => Some(e@),
    }
}

/// A ruling that can be acted on.
pub enum Verdict {
    Refuse(String),
    Repeat,
    Record(GuardState),
}

impl View for Verdict {
    type V = GuardRuling;

    open spec fn view(&self) -> GuardRuling {
        match self {
            Verdict::Refuse(reason) => GuardRuling::Refuse(reason@),
            Verdict::Repeat => GuardRuling::Repeat,
            Verdict::Record(next) => GuardRuling::Record(*next),
        }
    }
}

/// The guard of a signer.
pub struct DoubleSignGuard {
    state: Option<GuardState>,
}

impl DoubleSignGuard {
    /// What is remembered.
    pub closed spec fn view(&self) -> Option<GuardState> {
        self.state
    }

    /// The guard that the bytes of its file stand for. No bytes are no memory; bytes that
    /// stand for none are an error, so that nothing is forgotten.
    pub fn load(bytes: &[u8]) -> (guard: Option<Self>)
        ensures
            match guard {
                Some(g) => match g@ {
                    None => bytes@.len() == 0,
                    Some(s) => stands_for(bytes@, s),
                },
                None => bytes@.len() != 0 && forall|s: GuardState| !#[trigger] stands_for(bytes@, s),
            },
    {
        if bytes.len() == 0 {
            return Some(DoubleSignGuard { state: None });
        }
        match Self::decode_state(bytes) {
            Some(s) => Some(DoubleSignGuard { state: Some(s) }),
            None => None,
        }
    }

    /// The memory that `bytes` stand for.
    pub fn decode_state(bytes: &[u8]) -> (state: Option<GuardState>)
        ensures
            match state {
                Some(s) => stands_for(bytes@, s),
                None => forall|s: GuardState| !#[trigger] stands_for(bytes@, s),
            },
    {
        if (bytes.len() == 81 || bytes.len() == 82) && bytes[80] <= 1 {
            let mut state = GuardState {
                last_own_round: number_at(bytes, 0),
                last_own_digest: array_at(bytes, 8),
                own_seen: false,
                last_checkpoint_round: number_at(bytes, 40),
                last_checkpoint_root: array_at(bytes, 48),
                checkpoint_seen: bytes[80] == 1,
            };
            state.own_seen = state.shows_own();
            proof {
                assert(bytes@.take(81) =~= plain_guard_bytes(state));
            }
            if bytes.len() == 81 {
                proof {
                    assert(bytes@ =~= guard_bytes(state));
                }
                return Some(state);
            }
            if bytes[81] == 1 && !state.own_seen {
                state.own_seen = true;
                proof {
                    assert(bytes@ =~= guard_bytes(state));
                }
                return Some(state);
            }
            proof {
                assert forall|s: GuardState| !#[trigger] stands_for(bytes@, s) by {
                    lemma_guard_bytes_len(s);
                    if bytes@ == guard_bytes(s) {
                        assert(plain_guard_bytes(s) =~= bytes@.take(81));
                        lemma_plain_bytes(s, state);
                        assert(guard_bytes(s)[81] == bytes@[81]);
                    }
                }
            }
            return None;
        }
        if bytes.len() == 40 {
            let state = GuardState {
                last_own_round: number_at(bytes, 0),
                last_own_digest: array_at(bytes, 8),
                own_seen: true,
                last_checkpoint_round: 0,
                last_checkpoint_root: [0u8; 32],
                checkpoint_seen: false,
            };
            proof {
                assert(bytes@ =~= old_guard_bytes(state));
            }
            return Some(state);
        }
        proof {
            assert forall|s: GuardState| !#[trigger] stands_for(bytes@, s) by {
                lemma_guard_bytes_len(s);
                assert(guard_bytes(s)[80] <= 1);
            }
        }
        None
    }

    /// What has to be said to an own vertex, and what has to be remembered first.
    pub fn own_verdict(&self, round: u64, digest: &[u8; 32]) -> (verdict: Verdict)
        ensures
            verdict@ == own_ruling(self@, round, *digest),
    {
        if let Some(s) = self.state {
            if s.own_seen && round < s.last_own_round {
                let head = joined(
                    "refusing to sign own vertex for round ",
                    decimal_text(round).as_str(),
                );
                let tail = joined(
                    ": already signed a higher round ",
                    decimal_text(s.last_own_round).as_str(),
                );
                let reason = joined(head.as_str(), tail.as_str());
                proof {
                    assert(reason@ =~= own_ruling(self@, round, *digest)->Refuse_0);
                }
                return Verdict::Refuse(reason);
            }
            if s.own_seen && round == s.last_own_round {
                if !digests_equal(&s.last_own_digest, digest) {
                    return Verdict::Refuse(
                        joined(
                            "DOUBLE-SIGN BLOCKED: already signed a DIFFERENT own vertex for round ",
                            decimal_text(round).as_str(),
                        ),
                    );
                }
                return Verdict::Repeat;
            }
        }
        let mut next = match self.state {
            Some(s) => s,
            None => GuardState::empty(),
        };
        next.last_own_round = round;
        next.last_own_digest = *digest;
        next.own_seen = true;
        Verdict::Record(next)
    }

    /// What has to be said to a checkpoint, and what has to be remembered first.
    pub fn checkpoint_verdict(&self, round: u64, root: &[u8; 32]) -> (verdict: Verdict)
        ensures
            verdict@ == checkpoint_ruling(self@, round, *root),
    {
        if let Some(s) = self.state {
            if s.checkpoint_seen {
                if round < s.last_checkpoint_round {
                    let head = joined(
                        "refusing to sign checkpoint for round ",
                        decimal_text(round).as_str(),
                    );
                    let tail = joined(
                        ": already signed a higher checkpoint round ",
                        decimal_text(s.last_checkpoint_round).as_str(),
                    );
                    let reason = joined(head.as_str(), tail.as_str());
                    proof {
                        assert(reason@ =~= checkpoint_ruling(self@, round, *root)->Refuse_0);
                    }
                    return Verdict::Refuse(reason);
                }
                if round == s.last_checkpoint_round {
                    if !digests_equal(&s.last_checkpoint_root, root) {
                        return Verdict::Refuse(
                            joined(
                                "STATE-EQUIVOCATION BLOCKED: already signed a DIFFERENT state root for checkpoint round ",
                                decimal_text(round).as_str(),
                            ),
                        );
                    }
                    return Verdict::Repeat;
                }
            }
        }
        let mut next = match self.state {
            Some(s) => s,
            None => GuardState::empty(),
        };
        next.last_checkpoint_round = round;
        next.last_checkpoint_root = *root;
        next.checkpoint_seen = true;
        Verdict::Record(next)
    }

    /// Remembers `next`, which was made durable before.
    pub fn remember(&mut self, next: GuardState)
        ensures
            final(self)@ == Some(next),
    {
        self.state = Some(next);
    }

    /// Takes a verdict over. Where something has to be remembered, `persisted` says
    /// whether it was made durable; only then is it remembered and allowed.
    fn settle(&mut self, verdict: Verdict, persisted: Result<(), String>) -> (done: Result<
        (),
        String,
    >)
        ensures
            refused_with(done) == guard_refusal(verdict@, persisted),
            final(self)@ == guard_after(old(self)@, verdict@, persisted is Ok),
    {
        match verdict {
            Verdict::Refuse(reason) => Err(reason),
            Verdict::Repeat => Ok(()),
            Verdict::Record(next) => match persisted {
                Ok(_) => {
                    self.state = Some(next);
                    Ok(())
                },
                Err(e) => Err(joined("cannot persist double-sign guard: ", e.as_str())),
            },
        }
    }

    /// Checks and remembers an own vertex. What `own_verdict` wants remembered is made
    /// durable before, and `persisted` says how that went.
    pub fn check_and_record_own(
        &mut self,
        round: u64,
        digest: &[u8; 32],
        persisted: Result<(), String>,
    ) -> (done: Result<(), String>)
        ensures
            refused_with(done) == guard_refusal(own_ruling(old(self)@, round, *digest), persisted),
            final(self)@ == guard_after(
                old(self)@,
                own_ruling(old(self)@, round, *digest),
                persisted is Ok,
            ),
    {
        let verdict = self.own_verdict(round, digest);
        self.settle(verdict, persisted)
    }

    /// Checks and remembers a checkpoint. What `checkpoint_verdict` wants remembered is
    /// made durable before, and `persisted` says how that went.
    pub fn check_and_record_checkpoint(
        &mut self,
        round: u64,
        root: &[u8; 32],
        persisted: Result<(), String>,
    ) -> (done: Result<(), String>)
        ensures
            refused_with(done) == guard_refusal(
                checkpoint_ruling(old(self)@, round, *root),
                persisted,
            ),
            final(self)@ == guard_after(
                old(self)@,
                checkpoint_ruling(old(self)@, round, *root),
                persisted is Ok,
            ),
    {
        let verdict = self.checkpoint_verdict(round, root);
        self.settle(verdict, persisted)
    }
}

proof fn lemma_guard_bytes_len(s: GuardState)
    ensures
        plain_guard_bytes(s).len() == 81,
        guard_bytes(s).len() == if s.own_seen && !own_recorded(s) {
            82int
        } else {
            81int
        },
        guard_bytes(s).take(81) == plain_guard_bytes(s),
        guard_bytes(s)[80] <= 1,
        old_guard_bytes(s).len() == 40,
{
    lemma_le_bytes_len(s.last_own_round as nat, 8);
    lemma_le_bytes_len(s.last_checkpoint_round as nat, 8);
    assert(guard_bytes(s).take(81) =~= plain_guard_bytes(s));
}

proof fn lemma_own_bytes(a: GuardState, b: GuardState)
    requires
        old_guard_bytes(a) == old_guard_bytes(b),
    ensures
        a.last_own_round == b.last_own_round,
        a.last_own_digest == b.last_own_digest,
{
    let x = old_guard_bytes(a);
    let y = old_guard_bytes(b);
    lemma_pow256();
    lemma_le_round_trip(a.last_own_round as nat, 8);
    lemma_le_round_trip(b.last_own_round as nat, 8);
    lemma_le_bytes_len(a.last_own_round as nat, 8);
    lemma_le_bytes_len(b.last_own_round as nat, 8);
    assert(x.take(8) =~= le_bytes(a.last_own_round as nat, 8));
    assert(y.take(8) =~= le_bytes(b.last_own_round as nat, 8));
    assert(x.skip(8) =~= a.last_own_digest@);
    assert(y.skip(8) =~= b.last_own_digest@);
    assert(a.last_own_digest =~= b.last_own_digest);
}

proof fn lemma_plain_bytes(a: GuardState, b: GuardState)
    requires
        plain_guard_bytes(a) == plain_guard_bytes(b),
    ensures
        a == (GuardState { own_seen: a.own_seen, ..b }),
{
    let u = plain_guard_bytes(a);
    let v = plain_guard_bytes(b);
    lemma_pow256();
    lemma_le_round_trip(a.last_checkpoint_round as nat, 8);
    lemma_le_round_trip(b.last_checkpoint_round as nat, 8);
    lemma_le_bytes_len(a.last_own_round as nat, 8);
    lemma_le_bytes_len(b.last_own_round as nat, 8);
    lemma_le_bytes_len(a.last_checkpoint_round as nat, 8);
    lemma_le_bytes_len(b.last_checkpoint_round as nat, 8);
    assert(old_guard_bytes(a) =~= u.take(40) && old_guard_bytes(b) =~= v.take(40));
    lemma_own_bytes(a, b);
    assert(u.subrange(40, 48) =~= le_bytes(a.last_checkpoint_round as nat, 8));
    assert(v.subrange(40, 48) =~= le_bytes(b.last_checkpoint_round as nat, 8));
    assert(u.subrange(48, 80) =~= a.last_checkpoint_root@);
    assert(v.subrange(48, 80) =~= b.last_checkpoint_root@);
    assert(a.last_checkpoint_root =~= b.last_checkpoint_root);
    assert(u[80] == v[80]);
}

/// A memory is read back as it was written, and an old file as what it says.
pub proof fn law_guard_round_trip(a: GuardState, b: GuardState)
    requires
        in_order(a),
    ensures
        stands_for(guard_bytes(a), b) <==> a == b,
        a.last_checkpoint_round == 0 && a.last_checkpoint_root == filled(0) && !a.checkpoint_seen
            && a.own_seen ==> (stands_for(old_guard_bytes(a), b) <==> a == b),
{
    lemma_guard_bytes_len(a);
    lemma_guard_bytes_len(b);
    if stands_for(guard_bytes(a), b) {
        assert(guard_bytes(a) == guard_bytes(b));
        lemma_plain_bytes(a, b);
        if a.own_seen != b.own_seen {
            assert(guard_bytes(a).len() == guard_bytes(b).len());
        }
    }
    if old_guard_bytes(a) == old_guard_bytes(b) {
        lemma_own_bytes(a, b);
    }
}

/// Bytes that are neither a memory of the present form nor of the old one stand for nothing:
/// in particular, nothing may follow the bytes of a memory that shows its own vertex.
pub proof fn law_nothing_follows_a_memory(s: GuardState, rest: Seq<u8>, other: GuardState)
    requires
        own_recorded(s),
        rest.len() > 0,
    ensures
        !stands_for(plain_guard_bytes(s) + rest, other),
{
    let bytes = plain_guard_bytes(s) + rest;
    lemma_guard_bytes_len(s);
    lemma_guard_bytes_len(other);
    if bytes == guard_bytes(other) {
        assert(bytes.take(81) =~= plain_guard_bytes(s));
        lemma_plain_bytes(s, other);
    }
}

/// Something that the guard is asked about, and whether remembering it works.
pub ghost enum Attempt {
    Own { round: u64, digest: [u8; 32], durable: bool },
    Checkpoint { round: u64, root: [u8; 32], durable: bool },
}

/// The ruling on an attempt.
pub open spec fn attempt_ruling(state: Option<GuardState>, a: Attempt) -> GuardRuling {
    match a {
        Attempt::Own { round, digest, durable } => own_ruling(state, round, digest),
        Attempt::Checkpoint { round, root, durable } => checkpoint_ruling(state, round, root),
    }
}

/// Remembering the attempt works.
pub open spec fn is_durable(a: Attempt) -> bool {
    match a {
        Attempt::Own { round, digest, durable } => durable,
        Attempt::Checkpoint { round, root, durable } => durable,
    }
}

/// The memory after the first `n` attempts.
pub open spec fn guard_run(
    start: Option<GuardState>,
    attempts: Seq<Attempt>,
    n: nat,
) -> Option<GuardState>
    decreases n,
{
    if n == 0 {
        start
    } else {
        let before = guard_run(start, attempts, (n - 1) as nat);
        let a = attempts[n - 1];
        guard_after(before, attempt_ruling(before, a), is_durable(a))
    }
}

/// Whatever is asked, a memory that is in order stays in order.
pub proof fn law_memory_stays_in_order(
    start: Option<GuardState>,
    attempts: Seq<Attempt>,
    n: nat,
)
    requires
        start is Some ==> in_order(start->0),
        n <= attempts.len(),
    ensures
        guard_run(start, attempts, n) matches Some(s) ==> in_order(s),
    decreases n,
{
    if n > 0 {
        law_memory_stays_in_order(start, attempts, (n - 1) as nat);
    }
}

/// The attempt at `i` is allowed.
pub open spec fn allowed_at(start: Option<GuardState>, attempts: Seq<Attempt>, i: int) -> bool {
    match attempt_ruling(guard_run(start, attempts, i as nat), attempts[i]) {
        GuardRuling::Refuse(_) => false,
        GuardRuling::Repeat => true,
        GuardRuling::Record(_) => is_durable(attempts[i]),
    }
}

proof fn lemma_own_is_remembered(
    start: Option<GuardState>,
    attempts: Seq<Attempt>,
    i: int,
    j: nat,
)
    requires
        0 <= i < j <= attempts.len(),
        attempts[i] is Own,
        allowed_at(start, attempts, i),
    ensures
        ({
            let s = guard_run(start, attempts, j);
            &&& s is Some
            &&& s->0.own_seen
            &&& s->0.last_own_round >= attempts[i]->Own_round
            &&& s->0.last_own_round == attempts[i]->Own_round ==> s->0.last_own_digest
                == attempts[i]->Own_digest
        }),
    decreases j,
{
    if i < j - 1 {
        lemma_own_is_remembered(start, attempts, i, (j - 1) as nat);
    }
}

proof fn lemma_checkpoint_is_remembered(
    start: Option<GuardState>,
    attempts: Seq<Attempt>,
    i: int,
    j: nat,
)
    requires
        0 <= i < j <= attempts.len(),
        attempts[i] is Checkpoint,
        allowed_at(start, attempts, i),
    ensures
        ({
            let s = guard_run(start, attempts, j);
            &&& s is Some
            &&& s->0.checkpoint_seen
            &&& s->0.last_checkpoint_round >= attempts[i]->Checkpoint_round
            &&& s->0.last_checkpoint_round == attempts[i]->Checkpoint_round
                ==> s->0.last_checkpoint_root == attempts[i]->Checkpoint_root
        }),
    decreases j,
{
    if i < j - 1 {
        lemma_checkpoint_is_remembered(start, attempts, i, (j - 1) as nat);
    }
}

/// Whatever is asked, and whether or not remembering works each time: of two own vertices
/// that are allowed, the later one is not of an earlier round, and if both are of one
/// round they are the same vertex.
pub proof fn law_no_double_sign(
    start: Option<GuardState>,
    attempts: Seq<Attempt>,
    i: int,
    j: int,
)
    requires
        0 <= i < j < attempts.len(),
        attempts[i] is Own,
        attempts[j] is Own,
        allowed_at(start, attempts, i),
        allowed_at(start, attempts, j),
    ensures
        attempts[i]->Own_round <= attempts[j]->Own_round,
        attempts[i]->Own_round == attempts[j]->Own_round ==> attempts[i]->Own_digest
            == attempts[j]->Own_digest,
{
    lemma_own_is_remembered(start, attempts, i, j as nat);
}

/// The same holds of checkpoints and their roots.
pub proof fn law_no_state_equivocation(
    start: Option<GuardState>,
    attempts: Seq<Attempt>,
    i: int,
    j: int,
)
    requires
        0 <= i < j < attempts.len(),
        attempts[i] is Checkpoint,
        attempts[j] is Checkpoint,
        allowed_at(start, attempts, i),
        allowed_at(start, attempts, j),
    ensures
        attempts[i]->Checkpoint_round <= attempts[j]->Checkpoint_round,
        attempts[i]->Checkpoint_round == attempts[j]->Checkpoint_round
            ==> attempts[i]->Checkpoint_root == attempts[j]->Checkpoint_root,
{
    lemma_checkpoint_is_remembered(start, attempts, i, j as nat);
}

/// The last own vertex, where one was signed.
pub open spec fn own_part(state: Option<GuardState>) -> Option<(u64, [u8; 32])> {
    if state is Some && state->0.own_seen {
        Some((state->0.last_own_round, state->0.last_own_digest))
    } else {
        None
    }
}

/// The last checkpoint, where one was signed.
pub open spec fn checkpoint_part(state: Option<GuardState>) -> Option<(u64, [u8; 32])> {
    if state is Some && state->0.checkpoint_seen {
        Some((state->0.last_checkpoint_round, state->0.last_checkpoint_root))
    } else {
        None
    }
}

/// Two rulings say the same; what is to be remembered aside.
pub open spec fn rule_alike(a: GuardRuling, b: GuardRuling) -> bool {
    match a {
        GuardRuling::Refuse(reason) => b == GuardRuling::Refuse(reason),
        GuardRuling::Repeat => b is Repeat,
        GuardRuling::Record(_) => b is Record,
    }
}

/// Whatever is remembered, asking about an own vertex changes nothing of what is remembered
/// and ruled of checkpoints, and the other way round.
pub proof fn law_guards_do_not_interfere(
    state: Option<GuardState>,
    round: u64,
    digest: [u8; 32],
    durable: bool,
    later_round: u64,
    later_digest: [u8; 32],
)
    ensures
        ({
            let s = guard_after(state, own_ruling(state, round, digest), durable);
            &&& checkpoint_part(s) == checkpoint_part(state)
            &&& rule_alike(
                checkpoint_ruling(state, later_round, later_digest),
                checkpoint_ruling(s, later_round, later_digest),
            )
        }),
        ({
            let s = guard_after(state, checkpoint_ruling(state, round, digest), durable);
            &&& own_part(s) == own_part(state)
            &&& rule_alike(
                own_ruling(state, later_round, later_digest),
                own_ruling(s, later_round, later_digest),
            )
        }),
{
}

/// Where no own vertex was signed yet, the first one is allowed, once it is remembered: of
/// whatever round, and whatever checkpoints were signed.
pub proof fn law_first_own_vertex_is_allowed(
    state: Option<GuardState>,
    round: u64,
    digest: [u8; 32],
)
    requires
        state is Some ==> !state->0.own_seen,
    ensures
        own_ruling(state, round, digest) is Record,
{
}

/// A vertex of a round above all earlier ones is allowed, once it is remembered.
pub proof fn law_higher_round_is_allowed(state: Option<GuardState>, round: u64, digest: [u8; 32])
    requires
        own_part(state) matches Some(last) ==> round > last.0,
    ensures
        own_ruling(state, round, digest) is Record,
{
}

} // verus!
