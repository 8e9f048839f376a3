//! How often a signer signs, and for which chain.
use vstd::prelude::*;

verus! {

/// At most `max_signs` signatures in any `window`, which is counted in nanoseconds.
#[derive(Clone, Copy, Debug)]
pub struct RateLimit {
    pub max_signs: u32,
    pub window: u64,
}

/// What a signer holds to beside its guard.
#[derive(Clone, Copy, Debug)]
pub struct SignerPolicy {
    /// The chain for which it signs, where it is bound to one.
    pub expected_chain_id: Option<[u8; 32]>,
    /// How often it signs, where that is limited.
    pub rate_limit: Option<RateLimit>,
}

impl SignerPolicy {
    /// Every chain, and no limit.
    pub fn permissive() -> (policy: Self)
        ensures
            policy.expected_chain_id is None,
            policy.rate_limit is None,
    {
        SignerPolicy { expected_chain_id: None, rate_limit: None }
    }
}

impl Default for SignerPolicy {
    fn default() -> (policy: Self)
        ensures
            policy.expected_chain_id is None,
            policy.rate_limit is None,
    {
        SignerPolicy::permissive()
    }
}

/// How long `then` lies before `now`; nothing where it does not.
pub open spec fn elapsed(now: u64, then: u64) -> nat {
    if now >= then {
        (now - then) as nat
    } else {
        0
    }
}

fn has_left(now: u64, then: u64, window: u64) -> (left: bool)
    ensures
        left == (elapsed(now, then) >= window),
{
    now.saturating_sub(then) >= window
}

/// `recent` without the times at its front that have left the window.
pub open spec fn pruned(recent: Seq<u64>, now: u64, window: u64) -> Seq<u64>
    decreases recent.len(),
{
    if recent.len() > 0 && elapsed(now, recent[0]) >= window {
        pruned(recent.skip(1), now, window)
    } else {
        recent
    }
}

/// The remembered times after a request, and whether it is admitted.
pub open spec fn admission(limit: RateLimit, recent: Seq<u64>, now: u64) -> (Seq<u64>, bool) {
    let kept = pruned(recent, now, limit.window);
    if kept.len() >= limit.max_signs {
        (kept, false)
    } else {
        (kept.push(now), true)
    }
}

/// A limiter over a sliding window of time.
pub struct RateLimiter {
    limit: Option<RateLimit>,
    recent: Vec<u64>,
}

impl RateLimiter {
    /// The limit.
    pub closed spec fn limited(&self) -> Option<RateLimit> {
        self.limit
    }

    /// The times that are remembered, oldest first.
    pub closed spec fn view(&self) -> Seq<u64> {
        self.recent@
    }

    /// No more times are remembered than the limit allows.
    pub open spec fn wf(&self) -> bool {
        match self.limited() {
            Some(l) => self@.len() <= l.max_signs,
            None => true,
        }
    }

    /// A limiter that has seen nothing.
    pub fn new(limit: Option<RateLimit>) -> (limiter: Self)
        ensures
            limiter.wf(),
            limiter.limited() == limit,
            limiter@ == Seq::<u64>::empty(),
    {
        RateLimiter { limit, recent: Vec::new() }
    }

    /// A limiter that admits everything.
    pub fn unlimited() -> (limiter: Self)
        ensures
            limiter.wf(),
            limiter.limited() is None,
            limiter@ == Seq::<u64>::empty(),
    {
        Self::new(None)
    }

    /// Whether a request at the time `now` is admitted.
    pub fn allow_at(&mut self, now: u64) -> (admitted: bool)
        requires
            old(self).wf(),
        ensures
            final(self).wf(),
            final(self).limited() == old(self).limited(),
            match old(self).limited() {
                None => admitted && final(self)@ == old(self)@,
                Some(l) => (final(self)@, admitted) == admission(l, old(self)@, now),
            },
    {
        match self.limit {
            None => true,
            Some(l) => {
                let ghost before = self.recent@;
                let mut gone: usize = 0;
                proof {
                    assert(before.skip(0) =~= before);
                }
                while gone < self.recent.len() && has_left(now, self.recent[gone], l.window)
                    invariant
                        gone <= self.recent@.len(),
                        self.recent@ == before,
                        pruned(before.skip(gone as int), now, l.window) == pruned(
                            before,
                            now,
                            l.window,
                        ),
                    decreases self.recent@.len() - gone,
                {
                    proof {
                        assert(before.skip(gone as int).skip(1) =~= before.skip(gone + 1));
                    }
                    gone += 1;
                }
                let kept = self.recent.split_off(gone);
                self.recent = kept;
                proof {
                    assert(self.recent@ =~= before.skip(gone as int));
                    assert(self.recent@ == pruned(before, now, l.window));
                }
                if self.recent.len() >= l.max_signs as usize {
                    return false;
                }
                self.recent.push(now);
                true
            },
        }
    }
}

/// The times that are remembered, and all times that were admitted, after requests at
/// `times`.
pub open spec fn admitted_so_far(limit: RateLimit, times: Seq<u64>) -> (Seq<u64>, Seq<u64>)
    decreases times.len(),
{
    if times.len() == 0 {
        (Seq::empty(), Seq::empty())
    } else {
        let before = admitted_so_far(limit, times.drop_last());
        let now = times.last();
        let step = admission(limit, before.0, now);
        (
            step.0,
            if step.1 {
                before.1.push(now)
            } else {
                before.1
            },
        )
    }
}

/// Time does not run backwards.
pub open spec fn in_order(times: Seq<u64>) -> bool {
    forall|i: int, j: int| 0 <= i <= j < times.len() ==> times[i] <= times[j]
}

/// `recent` is what `all` holds behind the first `k`, and those have left the window.
spec fn is_tail(recent: Seq<u64>, all: Seq<u64>, k: int, now: u64, window: u64) -> bool {
    &&& 0 <= k <= all.len()
    &&& recent == all.skip(k)
    &&& forall|i: int| 0 <= i < k ==> now >= #[trigger] all[i] && now - all[i] >= window
}

proof fn lemma_pruned_is_tail(
    recent: Seq<u64>,
    all: Seq<u64>,
    k: int,
    now: u64,
    window: u64,
) -> (m: int)
    requires
        is_tail(recent, all, k, now, window),
        forall|i: int| 0 <= i < all.len() ==> #[trigger] all[i] <= now,
    ensures
        is_tail(pruned(recent, now, window), all, m, now, window),
        m >= k,
    decreases recent.len(),
{
    if recent.len() > 0 && elapsed(now, recent[0]) >= window {
        assert(recent[0] == all[k]);
        assert(recent.skip(1) =~= all.skip(k + 1));
        lemma_pruned_is_tail(recent.skip(1), all, k + 1, now, window)
    } else {
        k
    }
}

proof fn lemma_admitted(limit: RateLimit, times: Seq<u64>) -> (k: int)
    requires
        in_order(times),
    ensures
        ({
            let r = admitted_so_far(limit, times);
            &&& in_order(r.1)
            &&& r.0.len() <= limit.max_signs
            &&& times.len() == 0 ==> r.1.len() == 0
            &&& times.len() > 0 ==> is_tail(r.0, r.1, k, times.last(), limit.window)
            &&& forall|i: int|
                0 <= i < r.1.len() ==> times.len() > 0 && #[trigger] r.1[i] <= times.last()
            &&& forall|i: int, j: int|
                0 <= i && i + limit.max_signs <= j < r.1.len() ==> (#[trigger] r.1[j])
                    - (#[trigger] r.1[i]) >= limit.window
        }),
    decreases times.len(),
{
    if times.len() == 0 {
        0
    } else {
        let t = times.drop_last();
        let now = times.last();
        assert(in_order(t)) by {
            assert forall|i: int, j: int| 0 <= i <= j < t.len() implies t[i] <= t[j] by {
                assert(times[i] <= times[j]);
            }
        }
        let k = lemma_admitted(limit, t);
        let before = admitted_so_far(limit, t);
        let all = before.1;
        assert forall|i: int| 0 <= i < all.len() implies #[trigger] all[i] <= now by {
            assert(times[t.len() - 1] <= times[times.len() - 1]);
        }
        let k0 = if t.len() == 0 {
            0
        } else {
            k
        };
        assert(is_tail(before.0, all, k0, now, limit.window)) by {
            if t.len() > 0 {
                assert(times[t.len() - 1] <= times[times.len() - 1]);
                assert forall|i: int| 0 <= i < k0 implies now >= #[trigger] all[i] && now - all[i]
                    >= limit.window by {
                    assert(t.last() - all[i] >= limit.window);
                }
            } else {
                assert(before.0 =~= all.skip(0));
            }
        }
        let m = lemma_pruned_is_tail(before.0, all, k0, now, limit.window);
        let kept = pruned(before.0, now, limit.window);
        let r = admitted_so_far(limit, times);
        if kept.len() < limit.max_signs {
            assert(r.1 == all.push(now));
            assert(r.0 =~= r.1.skip(m));
            assert forall|i: int| 0 <= i < m implies now >= #[trigger] r.1[i] && now - r.1[i]
                >= limit.window by {
                assert(r.1[i] == all[i]);
            }
            assert forall|i: int, j: int|
                0 <= i && i + limit.max_signs <= j < r.1.len() implies (#[trigger] r.1[j])
                - (#[trigger] r.1[i]) >= limit.window by {
                assert(kept.len() == all.len() - m);
                assert(r.1[i] == all[i]);
                if j < all.len() {
                    assert(r.1[j] == all[j]);
                    assert(all[j] - all[i] >= limit.window);
                } else {
                    assert(i < m);
                    assert(now - all[i] >= limit.window);
                }
            }
        }
        m
    }
}

/// However the requests come, no more than `max_signs` of them are admitted in any
/// window: of the times that were admitted, each lies a whole window behind the one that
/// comes `max_signs` later.
pub proof fn law_window_is_kept(limit: RateLimit, times: Seq<u64>, i: int, j: int)
    requires
        in_order(times),
        0 <= i,
        i + limit.max_signs <= j < admitted_so_far(limit, times).1.len(),
    ensures
        admitted_so_far(limit, times).1[j] - admitted_so_far(limit, times).1[i] >= limit.window,
{
    let k = lemma_admitted(limit, times);
}

/// A request is admitted where all remembered times have left the window.
pub proof fn law_limiter_recovers(limit: RateLimit, recent: Seq<u64>, now: u64)
    requires
        limit.max_signs > 0,
        forall|i: int| 0 <= i < recent.len() ==> elapsed(now, #[trigger] recent[i]) >= limit.window,
    ensures
        admission(limit, recent, now) == (seq![now], true),
    decreases recent.len(),
{
    if recent.len() > 0 {
        assert forall|i: int| 0 <= i < recent.skip(1).len() implies elapsed(
            now,
            #[trigger] recent.skip(1)[i],
        ) >= limit.window by {
            assert(recent.skip(1)[i] == recent[i + 1]);
        }
        law_limiter_recovers(limit, recent.skip(1), now);
        assert(pruned(recent, now, limit.window) == pruned(recent.skip(1), now, limit.window));
    } else {
        assert(recent.push(now) =~= seq![now]);
    }
}

} // verus!
