//! How often a client of the wallet, or one signed transaction, is let through.
use crate::keymap::KeyMap;
use crate::signer_policy::elapsed;
use vstd::prelude::*;

verus! {

/// The length of a window, in nanoseconds: ten seconds.
pub const RL_WINDOW: u64 = 10_000_000_000;

/// How long to wait between two sweeps, in nanoseconds: one second.
pub const SWEEP_PAUSE: u64 = 1_000_000_000;

/// How many keys are tracked at most.
pub const MAX_TRACKED_KEYS: usize = 100_000;

/// The limit for one address and window on a public wallet without a configured one.
pub const DEFAULT_SIM_PER_IP_10S: u32 = 8;

/// The lowest limit for one address and window on a public wallet.
pub const MIN_SIM_PER_IP_10S: u32 = 5;

/// The limit for one transaction and window.
pub const SIM_PER_TXID_10S: u32 = 20;

/// When the current window of a key began, and how often the key came since.
#[derive(Clone, Copy, Debug)]
pub struct Window {
    pub start: u64,
    pub count: u32,
}

/// What is counted: a window for each key, and when there was a sweep last.
pub struct Counts {
    pub windows: Map<[u8; 32], Window>,
    pub last_gc: u64,
}

/// The window has not passed.
pub open spec fn is_live(w: Window, now: u64) -> bool {
    elapsed(now, w.start) < RL_WINDOW
}

/// The windows that have not passed.
pub open spec fn live_windows(windows: Map<[u8; 32], Window>, now: u64) -> Map<[u8; 32], Window> {
    Map::new(|k: [u8; 32]| windows.contains_key(k) && is_live(windows[k], now), |k: [u8; 32]| windows[k])
}

/// What is left after the sweep that comes before a request: nothing changes while there
/// is room, or where the last sweep was a moment ago.
pub open spec fn swept(c: Counts, now: u64) -> Counts {
    if c.windows.len() >= MAX_TRACKED_KEYS && elapsed(now, c.last_gc) >= SWEEP_PAUSE {
        Counts { windows: live_windows(c.windows, now), last_gc: now }
    } else {
        c
    }
}

/// How often the key came in its current window.
pub open spec fn used(c: Counts, key: [u8; 32], now: u64) -> u32 {
    if c.windows.contains_key(key) && is_live(c.windows[key], now) {
        c.windows[key].count
    } else {
        0
    }
}

/// One more, up to the largest number.
pub open spec fn one_more(n: u32) -> u32 {
    if n < u32::MAX {
        (n + 1) as u32
    } else {
        n
    }
}

/// The window of a key after one more request.
pub open spec fn next_window(c: Counts, key: [u8; 32], now: u64) -> Window {
    Window {
        start: if c.windows.contains_key(key) && is_live(c.windows[key], now) {
            c.windows[key].start
        } else {
            now
        },
        count: one_more(used(c, key, now)),
    }
}

/// There is no room for the key.
pub open spec fn is_full_for(c: Counts, key: [u8; 32]) -> bool {
    c.windows.len() >= MAX_TRACKED_KEYS && !c.windows.contains_key(key)
}

/// The counts after a request, and whether it is let through.
pub open spec fn request(c: Counts, key: [u8; 32], limit: u32, now: u64) -> (Counts, bool) {
    let s = swept(c, now);
    if is_full_for(s, key) {
        (s, false)
    } else {
        let w = next_window(s, key, now);
        (Counts { windows: s.windows.insert(key, w), last_gc: s.last_gc }, w.count <= limit)
    }
}

/// A window for each of a bounded number of keys.
pub struct WindowMap {
    map: KeyMap<Window>,
    last_gc: u64,
}

impl WindowMap {
    /// What is counted.
    pub closed spec fn view(&self) -> Counts {
        Counts { windows: self.map@, last_gc: self.last_gc }
    }

    /// No more keys are tracked than there is room for.
    pub closed spec fn wf(&self) -> bool {
        &&& self.map.wf()
        &&& self.map@.len() <= MAX_TRACKED_KEYS
    }

    /// No more keys are tracked than there is room for.
    pub proof fn law_tracked_keys_are_bounded(&self)
        requires
            self.wf(),
        ensures
            self@.windows.len() <= MAX_TRACKED_KEYS,
    {
    }

    /// Nothing is counted yet.
    pub fn new(now: u64) -> (map: Self)
        ensures
            map.wf(),
            map@ == (Counts { windows: Map::empty(), last_gc: now }),
    {
        WindowMap { map: KeyMap::new(), last_gc: now }
    }

    /// Drops the windows that have passed.
    fn sweep(&mut self, now: u64)
        requires
            old(self).wf(),
        ensures
            final(self).wf(),
            final(self)@ == (Counts { windows: live_windows(old(self)@.windows, now), last_gc: now }),
    {
        let ghost before = self.map@;
        let mut kept: KeyMap<Window> = KeyMap::new();
        let n: usize = self.map.len();
        let mut i: usize = 0;
        proof {
            self.map.lemma_listed();
        }
        while i < n
            invariant
                i <= n == self.map.listed().len(),
                self.map.wf(),
                self.map@ == before,
                n == before.len(),
                kept.wf(),
                kept@.len() <= i,
                forall|k: [u8; 32]| #[trigger]
                    kept@.contains_key(k) ==> before.contains_key(k) && is_live(before[k], now)
                        && kept@[k] == before[k],
                forall|j: int|
                    0 <= j < i && is_live(self.map.listed()[j].1, now) ==> kept@.contains_key(
                        #[trigger] self.map.listed()[j].0,
                    ),
                forall|j: int|
                    0 <= j < n ==> before.contains_key(#[trigger] self.map.listed()[j].0)
                        && before[self.map.listed()[j].0] == self.map.listed()[j].1,
            decreases n - i,
        {
            let entry = self.map.entry(i);
            let w: Window = entry.1;
            if now.saturating_sub(w.start) < RL_WINDOW {
                let key: [u8; 32] = entry.0;
                proof {
                    kept.lemma_listed();
                }
                kept.insert(key, w);
            }
            i += 1;
        }
        proof {
            self.map.lemma_listed();
            kept.lemma_listed();
            let live = live_windows(before, now);
            assert forall|k: [u8; 32]| #[trigger] live.contains_key(k) implies kept@.contains_key(k) by {
                let j = choose|j: int|
                    0 <= j < self.map.listed().len() && #[trigger] self.map.listed()[j].0 == k;
                assert(before[self.map.listed()[j].0] == self.map.listed()[j].1);
            }
            assert(kept@ =~= live);
        }
        self.map = kept;
        self.last_gc = now;
    }

    /// Counts a request of `key` and says whether it is within the limit. Where no more keys
    /// can be tracked, a new one is turned away.
    pub fn allow(&mut self, key: [u8; 32], limit: u32, now: u64) -> (admitted: bool)
        requires
            old(self).wf(),
        ensures
            final(self).wf(),
            (final(self)@, admitted) == request(old(self)@, key, limit, now),
    {
        if self.map.len() >= MAX_TRACKED_KEYS && now.saturating_sub(self.last_gc) >= SWEEP_PAUSE {
            self.sweep(now);
        }
        proof {
            self.map.lemma_listed();
        }
        let full = self.map.len() >= MAX_TRACKED_KEYS;
        let w: Window = match self.map.get(&key) {
            None => {
                if full {
                    return false;
                }
                Window { start: now, count: 0 }
            },
            Some(w) => {
                if now.saturating_sub(w.start) >= RL_WINDOW {
                    Window { start: now, count: 0 }
                } else {
                    *w
                }
            },
        };
        let count: u32 = w.count.saturating_add(1);
        self.map.insert(key, Window { start: w.start, count });
        count <= limit
    }
}

/// The counts after requests of one key at `times`, and how many were let through.
pub open spec fn requests(c: Counts, key: [u8; 32], limit: u32, times: Seq<u64>) -> (Counts, nat)
    decreases times.len(),
{
    if times.len() == 0 {
        (c, 0)
    } else {
        let before = requests(c, key, limit, times.drop_last());
        let step = request(before.0, key, limit, times.last());
        (
            step.0,
            if step.1 {
                before.1 + 1
            } else {
                before.1
            },
        )
    }
}

/// All times lie in the window that begins at `start`.
pub open spec fn in_one_window(times: Seq<u64>, start: u64) -> bool {
    forall|i: int| 0 <= i < times.len() ==> start <= #[trigger] times[i] && times[i] - start < RL_WINDOW
}

/// Of the requests of one key in one window exactly the first ones are let through, as many
/// as the limit says, however many come.
pub proof fn law_limit_is_kept(c: Counts, key: [u8; 32], limit: u32, times: Seq<u64>)
    requires
        c.windows.dom().finite(),
        c.windows.len() < MAX_TRACKED_KEYS,
        !c.windows.contains_key(key) || !is_live(c.windows[key], times[0]),
        times.len() > 0,
        times.len() <= u32::MAX,
        in_one_window(times, times[0]),
    ensures
        requests(c, key, limit, times).1 == if times.len() <= limit {
            times.len()
        } else {
            limit as nat
        },
{
    lemma_limit(c, key, limit, times);
}

proof fn lemma_limit(c: Counts, key: [u8; 32], limit: u32, times: Seq<u64>)
    requires
        c.windows.dom().finite(),
        c.windows.len() < MAX_TRACKED_KEYS,
        !c.windows.contains_key(key) || !is_live(c.windows[key], times[0]),
        times.len() > 0,
        times.len() <= u32::MAX,
        in_one_window(times, times[0]),
    ensures
        ({
            let r = requests(c, key, limit, times);
            &&& r.0.windows.contains_key(key)
            &&& r.0.windows[key] == (Window { start: times[0], count: times.len() as u32 })
            &&& r.1 == if times.len() <= limit {
                times.len()
            } else {
                limit as nat
            }
        }),
    decreases times.len(),
{
    let t = times.drop_last();
    let before = requests(c, key, limit, t);
    let now = times.last();
    if t.len() == 0 {
        assert(before == (c, 0nat));
    } else {
        assert(in_one_window(t, t[0]));
        lemma_limit(c, key, limit, t);
        let b = before.0;
        assert(is_live(b.windows[key], now));
        assert(swept(b, now).windows.contains_key(key));
        assert(swept(b, now).windows[key] == b.windows[key]);
    }
}

/// A request of one key changes nothing for another one: what that one has used of its
/// window stays what it was, at this moment and later.
pub proof fn law_keys_are_apart(
    c: Counts,
    key: [u8; 32],
    other: [u8; 32],
    limit: u32,
    now: u64,
    later: u64,
)
    requires
        key != other,
        now <= later,
    ensures
        used(request(c, key, limit, now).0, other, later) == used(c, other, later),
{
    assert(is_live(c.windows[other], later) ==> is_live(c.windows[other], now));
}

/// A key that is tracked, or that there is room for, is let through again once its window
/// has passed.
pub proof fn law_key_recovers(c: Counts, key: [u8; 32], limit: u32, now: u64)
    requires
        limit > 0,
        used(c, key, now) == 0,
        !is_full_for(swept(c, now), key),
    ensures
        request(c, key, limit, now).1,
{
}

/// Where the map is full of keys whose windows have not passed, a new key is turned away.
pub proof fn law_full_map_fails_closed(c: Counts, key: [u8; 32], limit: u32, now: u64)
    requires
        c.windows.len() >= MAX_TRACKED_KEYS,
        !c.windows.contains_key(key),
        forall|k: [u8; 32]| #[trigger] c.windows.contains_key(k) ==> is_live(c.windows[k], now),
    ensures
        !request(c, key, limit, now).1,
        request(c, key, limit, now).0.windows == c.windows,
{
    assert(live_windows(c.windows, now) =~= c.windows);
}

} // verus!
