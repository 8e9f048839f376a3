//! The order in which a run of the simulation goes on. In each tick every validator speaks,
//! then what has arrived is delivered, and whoever got a message takes over what has been
//! settled. What becomes of a message, whether a certificate is good, and what is settled is
//! decided outside.
use crate::sim::{cut_off, is_cut_off, Event};
use crate::sim_run::{
    can_be_delivered, can_be_sent, has_committed, has_delivered, has_proposed, has_retried,
    has_sent, has_taken, Simulation,
};
use crate::sim_validator::{SimMessage, SimMessageData};
use vstd::prelude::*;

verus! {

/// How far a tick has come.
#[derive(Clone, Copy, Debug, PartialEq, Eq)]
pub enum Phase {
    /// The validator at this place proposes next; behind the last one, messages arrive.
    Propose(usize),
    /// The validator at this place asks again for what it is missing.
    Retry(usize),
    /// Messages are delivered.
    Deliver,
}

/// What comes next in a run.
#[derive(Clone, Copy, Debug, PartialEq, Eq)]
pub enum Next {
    /// All ticks are over.
    Done,
    /// The first message to be sent is lost in a partition.
    Lose,
    /// The first message to be sent has to be given its fate.
    Fate,
    /// The validator at this place has to be told what is settled.
    Order(usize),
    /// The validator at this place proposes.
    Propose(usize),
    /// The validator at this place asks again for what it is missing.
    Retry(usize),
    /// What has arrived is collected.
    Collect,
    /// The certificate in the first message to be delivered has to be verified.
    Verdict,
    /// The first message is delivered.
    Deliver,
    /// The tick is over.
    Tick,
}

/// A run and how far it has come.
pub struct Run {
    pub sim: Simulation,
    pub ticks: u64,
    pub tick: u64,
    pub phase: Phase,
    /// The validator that says what is to be sent.
    pub from: usize,
    /// What is to be sent, and to whom.
    pub outbox: Vec<(usize, SimMessage)>,
    /// What is to be delivered.
    pub due: Vec<Event>,
    /// The validator that is to take over what is settled.
    pub settling: Option<usize>,
}

/// Whether a message carries a certificate.
pub open spec fn carries_certificate(m: SimMessageData) -> bool {
    m is CertificateBroadcast || m is CertificateResponse
}

/// What comes next in a run.
pub open spec fn coming(run: Run) -> Next {
    if run.tick >= run.ticks {
        Next::Done
    } else if run.outbox@.len() > 0 {
        if is_cut_off(run.sim.partition, run.tick, run.from, run.outbox@[0].0) {
            Next::Lose
        } else {
            Next::Fate
        }
    } else if run.settling is Some {
        Next::Order(run.settling->0)
    } else {
        match run.phase {
            Phase::Propose(i) => if i < run.sim.sims@.len() {
                Next::Propose(i)
            } else {
                Next::Collect
            },
            Phase::Retry(i) => Next::Retry(i),
            Phase::Deliver => if run.due@.len() == 0 {
                Next::Tick
            } else if carries_certificate(run.due@[0].message@) {
                Next::Verdict
            } else {
                Next::Deliver
            },
        }
    }
}

/// Nothing but the simulation and what is to be sent has changed.
pub open spec fn same_place(a: Run, b: Run) -> bool {
    &&& b.ticks == a.ticks
    &&& b.tick == a.tick
    &&& b.phase == a.phase
    &&& b.from == a.from
    &&& b.due@ == a.due@
    &&& b.settling == a.settling
}

/// The first message to be sent was sent off with this fate.
pub open spec fn sent_first(a: Run, fate: Option<u64>, b: Run) -> bool {
    &&& has_sent(a.sim, a.tick, a.from, a.outbox@[0].0, a.outbox@[0].1, fate, b.sim)
    &&& b.outbox@ == a.outbox@.skip(1)
    &&& same_place(a, b)
}

/// The first message was delivered, and where that went well its answers are to be sent;
/// then the validator that got it takes over what is settled.
pub open spec fn delivered_first(a: Run, verified: bool, well: bool, b: Run) -> bool {
    let event = a.due@[0];
    &&& has_delivered(a.sim, event, verified, well, b.outbox@, b.sim)
    &&& b.ticks == a.ticks
    &&& b.tick == a.tick
    &&& b.phase == a.phase
    &&& b.due@ == a.due@.skip(1)
    &&& well ==> b.from == event.to && b.settling == Some(event.to)
    &&& !well ==> b.from == a.from && b.settling == a.settling && b.outbox@ == a.outbox@
}

/// A step that nothing has to be decided for took the run from `a` to `b`, or failed.
pub open spec fn advanced(a: Run, well: bool, b: Run) -> bool {
    match coming(a) {
        Next::Lose => well && sent_first(a, None, b),
        Next::Propose(i) => {
            &&& has_proposed(a.sim, i as int, well, b.outbox@, b.sim)
            &&& b.ticks == a.ticks
            &&& b.tick == a.tick
            &&& b.due@ == a.due@
            &&& b.settling == a.settling
            &&& well ==> b.from == i && b.phase == Phase::Retry(i)
            &&& !well ==> b.from == a.from && b.phase == a.phase && b.outbox@ == a.outbox@
        },
        Next::Retry(i) => {
            &&& well
            &&& has_retried(a.sim, i as int, b.outbox@, b.sim)
            &&& b.ticks == a.ticks
            &&& b.tick == a.tick
            &&& b.due@ == a.due@
            &&& b.settling == a.settling
            &&& b.from == i
            &&& b.phase == Phase::Propose((i + 1) as usize)
        },
        Next::Collect => {
            &&& well
            &&& has_taken(a.sim, a.tick, b.due@, b.sim)
            &&& b.ticks == a.ticks
            &&& b.tick == a.tick
            &&& b.phase == Phase::Deliver
            &&& b.from == a.from
            &&& b.outbox@ == a.outbox@
            &&& b.settling == a.settling
        },
        Next::Deliver => delivered_first(a, false, well, b),
        Next::Tick => {
            &&& well
            &&& b == (Run { tick: (a.tick + 1) as u64, phase: Phase::Propose(0), ..a })
        },
        _ => well && b == a,
    }
}

/// In a tick nothing is delivered before every validator has spoken.
pub proof fn law_all_speak_first(a: Run, well: bool, b: Run)
    requires
        a.wf(),
        advanced(a, well, b),
        !(a.phase is Deliver),
        b.phase is Deliver,
        well,
    ensures
        a.phase == Phase::Propose(a.sim.sims@.len() as usize),
        a.outbox@.len() == 0,
{
}

/// What is sent in a tick is not delivered in it: it arrives later than everything that was
/// collected.
pub proof fn law_sent_arrives_later(a: Run, fate: Option<u64>, b: Run, i: int)
    requires
        fate is Some ==> a.tick + 1 + fate->0 <= u64::MAX,
        sent_first(a, fate, b),
        forall|j: int| 0 <= j < a.sim.queue@.len() ==> (#[trigger] a.sim.queue@[j]).at > a.tick,
        0 <= i < b.sim.queue@.len(),
    ensures
        b.sim.queue@[i].at > b.tick,
{
    let before = a.sim.queue@;
    if !(is_cut_off(a.sim.partition, a.tick, a.from, a.outbox@[0].0) || fate is None) {
        let event = Event {
            at: (a.tick + 1 + fate->0) as u64,
            seq: a.sim.queue.seq(),
            from: a.from,
            to: a.outbox@[0].0,
            message: a.outbox@[0].1,
        };
        let k = choose|k: int|
            0 <= k <= before.len() && b.sim.queue@ == #[trigger] before.insert(k, event);
        if i < k {
            assert(b.sim.queue@[i] == before[i]);
        } else if i > k {
            assert(b.sim.queue@[i] == before[i - 1]);
        }
    }
}

impl Run {
    /// Everything is for validators that take part.
    pub open spec fn wf(&self) -> bool {
        let n = self.sim.sims@.len();
        &&& self.sim.wf()
        &&& can_be_sent(self.outbox@, n)
        &&& self.outbox@.len() > 0 ==> self.from < n
        &&& forall|i: int| 0 <= i < self.due@.len() ==> can_be_delivered(#[trigger] self.due@[i], n)
        &&& self.settling is Some ==> self.settling->0 < n
        &&& match self.phase {
            Phase::Propose(i) => i <= n,
            Phase::Retry(i) => i < n,
            Phase::Deliver => true,
        }
    }

    /// A run of so many ticks that has not begun.
    pub fn new(sim: Simulation, ticks: u64) -> (run: Self)
        requires
            sim.wf(),
        ensures
            run.wf(),
            run.sim == sim,
            run.ticks == ticks,
            run.tick == 0,
            run.phase == Phase::Propose(0),
            run.from == 0,
            run.outbox@ == Seq::<(usize, SimMessage)>::empty(),
            run.due@ == Seq::<Event>::empty(),
            run.settling is None,
    {
        Run {
            sim,
            ticks,
            tick: 0,
            phase: Phase::Propose(0),
            from: 0,
            outbox: Vec::new(),
            due: Vec::new(),
            settling: None,
        }
    }

    /// What comes next.
    pub fn next(&self) -> (next: Next)
        requires
            self.wf(),
        ensures
            next == coming(*self),
    {
        if self.tick >= self.ticks {
            return Next::Done;
        }
        if self.outbox.len() > 0 {
            return if cut_off(&self.sim.partition, self.tick, self.from, self.outbox[0].0) {
                Next::Lose
            } else {
                Next::Fate
            };
        }
        if let Some(i) = self.settling {
            return Next::Order(i);
        }
        match self.phase {
            Phase::Propose(i) => if i < self.sim.sims.len() {
                Next::Propose(i)
            } else {
                Next::Collect
            },
            Phase::Retry(i) => Next::Retry(i),
            Phase::Deliver => if self.due.len() == 0 {
                Next::Tick
            } else {
                match &self.due[0].message {
                    SimMessage::CertificateBroadcast(_) | SimMessage::CertificateResponse(_) => {
                        Next::Verdict
                    },
                    _ => Next::Deliver,
                }
            },
        }
    }

    fn hand_over(&mut self, verified: bool) -> (well: bool)
        requires
            old(self).wf(),
            old(self).outbox@.len() == 0,
            old(self).due@.len() > 0,
        ensures
            final(self).wf(),
            delivered_first(*old(self), verified, well, *final(self)),
    {
        let ghost before = self.due@;
        let event = self.due.remove(0);
        proof {
            assert(self.due@ =~= before.skip(1));
            assert forall|i: int| 0 <= i < self.due@.len() implies can_be_delivered(
                #[trigger] self.due@[i],
                self.sim.sims@.len(),
            ) by {
                assert(self.due@[i] == before[i + 1]);
            }
        }
        let to: usize = event.to;
        match self.sim.deliver(event, verified) {
            Some(said) => {
                self.outbox = said;
                self.from = to;
                self.settling = Some(to);
                true
            },
            None => false,
        }
    }

    /// Takes the next step, where nothing has to be decided for it. False where it failed;
    /// then the run is over.
    pub fn advance(&mut self) -> (well: bool)
        requires
            old(self).wf(),
            old(self).sim.queue.seq() < u64::MAX,
        ensures
            final(self).wf(),
            advanced(*old(self), well, *final(self)),
    {
        match self.next() {
            Next::Lose => {
                self.send_first(None);
                true
            },
            Next::Propose(i) => match self.sim.propose(i) {
                Some(said) => {
                    self.outbox = said;
                    self.from = i;
                    self.phase = Phase::Retry(i);
                    true
                },
                None => false,
            },
            Next::Retry(i) => {
                let all: usize = self.sim.sims.len();
                assert(i < all);
                self.outbox = self.sim.retry(i);
                self.from = i;
                self.phase = Phase::Propose(i + 1);
                true
            },
            Next::Collect => {
                self.due = self.sim.take_due(self.tick);
                self.phase = Phase::Deliver;
                true
            },
            Next::Deliver => self.hand_over(false),
            Next::Tick => {
                self.tick = self.tick + 1;
                self.phase = Phase::Propose(0);
                true
            },
            _ => true,
        }
    }

    fn send_first(&mut self, fate: Option<u64>)
        requires
            old(self).wf(),
            old(self).outbox@.len() > 0,
            old(self).sim.queue.seq() < u64::MAX,
            fate is Some ==> old(self).tick + 1 + fate->0 <= u64::MAX,
        ensures
            final(self).wf(),
            sent_first(*old(self), fate, *final(self)),
    {
        let ghost before = self.outbox@;
        let (to, message) = self.outbox.remove(0);
        proof {
            assert((to, message) == before[0]);
            assert(self.outbox@ =~= before.skip(1));
            assert(can_be_sent(self.outbox@, self.sim.sims@.len())) by {
                assert forall|k: int| 0 <= k < self.outbox@.len() implies
                    crate::sim_validator::message_has_digest((#[trigger] self.outbox@[k]).1@)
                    && self.outbox@[k].0 < self.sim.sims@.len() by {
                    assert(self.outbox@[k] == before[k + 1]);
                }
            }
        }
        self.sim.send(self.tick, self.from, to, message, fate);
    }

    /// Sends the first message off: it is lost, or arrives after a delay.
    pub fn send(&mut self, fate: Option<u64>)
        requires
            old(self).wf(),
            coming(*old(self)) is Fate,
            old(self).sim.queue.seq() < u64::MAX,
            fate is Some ==> old(self).tick + 1 + fate->0 <= u64::MAX,
        ensures
            final(self).wf(),
            sent_first(*old(self), fate, *final(self)),
    {
        self.send_first(fate);
    }

    /// Delivers the first message, whose certificate is good or not. False where that
    /// failed; then the run is over.
    pub fn judge(&mut self, verified: bool) -> (well: bool)
        requires
            old(self).wf(),
            coming(*old(self)) is Verdict,
        ensures
            final(self).wf(),
            delivered_first(*old(self), verified, well, *final(self)),
    {
        self.hand_over(verified)
    }

    /// The validator whose turn it is takes over what is settled.
    pub fn settle(&mut self, newly: &Vec<[u8; 32]>)
        requires
            old(self).wf(),
            coming(*old(self)) is Order,
        ensures
            final(self).wf(),
            has_committed(
                old(self).sim,
                coming(*old(self))->Order_0 as int,
                newly@,
                final(self).sim,
            ),
            final(self).settling is None,
            same_place(
                (Run { settling: None, ..*old(self) }),
                *final(self),
            ),
            final(self).outbox@ == old(self).outbox@,
    {
        match self.settling {
            Some(i) => {
                self.sim.commit(i, newly);
            },
            None => {},
        }
        self.settling = None;
    }
}

} // verus!
