use qchain::committee::{ValidatorInfo, ValidatorSet};
use qchain::dag::{Certificate, DagStore};
use qchain::keys::{verify, Keypair};
use qchain::pubkey::Pubkey;
use qchain::sim::{cut_off, index_of, is_prefix_consistent, peers_of, report, Event, EventQueue, Partition, Rotation, SimReport, ValidatorSchedule};
use qchain::sim_driver::{Next, Run};
use qchain::sim_run::{has_digest, sort_keypairs, Simulation};
use qchain::sim_validator::{ByzantineBehavior, SimMessage, SimValidator};
use rand::rngs::StdRng;
use rand::{Rng, SeedableRng};
use std::collections::{HashMap, HashSet};

#[derive(Clone, Debug, Default)]
struct FaultPolicy {
    drop_rate: f64,
    cert_drop_rate: Option<f64>,
    max_delay_ticks: u64,
    partition: Option<(Vec<usize>, Vec<usize>, u64)>,
}

struct Scenario {
    validator_count: usize,
    byzantine: HashMap<usize, ByzantineBehavior>,
    fault: FaultPolicy,
    ticks: u64,
    rotation: Option<(u64, Vec<usize>, Vec<usize>)>,
}

fn committee(keypairs: &[&Keypair]) -> ValidatorSet {
    let members: Vec<ValidatorInfo> = keypairs
        .iter()
        .map(|kp| ValidatorInfo { id: kp.pubkey(), pubkey_bundle: kp.public_key_bundle(), stake: 1 })
        .collect();
    let quorum = members.len() as u64 * 2 / 3 + 1;
    ValidatorSet { members, quorum }
}

/// A total order over the certificates: round by round, the leader's whole history is taken
/// in where enough vertices of the next round name the leader; a leader that can no longer be
/// named often enough is passed over, and an undecided one ends the walk.
struct Ordering {
    next: u64,
    done: HashSet<[u8; 32]>,
}

impl Ordering {
    fn starting_at(next: u64) -> Self {
        Ordering { next, done: HashSet::new() }
    }

    fn leader(&self, dag: &DagStore, schedule: &ValidatorSchedule, round: u64) -> Option<[u8; 32]> {
        let mut ids: Vec<[u8; 32]> = schedule.for_round(round).members.iter().map(|m| m.id.to_bytes()).collect();
        ids.sort();
        let id = ids[(round % ids.len() as u64) as usize];
        dag.digests_in_round(round).into_iter().find(|d| dag.get(d).unwrap().vertex.author.to_bytes() == id)
    }

    fn history(&self, dag: &DagStore, leader: [u8; 32], floor: u64) -> Option<Vec<(u64, [u8; 32])>> {
        let mut seen = HashSet::new();
        let mut stack = vec![leader];
        let mut found = vec![];
        while let Some(d) = stack.pop() {
            if self.done.contains(&d) || !seen.insert(d) {
                continue;
            }
            let vertex = &dag.get(&d)?.vertex;
            found.push((vertex.round, d));
            if vertex.round > floor {
                stack.extend(vertex.parents.iter().copied());
            }
        }
        found.sort();
        Some(found)
    }

    fn advance(&mut self, dag: &DagStore, schedule: &ValidatorSchedule, floor: u64) -> Vec<[u8; 32]> {
        let mut order = vec![];
        loop {
            let set = schedule.for_round(self.next + 1);
            let leader = self.leader(dag, schedule, self.next);
            let (mut naming, mut silent) = (0u64, 0u64);
            for d in dag.digests_in_round(self.next + 1) {
                let vertex = &dag.get(&d).unwrap().vertex;
                let stake = set.stake_of(&vertex.author);
                if leader.is_some_and(|l| vertex.parents.contains(&l)) {
                    naming += stake;
                } else {
                    silent += stake;
                }
            }
            let all = set.members.len() as u64;
            let enough = all - set.quorum_threshold() + 1;
            if naming >= enough {
                let Some(found) = self.history(dag, leader.unwrap(), floor) else { break };
                for (_, d) in found {
                    self.done.insert(d);
                    order.push(d);
                }
            } else if silent <= all - enough || leader.is_none() && silent < all {
                break;
            }
            self.next += 1;
        }
        order
    }
}

type Whole = ([u8; 32], Vec<([u8; 32], String, Vec<u8>)>);

fn whole(c: &Certificate) -> Whole {
    let digest = c.vertex.digest().expect("a message on its way has a digest");
    let votes = c.signatures.iter().map(|(id, s)| (id.to_bytes(), s.ed25519.to_string(), s.mldsa.clone()));
    (digest, votes.collect())
}

fn certificate_is_good(c: &Certificate, set: &ValidatorSet) -> bool {
    let Some(digest) = c.vertex.digest() else { return false };
    let mut voters = HashSet::new();
    let mut stake = 0;
    for (id, signature) in &c.signatures {
        let Some(member) = set.get(id) else { continue };
        if verify(&member.pubkey_bundle, &digest, signature) && voters.insert(id.to_bytes()) {
            stake += member.stake;
        }
    }
    stake >= set.quorum_threshold()
}

fn fate(fault: &FaultPolicy, message: &SimMessage, rng: &mut StdRng) -> Option<u64> {
    let drop_rate = match (message, fault.cert_drop_rate) {
        (SimMessage::CertificateBroadcast(_), Some(rate)) => rate,
        _ => fault.drop_rate,
    };
    if drop_rate > 0.0 && rng.gen::<f64>() < drop_rate {
        return None;
    }
    Some(if fault.max_delay_ticks > 0 { rng.gen_range(0..=fault.max_delay_ticks) } else { 0 })
}

fn run_simulation(scenario: &Scenario, seed: u64) -> SimReport {
    let mut rng = StdRng::seed_from_u64(seed);
    let keypairs = sort_keypairs((0..scenario.validator_count).map(|_| Keypair::generate().unwrap()).collect());
    let behaviors: Vec<ByzantineBehavior> = (0..scenario.validator_count)
        .map(|i| scenario.byzantine.get(&i).copied().unwrap_or(ByzantineBehavior::Honest))
        .collect();
    let chosen = |indices: &[usize]| committee(&indices.iter().map(|i| &keypairs[*i]).collect::<Vec<_>>());
    let everyone: Vec<usize> = (0..scenario.validator_count).collect();
    let schedule = || match &scenario.rotation {
        None => ValidatorSchedule { first: chosen(&everyone), later: None, epoch_rounds: 0 },
        Some((rounds, epoch0, epoch1)) => {
            ValidatorSchedule { first: chosen(epoch0), later: Some(chosen(epoch1)), epoch_rounds: *rounds }
        }
    };
    let rotation = scenario.rotation.as_ref().map(|(epoch_rounds, epoch0, epoch1)| Rotation {
        epoch_rounds: *epoch_rounds,
        epoch0: epoch0.clone(),
        epoch1: epoch1.clone(),
    });
    let partition =
        scenario.fault.partition.clone().map(|(group_a, group_b, until)| Partition { group_a, group_b, until });
    let committees = schedule();
    let own = schedule();
    let mut orders: Vec<Ordering> = everyone.iter().map(|_| Ordering::starting_at(0)).collect();
    let sim = Simulation::new(keypairs, &behaviors, own, partition);
    let mut run = Run::new(sim, scenario.ticks);
    let mut good: HashSet<Whole> = HashSet::new();
    loop {
        match run.next() {
            Next::Done => break,
            Next::Fate => {
                let fate = fate(&scenario.fault, &run.outbox[0].1, &mut rng);
                run.send(fate);
            }
            Next::Verdict => {
                let verified = match &run.due[0].message {
                    SimMessage::CertificateBroadcast(c) | SimMessage::CertificateResponse(c) => {
                        let seen = whole(c);
                        good.contains(&seen)
                            || certificate_is_good(c, committees.for_round(c.vertex.round)) && good.insert(seen)
                    }
                    _ => false,
                };
                assert!(run.judge(verified), "no random numbers");
            }
            Next::Order(i) => {
                let newly = orders[i].advance(&run.sim.sims[i].dag, &committees, 0);
                run.settle(&newly);
            }
            _ => assert!(run.advance(), "no random numbers, or a number has run out"),
        }
    }
    report(&run.sim.sims, &run.sim.certified, &committees, &rotation)
}

fn calm() -> FaultPolicy {
    FaultPolicy::default()
}

#[test]
fn an_honest_network_converges_and_makes_progress() {
    let scenario = Scenario { validator_count: 4, byzantine: HashMap::new(), fault: calm(), ticks: 20, rotation: None };
    let report = run_simulation(&scenario, 1);
    assert!(report.safety_violation.is_none(), "{:?}", report.safety_violation);
    assert!(report.made_progress);
    assert!(report.max_round_with_quorum >= report.max_committed_round);
}

#[test]
fn an_honest_network_stays_safe_under_loss_and_delay() {
    let fault = FaultPolicy { drop_rate: 0.2, max_delay_ticks: 3, ..Default::default() };
    let scenario = Scenario { validator_count: 4, byzantine: HashMap::new(), fault, ticks: 25, rotation: None };
    let report = run_simulation(&scenario, 1);
    assert!(report.safety_violation.is_none(), "{:?}", report.safety_violation);
}

#[test]
fn one_silent_validator_of_four_does_not_stop_the_others() {
    let mut byzantine = HashMap::new();
    byzantine.insert(3, ByzantineBehavior::Silent);
    let scenario = Scenario { validator_count: 4, byzantine, fault: calm(), ticks: 20, rotation: None };
    let report = run_simulation(&scenario, 7);
    assert!(report.safety_violation.is_none());
    assert!(report.made_progress, "3 honest validators must still reach quorum without the 4th");
}

#[test]
fn an_equivocator_gets_no_second_certificate_and_leaves_evidence() {
    let mut byzantine = HashMap::new();
    byzantine.insert(0, ByzantineBehavior::Equivocator);
    let scenario = Scenario { validator_count: 4, byzantine, fault: calm(), ticks: 20, rotation: None };
    let report = run_simulation(&scenario, 0);
    assert!(report.equivocation_succeeded.is_none(), "{:?}", report.equivocation_succeeded);
    assert!(report.safety_violation.is_none(), "{:?}", report.safety_violation);
    assert!(report.equivocation_evidence_captured, "no honest validator captured evidence");
}

#[test]
fn a_partition_that_heals_is_survived() {
    let fault = FaultPolicy { partition: Some((vec![0, 1], vec![2, 3], 6)), ..Default::default() };
    let scenario = Scenario { validator_count: 4, byzantine: HashMap::new(), fault, ticks: 24, rotation: None };
    let report = run_simulation(&scenario, 3);
    assert!(report.safety_violation.is_none());
    assert!(report.made_progress, "progress must resume once the partition heals");
}

#[test]
fn lost_certificates_are_asked_for_again() {
    let fault = FaultPolicy { cert_drop_rate: Some(0.35), ..Default::default() };
    let scenario = Scenario { validator_count: 4, byzantine: HashMap::new(), fault, ticks: 30, rotation: None };
    let report = run_simulation(&scenario, 0);
    assert!(report.safety_violation.is_none(), "{:?}", report.safety_violation);
    assert!(report.made_progress, "expected at least some progress, got {:?}", report.honest_committed_counts);
}

#[test]
fn a_committee_that_rotates_stays_safe_and_goes_on() {
    let rotation = Some((2, vec![0, 1, 2, 3], vec![1, 2, 3, 4]));
    let scenario = Scenario { validator_count: 5, byzantine: HashMap::new(), fault: calm(), ticks: 20, rotation };
    let report = run_simulation(&scenario, 0);
    assert!(report.safety_violation.is_none(), "{:?}", report.safety_violation);
    assert!(report.max_committed_round >= 2, "{:?}", report.progress_note);
    assert!(report.progress_note.is_none());
}

#[test]
fn a_committee_that_shrinks_stays_safe_and_goes_on() {
    let rotation = Some((2, vec![0, 1, 2, 3], vec![1, 2, 3]));
    let scenario = Scenario { validator_count: 4, byzantine: HashMap::new(), fault: calm(), ticks: 20, rotation };
    let report = run_simulation(&scenario, 0);
    assert!(report.safety_violation.is_none(), "{:?}", report.safety_violation);
    assert!(report.max_committed_round >= 2, "{:?}", report.progress_note);
}

#[test]
fn a_message_is_judged_under_the_committee_of_its_own_round() {
    let keypairs = sort_keypairs((0..5).map(|_| Keypair::generate().unwrap()).collect());
    let first = committee(&keypairs[..4].iter().collect::<Vec<_>>());
    let later = committee(&keypairs[1..].iter().collect::<Vec<_>>());
    let schedule = ValidatorSchedule { first, later: Some(later), epoch_rounds: 1 };
    let mut run = Simulation::new(keypairs, &vec![ByzantineBehavior::Honest; 5], schedule, None);
    let said = run.propose(0).unwrap();
    assert_eq!(run.sims[0].next_round, 1);
    let (_, message) = said.into_iter().find(|(to, _)| *to == 1).unwrap();
    // The receiver is about to open the later committee's first round; the proposal is of the
    // first committee, which its author leaves.
    run.sims[1].next_round = 1;
    assert_eq!(run.sims[1].judged_round(&message), 0);
    let answer = run.deliver(Event { at: 0, seq: 0, from: 0, to: 1, message }, false).unwrap();
    assert_eq!(answer.len(), 1);
    let (to, vote) = answer.into_iter().next().unwrap();
    assert_eq!(to, 0);
    assert!(matches!(&vote, SimMessage::Vote { .. }));
    // A vote counts under the committee of the vertex that waits for it: the one who leaves
    // gets its certificate out of the first committee though it is past that round.
    assert_eq!(run.sims[0].judged_round(&vote), 0);
}

fn solo() -> (Keypair, ValidatorSet, SimValidator) {
    let kp = Keypair::generate().unwrap();
    let set = ValidatorSet {
        members: vec![ValidatorInfo { id: kp.pubkey(), pubkey_bundle: kp.public_key_bundle(), stake: 1 }],
        quorum: 1,
    };
    let v = SimValidator::new(kp.pubkey(), ByzantineBehavior::Honest);
    (kp, set, v)
}

#[test]
fn a_solo_validator_resuming_with_an_empty_dag_but_an_already_advanced_next_round_keeps_proposing() {
    let (kp, set, mut v) = solo();
    for i in 0..3 {
        v.maybe_propose(&kp, &set, &vec![]).unwrap();
        assert_eq!(v.next_round, i + 1, "next_round must advance by one on every real proposal");
    }
    v.dag = DagStore::new();
    v.own_pending_vertex = None;
    v.maybe_propose(&kp, &set, &vec![]).unwrap();
    assert_eq!(v.next_round, 4, "a solo validator must keep proposing after resuming from a persisted round");
}

#[test]
fn a_solo_validator_resuming_also_keeps_committing_new_rounds_not_just_proposing_them() {
    let (kp, set, mut v) = solo();
    let schedule = ValidatorSchedule { first: set, later: None, epoch_rounds: 0 };
    let mut order = Ordering::starting_at(0);
    for _ in 0..3 {
        v.maybe_propose(&kp, &schedule.first, &vec![]).unwrap();
        let newly = order.advance(&v.dag, &schedule, 0);
        v.commit(&newly);
    }
    let committed_before_restart = v.committed_order.len();
    assert!(committed_before_restart > 0, "at least one round must have genuinely committed before the simulated restart");

    v.dag = DagStore::new();
    v.own_pending_vertex = None;
    let floor = v.next_round;
    let mut order = Ordering::starting_at(floor);
    for _ in 0..3 {
        v.maybe_propose(&kp, &schedule.first, &vec![]).unwrap();
        let newly = order.advance(&v.dag, &schedule, floor);
        v.commit(&newly);
    }
    assert!(v.committed_order.len() > committed_before_restart, "committed_order must keep growing after resuming");
}

#[test]
fn messages_arrive_in_order_and_partitions_swallow_them() {
    let mut queue = EventQueue::new();
    let ask = |n: u8| SimMessage::CertificateRequest { digest: [n; 32] };
    queue.push(0, 2, 0, 1, ask(1));
    queue.push(0, 0, 1, 0, ask(2));
    queue.push(0, 2, 1, 0, ask(3));
    assert!(queue.take_due(0).is_empty());
    assert_eq!(queue.take_due(1).len(), 1);
    let due = queue.take_due(9);
    assert_eq!(due.iter().map(|e| (e.at, e.seq, e.from, e.to)).collect::<Vec<_>>(), vec![(3, 0, 0, 1), (3, 2, 1, 0)]);
    let split = Some(Partition { group_a: vec![0], group_b: vec![1], until: 5 });
    assert!(cut_off(&split, 4, 1, 0));
    assert!(!cut_off(&split, 5, 1, 0));
    assert!(!cut_off(&split, 4, 0, 2));
    assert!(!cut_off(&None, 0, 0, 1));
}

#[test]
fn orders_agree_where_one_continues_the_other() {
    let (a, b, c) = ([1u8; 32], [2u8; 32], [3u8; 32]);
    assert!(is_prefix_consistent(&vec![a, b], &vec![a, b, c]));
    assert!(is_prefix_consistent(&vec![], &vec![a]));
    assert!(!is_prefix_consistent(&vec![a, b], &vec![a, c]));
    let ids = vec![Pubkey::new(a), Pubkey::new(b), Pubkey::new(c)];
    assert_eq!(peers_of(&ids, 1), vec![Pubkey::new(a), Pubkey::new(c)]);
    assert_eq!(index_of(&ids, &Pubkey::new(c)), Some(2));
    assert_eq!(index_of(&ids, &Pubkey::new([9u8; 32])), None);
    assert!(has_digest(&SimMessage::CertificateRequest { digest: a }));
}

#[test]
fn two_orders_that_diverge_are_reported() {
    let keypairs = sort_keypairs(vec![Keypair::generate().unwrap(), Keypair::generate().unwrap()]);
    let schedule = || ValidatorSchedule { first: committee(&[&keypairs[0], &keypairs[1]]), later: None, epoch_rounds: 0 };
    let committees = schedule();
    let mut x = SimValidator::new(keypairs[0].pubkey(), ByzantineBehavior::Honest);
    let mut y = SimValidator::new(keypairs[1].pubkey(), ByzantineBehavior::Honest);
    x.commit(&vec![[1u8; 32]]);
    y.commit(&vec![[2u8; 32]]);
    let run = Simulation::new(keypairs, &vec![ByzantineBehavior::Honest, ByzantineBehavior::Honest], committees, None);
    let rotation = Some(Rotation { epoch_rounds: 5, epoch0: vec![0, 1], epoch1: vec![0, 1] });
    let r = report(&vec![x, y], &run.certified, &run.schedule, &rotation);
    assert_eq!(r.safety_violation.unwrap(), "honest validators at index 0 and 1 disagree on committed order");
    assert_eq!(r.honest_committed_counts, vec![1, 1]);
    assert!(r.progress_note.unwrap().contains("max_committed_round=0 < epoch_rounds=5"));
    assert!(r.equivocation_succeeded.is_none());
}

#[test]
fn equivocators_beyond_the_fault_bound_can_be_simulated() {
    let mut byzantine = HashMap::new();
    byzantine.insert(0, ByzantineBehavior::Equivocator);
    byzantine.insert(1, ByzantineBehavior::Equivocator);
    let scenario = Scenario { validator_count: 4, byzantine, fault: calm(), ticks: 15, rotation: None };
    // Nothing is promised here but that the run comes to its end.
    let _report = run_simulation(&scenario, 42);
}

fn harsh_loss(validator_count: usize, later: Vec<usize>, seed: u64) {
    let fault = FaultPolicy { cert_drop_rate: Some(0.35), max_delay_ticks: 3, ..Default::default() };
    let rotation = Some((5, vec![0, 1, 2, 3], later));
    let scenario = Scenario { validator_count, byzantine: HashMap::new(), fault, ticks: 25, rotation };
    let report = run_simulation(&scenario, seed);
    assert!(report.safety_violation.is_none(), "{:?} {:?}", report.safety_violation, report.committed_orders);
}

#[test]
fn a_rotating_committee_stays_safe_under_harsh_certificate_loss() {
    harsh_loss(5, vec![1, 2, 3, 4], 0);
}

#[test]
fn a_shrinking_committee_stays_safe_under_harsh_certificate_loss() {
    harsh_loss(4, vec![1, 2, 3], 1);
}

#[test]
fn a_pending_proposal_is_sent_again_and_again() {
    let keypairs = sort_keypairs((0..4).map(|_| Keypair::generate().unwrap()).collect());
    let set = committee(&keypairs.iter().collect::<Vec<_>>());
    let ids: Vec<Pubkey> = keypairs.iter().map(|k| k.pubkey()).collect();
    let peers = peers_of(&ids, 0);
    let mut v = SimValidator::new(ids[0], ByzantineBehavior::Honest);
    let first = v.maybe_propose(&keypairs[0], &set, &peers).unwrap();
    assert_eq!((first.len(), v.next_round), (3, 1));
    for _ in 0..3 {
        let again = v.maybe_propose(&keypairs[0], &set, &peers).unwrap();
        assert_eq!(format!("{again:?}"), format!("{first:?}"));
        assert_eq!(v.next_round, 1);
    }
    let mut silent = SimValidator::new(ids[1], ByzantineBehavior::Silent);
    assert!(silent.maybe_propose(&keypairs[1], &set, &peers).unwrap().is_empty());
}
