use propped_blockchain::messages::Certificate;
use propped_blockchain::messages::Message;
use propped_blockchain::messages::Status;
use propped_blockchain::tardigrade::add_all;
use propped_blockchain::tardigrade::bla;
use propped_blockchain::tardigrade::choose_agreed_batch;
use propped_blockchain::tardigrade::copy_set;
use propped_blockchain::tardigrade::gc;
use propped_blockchain::tardigrade::gc_next_due;
use propped_blockchain::tardigrade::gc_notified;
use propped_blockchain::tardigrade::gc_certify;
use propped_blockchain::tardigrade::gc_commit;
use propped_blockchain::tardigrade::gc_threshold;
use propped_blockchain::tardigrade::generate_transactions;
use propped_blockchain::tardigrade::leader;
use propped_blockchain::tardigrade::propose;
use propped_blockchain::tardigrade::propose_adopt;
use propped_blockchain::tardigrade::propose_consistent;
use propped_blockchain::tardigrade::propose_gather;
use propped_blockchain::tardigrade::same_transactions;
use propped_blockchain::tardigrade::smr;
use propped_blockchain::tardigrade::BlaInput;
use propped_blockchain::tardigrade::BlaStep;
use propped_blockchain::tardigrade::GcParams;
use propped_blockchain::tardigrade::gc_output;
use propped_blockchain::tardigrade::gc_start;
use propped_blockchain::tardigrade::GcPhase;
use propped_blockchain::tardigrade::GcState;
use propped_blockchain::tardigrade::ProposeParams;
use propped_blockchain::tardigrade::ProposePhase;
use propped_blockchain::tardigrade::GcOutput;
use std::collections::HashMap;
use std::collections::HashSet;

fn set(xs: &[u64]) -> HashSet<u64> {
    xs.iter().copied().collect()
}

fn ids(xs: &[u32]) -> HashSet<u32> {
    xs.iter().copied().collect()
}

fn cert(k: u32, committers: &[u32]) -> Certificate {
    Certificate { k, committers: ids(committers) }
}

fn status(smr_k: u32, k: u32, b: &[u64], sender_id: u32) -> Status {
    Status {
        smr_k,
        k,
        b: set(b),
        sig: set(b),
        cert: cert(k, &[]),
        sender_id,
        proposer_id: 1,
    }
}

fn commit(smr_k: u32, k: u32, b: &[u64], sig: &[u64], committer_id: u32) -> Message {
    Message::TardiGCCommit { smr_k, k, b: set(b), sig: set(sig), committer_id }
}

fn output(b: &[u64], grade: u32) -> GcOutput {
    GcOutput { b: set(b), sig: set(b), cert: cert(grade, &[1, 2]), grade }
}

#[test]
fn each_party_generates_its_share_of_the_batch() {
    let buf = generate_transactions(16, 400, 4);
    assert_eq!(buf.len(), 100);
    assert!(buf.contains(&0) && buf.contains(&99) && !buf.contains(&100));
    assert_eq!(generate_transactions(0, 10, 3), set(&[0, 1, 2]));
    assert!(generate_transactions(16, 3, 4).is_empty());
    assert!(generate_transactions(16, 400, 0).is_empty());
}

#[test]
fn set_helpers() {
    assert!(same_transactions(&set(&[1, 2, 3]), &set(&[3, 2, 1])));
    assert!(!same_transactions(&set(&[1, 2]), &set(&[1, 2, 3])));
    assert!(!same_transactions(&set(&[1, 2, 4]), &set(&[1, 2, 3])));
    assert_eq!(copy_set(&set(&[5, 6])), set(&[5, 6]));
    let mut dst = set(&[1]);
    add_all(&mut dst, &set(&[2, 1, 9]));
    assert_eq!(dst, set(&[1, 2, 9]));
}

#[test]
fn quorum_is_the_ceiling_of_half_of_n_plus_one() {
    assert_eq!(gc_threshold(1), 1);
    assert_eq!(gc_threshold(3), 2);
    assert_eq!(gc_threshold(4), 3);
    assert_eq!(gc_threshold(7), 4);
    assert_eq!(gc_threshold(u32::MAX - 1), 1 << 31);
    assert_eq!(leader(9), 1);
}

#[test]
fn epoch_starts_with_round_one() {
    let (start, agreement) = smr(4, 0, 400, 5);
    let mut epochs = HashMap::new();
    epochs.insert(1, 1);
    assert_eq!(start.epochs, epochs);
    assert_eq!(start.k, 1);
    assert!(start.beta.is_empty() && start.sigma.is_empty());
    assert_eq!(start.buf.len(), 100);
    match agreement {
        BlaStep::Next(state) => {
            assert_eq!(state.round(), 1);
            assert_eq!(state.round_due(), 0);
            assert_eq!(state.k_star(), 0);
            assert!(state.b_star().is_empty());
            assert!(state.s_star().is_empty());
            assert_eq!(state.c_star(), &cert(0, &[]));
        }
        BlaStep::Done(_, _) => panic!("five rounds were asked for"),
    }
}

#[test]
fn lattice_agreement_with_no_rounds_outputs_nothing() {
    match bla(BlaInput::Begin { beta: set(&[1]), sigma: set(&[1]), kappa: 0 }) {
        BlaStep::Done(b, s) => assert!(b.is_empty() && s.is_empty()),
        BlaStep::Next(_) => panic!("no rounds were asked for"),
    }
}

#[test]
fn lattice_agreement_ends_on_grade_two() {
    let state = match bla(BlaInput::Begin { beta: set(&[1]), sigma: set(&[1]), kappa: 3 }) {
        BlaStep::Next(s) => s,
        BlaStep::Done(_, _) => panic!(),
    };
    let state = match bla(BlaInput::Round(state, output(&[], 0))) {
        BlaStep::Next(s) => s,
        BlaStep::Done(_, _) => panic!(),
    };
    assert_eq!(state.round(), 2);
    assert_eq!(state.round_due(), 5);
    assert_eq!(state.k_star(), 0);
    assert_eq!(state.b_star(), &set(&[1]));
    let state = match bla(BlaInput::Round(state, output(&[7, 8], 1))) {
        BlaStep::Next(s) => s,
        BlaStep::Done(_, _) => panic!(),
    };
    assert_eq!(state.round(), 3);
    assert_eq!(state.k_star(), 2);
    assert_eq!(state.b_star(), &set(&[7, 8]));
    assert_eq!(state.c_star(), &cert(1, &[1, 2]));
    match bla(BlaInput::Round(state, output(&[9], 2))) {
        BlaStep::Done(b, s) => {
            assert_eq!(b, set(&[9]));
            assert_eq!(s, set(&[9]));
        }
        BlaStep::Next(_) => panic!(),
    }
}

#[test]
fn lattice_agreement_gives_up_after_kappa_rounds() {
    let state = match bla(BlaInput::Begin { beta: set(&[1]), sigma: set(&[1]), kappa: 2 }) {
        BlaStep::Next(s) => s,
        BlaStep::Done(_, _) => panic!(),
    };
    let state = match bla(BlaInput::Round(state, output(&[4], 1))) {
        BlaStep::Next(s) => s,
        BlaStep::Done(_, _) => panic!(),
    };
    match bla(BlaInput::Round(state, output(&[5], 1))) {
        BlaStep::Done(b, s) => assert!(b.is_empty() && s.is_empty()),
        BlaStep::Next(_) => panic!(),
    }
}

#[test]
fn agreed_batch_falls_back_to_own_collection() {
    let (b, s) = choose_agreed_batch(None, set(&[1]), set(&[2]));
    assert_eq!((b, s), (set(&[1]), set(&[2])));
    let (b, s) = choose_agreed_batch(Some((set(&[3]), set(&[4]))), set(&[1]), set(&[2]));
    assert_eq!((b, s), (set(&[3]), set(&[4])));
}

#[test]
fn commit_only_to_a_proposal() {
    assert_eq!(
        gc_commit(1, 2, &set(&[5]), &set(&[6]), 3),
        Some(commit(1, 2, &[5], &[6], 3))
    );
    assert_eq!(gc_commit(1, 2, &set(&[]), &set(&[6]), 3), Some(commit(1, 2, &[], &[6], 3)));
    assert_eq!(gc_commit(1, 2, &set(&[5]), &set(&[]), 3), Some(commit(1, 2, &[5], &[], 3)));
    assert_eq!(gc_commit(1, 2, &set(&[]), &set(&[]), 3), None);
}

#[test]
fn certify_with_a_quorum_of_distinct_committers() {
    let commits = vec![
        commit(1, 2, &[5], &[6], 0),
        commit(1, 2, &[5], &[6], 0),
        commit(1, 3, &[5], &[6], 1),
        commit(1, 2, &[5, 7], &[6], 2),
        Message::Ping,
        commit(1, 2, &[5], &[6], 3),
    ];
    assert!(gc_certify(&commits, 1, 2, &set(&[5]), &set(&[6]), 3).is_none());
    let (out, notify) = gc_certify(&commits, 1, 2, &set(&[5]), &set(&[6]), 2).unwrap();
    assert_eq!(out.grade, 2);
    assert_eq!(out.b, set(&[5]));
    assert_eq!(out.sig, set(&[6]));
    assert_eq!(out.cert, cert(2, &[0, 3]));
    assert_eq!(
        notify,
        Message::TardiGCNotify { smr_k: 1, k: 2, b: set(&[5]), sig: set(&[6]), cert: cert(2, &[0, 3]) }
    );
    assert!(gc_certify(&commits, 1, 2, &set(&[]), &set(&[]), 0).is_none());
}

#[test]
fn notified_output_has_grade_one() {
    let notifies = vec![
        Message::TardiGCNotify { smr_k: 1, k: 2, b: set(&[1]), sig: set(&[1]), cert: cert(2, &[0]) },
        Message::TardiGCNotify { smr_k: 1, k: 2, b: set(&[2]), sig: set(&[2]), cert: cert(1, &[0, 1]) },
        Message::TardiGCNotify { smr_k: 9, k: 2, b: set(&[3]), sig: set(&[3]), cert: cert(2, &[0, 1]) },
        Message::TardiGCNotify { smr_k: 1, k: 2, b: set(&[4]), sig: set(&[5]), cert: cert(2, &[0, 1]) },
        Message::TardiGCNotify { smr_k: 1, k: 2, b: set(&[6]), sig: set(&[6]), cert: cert(2, &[2, 3]) },
    ];
    let out = gc_notified(&notifies, 1, 2, 2);
    assert_eq!(out.grade, 1);
    assert_eq!(out.b, set(&[4]));
    assert_eq!(out.sig, set(&[5]));
    assert_eq!(out.cert, cert(2, &[0, 1]));
}

#[test]
fn no_notification_means_no_output() {
    let out = gc_notified(&vec![Message::Ping], 1, 2, 2);
    assert_eq!(out.grade, 0);
    assert!(out.b.is_empty() && out.sig.is_empty());
    assert_eq!(out.cert, cert(0, &[]));
}

#[test]
fn leader_gathers_statuses_from_distinct_parties() {
    let queue = vec![
        Message::TardiProposeStatus(status(1, 0, &[1], 0)),
        Message::TardiProposeStatus(status(2, 0, &[2], 1)),
        Message::TardiProposeStatus(status(1, 4, &[3], 0)),
        Message::Ping,
        Message::TardiProposeStatus(status(1, 2, &[4], 2)),
        Message::TardiProposeStatus(status(1, 3, &[5], 3)),
    ];
    let m = propose_gather(&queue, 1, 7, 2, 1).unwrap();
    assert_eq!(
        m,
        Message::TardiProposePropose {
            smr_k: 1,
            k: 7,
            statuses: vec![status(1, 0, &[1], 0), status(1, 2, &[4], 2)],
            sender_id: 1,
            proposer_id: 1,
        }
    );
}

#[test]
fn leader_without_enough_statuses_outputs_nothing() {
    let queue = vec![
        Message::TardiProposeStatus(status(1, 0, &[1], 0)),
        Message::TardiProposeStatus(status(1, 0, &[1], 0)),
    ];
    assert_eq!(propose_gather(&queue, 1, 7, 2, 1), None);
    assert_eq!(propose_gather(&Vec::new(), 1, 7, 0, 1), None);
}

fn proposal(smr_k: u32, k: u32, sender_id: u32, b: &[u64]) -> Message {
    Message::TardiProposePropose {
        smr_k,
        k,
        statuses: vec![status(smr_k, 0, b, 0)],
        sender_id,
        proposer_id: 1,
    }
}

#[test]
fn others_adopt_the_leaders_proposal() {
    let queue = vec![proposal(1, 0, 2, &[1]), proposal(3, 0, 1, &[2]), proposal(1, 0, 1, &[3]), proposal(1, 0, 1, &[4])];
    assert_eq!(propose_adopt(&queue, 1, 1), Some(proposal(1, 0, 1, &[3])));
    assert_eq!(propose_adopt(&vec![proposal(1, 0, 2, &[1])], 1, 1), None);
}

#[test]
fn received_proposals_must_equal_the_held_one() {
    let held = proposal(1, 0, 1, &[1]);
    let same = vec![proposal(1, 0, 1, &[1]), Message::Ping, proposal(2, 0, 1, &[]), proposal(1, 0, 3, &[9])];
    assert!(propose_consistent(&held, &same, 1, 1));
    assert!(!propose_consistent(&held, &vec![proposal(1, 0, 1, &[1, 5])], 1, 1));
    assert!(!propose_consistent(&held, &vec![proposal(1, 4, 1, &[1])], 1, 1));
    let shorter = vec![Message::TardiProposePropose {
        smr_k: 1,
        k: 0,
        statuses: Vec::new(),
        sender_id: 1,
        proposer_id: 1,
    }];
    assert!(!propose_consistent(&held, &shorter, 1, 1));
    assert!(propose_consistent(&held, &Vec::new(), 1, 1));
}

fn params(my_id: u32) -> ProposeParams {
    ProposeParams { smr_k: 1, k: 0, my_id, proposer_id: 1, t: 2 }
}

fn done(phase: ProposePhase) -> (HashSet<u64>, HashSet<u64>) {
    match phase {
        ProposePhase::Done(b, s) => (b, s),
        _ => panic!("the propose step is not done"),
    }
}

fn holding(statuses: Vec<Status>) -> ProposePhase {
    ProposePhase::Holding(Message::TardiProposePropose { smr_k: 1, k: 0, statuses, sender_id: 1, proposer_id: 1 })
}

#[test]
fn proposal_of_the_highest_round_wins() {
    let statuses = vec![
        status(1, 2, &[1], 0),
        status(1, 5, &[2], 1),
        status(1, 5, &[3], 2),
        status(1, 0, &[4], 3),
    ];
    let (phase, sent) = propose(params(2), holding(statuses), &Vec::new());
    assert!(sent.is_empty());
    assert_eq!(done(phase), (set(&[2]), set(&[2])));
    let (phase, _) = propose(params(2), holding(vec![status(1, 0, &[8], 0)]), &Vec::new());
    assert_eq!(done(phase), (set(&[8]), set(&[8])));
    let (phase, _) = propose(params(2), holding(Vec::new()), &Vec::new());
    assert_eq!(done(phase), (set(&[]), set(&[])));
}

#[test]
fn propose_sends_the_status_first() {
    let p = ProposeParams { smr_k: 1, k: 5, my_id: 2, proposer_id: 1, t: 2 };
    let start = ProposePhase::Start { k_star: 3, beta: set(&[5]), sigma: set(&[6]), cert: cert(3, &[0, 1]) };
    let (phase, sent) = propose(p, start, &vec![Message::Ping]);
    assert!(matches!(phase, ProposePhase::Sent));
    assert_eq!(
        sent,
        vec![Message::TardiProposeStatus(Status {
            smr_k: 1,
            k: 3,
            b: set(&[5]),
            sig: set(&[6]),
            cert: cert(3, &[0, 1]),
            sender_id: 2,
            proposer_id: 1,
        })]
    );
}

#[test]
fn proposer_sends_gathered_statuses_and_outputs_the_highest() {
    let mut inbox = vec![
        Message::TardiProposeStatus(status(1, 2, &[1], 0)),
        Message::TardiProposeStatus(status(1, 4, &[2], 2)),
        Message::TardiProposeStatus(status(1, 9, &[3], 3)),
    ];
    let (phase, sent) = propose(params(1), ProposePhase::Sent, &inbox);
    let own = || Message::TardiProposePropose {
        smr_k: 1,
        k: 0,
        statuses: vec![status(1, 2, &[1], 0), status(1, 4, &[2], 2)],
        sender_id: 1,
        proposer_id: 1,
    };
    assert_eq!(sent, vec![own()]);
    inbox.push(own());
    inbox.push(own());
    let (phase, sent) = propose(params(1), phase, &inbox);
    assert!(sent.is_empty());
    assert_eq!(done(phase), (set(&[2]), set(&[2])));
}

#[test]
fn proposer_with_too_few_statuses_outputs_nothing() {
    let inbox = vec![Message::TardiProposeStatus(status(1, 2, &[1], 0))];
    let (phase, sent) = propose(params(1), ProposePhase::Sent, &inbox);
    assert!(sent.is_empty());
    assert_eq!(done(phase), (set(&[]), set(&[])));
}

#[test]
fn others_pass_the_proposal_on_and_check_the_copies() {
    let mut inbox = vec![Message::Ping, proposal(1, 0, 1, &[4])];
    let (phase, sent) = propose(params(2), ProposePhase::Sent, &inbox);
    assert_eq!(sent, vec![proposal(1, 0, 1, &[4])]);
    inbox.push(proposal(1, 0, 1, &[4]));
    let (after, sent) = propose(params(2), phase, &inbox);
    assert!(sent.is_empty());
    assert_eq!(done(after), (set(&[4]), set(&[4])));
}

#[test]
fn a_differing_copy_means_no_output() {
    // A copy that differs in its statuses, arriving by 3 * delta.
    let mut inbox = vec![proposal(1, 0, 1, &[4])];
    let (phase, _) = propose(params(2), ProposePhase::Sent, &inbox);
    inbox.push(proposal(1, 0, 1, &[5]));
    let (after, _) = propose(params(2), phase, &inbox);
    assert_eq!(done(after), (set(&[]), set(&[])));
    // A copy that differs only in its round.
    let mut inbox = vec![proposal(1, 0, 1, &[4])];
    let (phase, _) = propose(params(2), ProposePhase::Sent, &inbox);
    inbox.push(proposal(1, 6, 1, &[4]));
    let (after, _) = propose(params(2), phase, &inbox);
    assert_eq!(done(after), (set(&[]), set(&[])));
    // A differing copy that came together with the adopted one, before
    // 2 * delta: it is compared too.
    let inbox = vec![proposal(1, 0, 1, &[4]), proposal(1, 0, 1, &[5])];
    let (phase, sent) = propose(params(2), ProposePhase::Sent, &inbox);
    assert_eq!(sent, vec![proposal(1, 0, 1, &[4])]);
    let (after, _) = propose(params(2), phase, &inbox);
    assert_eq!(done(after), (set(&[]), set(&[])));
}

#[test]
fn others_without_a_proposal_output_nothing() {
    let (phase, sent) = propose(params(2), ProposePhase::Sent, &vec![Message::Ping]);
    assert!(sent.is_empty());
    assert_eq!(done(phase), (set(&[]), set(&[])));
    let (phase, sent) = propose(params(2), ProposePhase::Done(set(&[3]), set(&[3])), &vec![]);
    assert!(sent.is_empty());
    assert_eq!(done(phase), (set(&[3]), set(&[3])));
}

fn gc_params(my_id: u32) -> GcParams {
    GcParams { smr_k: 1, k: 2, my_id, num_parties: 4 }
}

fn run(phase: GcPhase) -> GcState {
    GcState { phase, seen: Vec::new() }
}

fn three_statuses() -> Message {
    Message::TardiProposePropose {
        smr_k: 1,
        k: 2,
        statuses: vec![status(1, 0, &[7], 0), status(1, 0, &[7], 2), status(1, 0, &[7], 3)],
        sender_id: 1,
        proposer_id: 1,
    }
}

#[test]
fn a_round_of_graded_consensus_starts_from_what_agreement_carries() {
    let state = match bla(BlaInput::Begin { beta: set(&[7]), sigma: set(&[8]), kappa: 3 }) {
        BlaStep::Next(s) => s,
        BlaStep::Done(_, _) => panic!(),
    };
    let state = match bla(BlaInput::Round(state, output(&[4], 1))) {
        BlaStep::Next(s) => s,
        BlaStep::Done(_, _) => panic!(),
    };
    let (p, st) = gc_start(&state, 1, 2, 4);
    assert_eq!((p.smr_k, p.k, p.my_id, p.num_parties), (1, 2, 2, 4));
    let (_, sent) = gc(p, st, Vec::new());
    assert_eq!(
        sent,
        vec![Message::TardiProposeStatus(Status {
            smr_k: 1,
            k: 1,
            b: set(&[4]),
            sig: set(&[4]),
            cert: cert(1, &[1, 2]),
            sender_id: 2,
            proposer_id: 1,
        })]
    );
}

#[test]
fn graded_consensus_certifies_with_a_quorum_of_commits() {
    let p = gc_params(2);
    let start = run(GcPhase::Proposing(ProposePhase::Start {
        k_star: 0,
        beta: set(&[7]),
        sigma: set(&[7]),
        cert: cert(0, &[]),
    }));
    assert_eq!(gc_next_due(&p, &start), Some(0));
    let (st, sent) = gc(p, start, Vec::new());
    assert_eq!(sent.len(), 1);
    assert!(matches!(sent[0], Message::TardiProposeStatus(_)));
    assert_eq!(gc_next_due(&p, &st), Some(2));
    let (st, sent) = gc(p, st, vec![three_statuses()]);
    assert_eq!(sent, vec![three_statuses()]);
    assert_eq!(gc_next_due(&p, &st), Some(3));
    let (st, sent) = gc(p, st, vec![three_statuses()]);
    assert_eq!(sent, vec![commit(1, 2, &[7], &[7], 2)]);
    assert_eq!(gc_next_due(&p, &st), Some(4));
    let commits = vec![commit(1, 2, &[7], &[7], 0), commit(1, 2, &[7], &[7], 1), commit(1, 2, &[7], &[7], 3)];
    let (st, sent) = gc(p, st, commits);
    assert_eq!(
        sent,
        vec![Message::TardiGCNotify { smr_k: 1, k: 2, b: set(&[7]), sig: set(&[7]), cert: cert(2, &[0, 1, 3]) }]
    );
    assert_eq!(gc_next_due(&p, &st), None);
    let out = gc_output(st).unwrap();
    assert_eq!(out.grade, 2);
    assert_eq!(out.b, set(&[7]));
    assert_eq!(out.cert, cert(2, &[0, 1, 3]));
}

#[test]
fn commits_that_come_early_are_counted() {
    let p = gc_params(2);
    let (st, _) = gc(p, run(GcPhase::Proposing(ProposePhase::Sent)), vec![three_statuses()]);
    // By 3 * delta two commits have come already, with the copies.
    let early = vec![three_statuses(), commit(1, 2, &[7], &[7], 0), commit(1, 2, &[7], &[7], 3)];
    let (st, sent) = gc(p, st, early);
    assert_eq!(sent, vec![commit(1, 2, &[7], &[7], 2)]);
    let (st, sent) = gc(p, st, vec![commit(1, 2, &[7], &[7], 1)]);
    assert_eq!(sent.len(), 1);
    assert_eq!(gc_output(st).unwrap().grade, 2);
}

#[test]
fn notifications_that_come_early_are_used() {
    let p = gc_params(2);
    let notify = Message::TardiGCNotify { smr_k: 1, k: 2, b: set(&[8]), sig: set(&[8]), cert: cert(2, &[0, 1, 3]) };
    let (st, sent) = gc(p, run(GcPhase::Committed(set(&[7]), set(&[7]))), vec![commit(1, 2, &[7], &[7], 0), notify]);
    assert!(sent.is_empty());
    assert!(matches!(st.phase, GcPhase::AwaitNotify));
    assert_eq!(gc_next_due(&p, &st), Some(5));
    let (st, sent) = gc(p, st, Vec::new());
    assert!(sent.is_empty());
    let out = gc_output(st).unwrap();
    assert_eq!(out.grade, 1);
    assert_eq!(out.b, set(&[8]));
    let (st, _) = gc(p, run(GcPhase::AwaitNotify), Vec::new());
    let out = gc_output(st).unwrap();
    assert_eq!(out.grade, 0);
    assert!(out.b.is_empty() && out.sig.is_empty());
}

#[test]
fn no_proposal_means_no_commit() {
    let p = gc_params(2);
    let (st, sent) = gc(p, run(GcPhase::Proposing(ProposePhase::Sent)), vec![Message::Ping]);
    assert!(sent.is_empty());
    assert_eq!(gc_next_due(&p, &st), Some(4));
    match st.phase {
        GcPhase::Committed(b, s) => assert!(b.is_empty() && s.is_empty()),
        _ => panic!("the proposal was not taken"),
    }
    assert!(gc_output(run(GcPhase::AwaitNotify)).is_none());
    assert_eq!(gc_next_due(&gc_params(1), &run(GcPhase::Proposing(ProposePhase::Sent))), Some(1));
}
