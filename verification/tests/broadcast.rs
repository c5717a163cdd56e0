use propped_blockchain::broadcast::reliable_broadcast_bb;
use propped_blockchain::broadcast::ReliableBroadcast;
use propped_blockchain::messages::Message;
use propped_blockchain::messages::Val;

fn echo(v: Val, broadcaster: u32, echoer: u32) -> Message {
    Message::EchoBB { v, broadcaster, echoer }
}

fn ready(v: Val, broadcaster: u32, readier: u32) -> Message {
    Message::ReadyBB { v, broadcaster, readier }
}

#[test]
fn dishonest_party_outputs_lambda_and_sends_nothing() {
    let inbox = vec![Message::ProposeBB { v: Val::One, broadcaster: 0 }];
    let (out, sent) = reliable_broadcast_bb(inbox, false, 2, 4, 1, true);
    assert_eq!(out, Some(Val::Lambda));
    assert!(sent.is_empty());
}

#[test]
fn sender_proposes_and_echoes_first() {
    let (out, sent) = reliable_broadcast_bb(Vec::new(), true, 0, 4, 1, true);
    assert_eq!(out, None);
    assert_eq!(
        sent,
        vec![Message::ProposeBB { v: Val::One, broadcaster: 0 }, echo(Val::One, 0, 0)]
    );
}

#[test]
fn receiver_echoes_announces_ready_and_delivers() {
    let inbox = vec![
        Message::ProposeBB { v: Val::One, broadcaster: 0 },
        echo(Val::One, 0, 0),
        echo(Val::One, 0, 1),
        ready(Val::One, 0, 0),
        ready(Val::One, 0, 1),
        // ignored: the party has delivered already
        ready(Val::Zero, 3, 3),
    ];
    let (out, sent) = reliable_broadcast_bb(inbox, true, 2, 4, 1, false);
    assert_eq!(out, Some(Val::One));
    assert_eq!(sent, vec![echo(Val::One, 0, 2), ready(Val::One, 0, 2)]);
}

#[test]
fn proposal_is_echoed_after_other_echoes_of_the_pair() {
    // Another party's echo arrives before the proposal: the proposal is
    // still echoed, and the own echo joins the tally.
    let inbox = vec![echo(Val::Zero, 1, 0), Message::ProposeBB { v: Val::Zero, broadcaster: 1 }];
    let (out, sent) = reliable_broadcast_bb(inbox, true, 2, 4, 1, false);
    assert_eq!(out, None);
    assert_eq!(sent, vec![echo(Val::Zero, 1, 2)]);
}

#[test]
fn echo_before_proposal_then_readies_deliver() {
    let inbox = vec![
        echo(Val::One, 1, 3),
        Message::ProposeBB { v: Val::One, broadcaster: 1 },
        ready(Val::One, 1, 3),
        ready(Val::One, 1, 4),
    ];
    let (out, sent) = reliable_broadcast_bb(inbox, true, 2, 4, 1, false);
    assert_eq!(out, Some(Val::One));
    assert_eq!(sent, vec![echo(Val::One, 1, 2), ready(Val::One, 1, 2)]);
}

#[test]
fn echo_quorum_sends_ready_before_delivering() {
    let inbox = vec![
        ready(Val::One, 1, 3),
        Message::ProposeBB { v: Val::One, broadcaster: 1 },
        echo(Val::One, 1, 1),
    ];
    let (out, sent) = reliable_broadcast_bb(inbox, true, 2, 3, 1, false);
    assert_eq!(out, Some(Val::One));
    assert_eq!(sent, vec![echo(Val::One, 1, 2), ready(Val::One, 1, 2)]);
}

#[test]
fn duplicate_echoes_count_once() {
    let inbox = vec![
        Message::ProposeBB { v: Val::One, broadcaster: 0 },
        echo(Val::One, 0, 0),
        echo(Val::One, 0, 0),
        echo(Val::One, 0, 0),
    ];
    let (out, sent) = reliable_broadcast_bb(inbox, true, 2, 4, 1, false);
    assert_eq!(out, None);
    assert_eq!(sent, vec![echo(Val::One, 0, 2)]);
}

#[test]
fn ready_is_announced_at_most_once_across_pairs() {
    let inbox = vec![
        Message::ProposeBB { v: Val::One, broadcaster: 0 },
        echo(Val::One, 0, 0),
        echo(Val::One, 0, 1),
        Message::ProposeBB { v: Val::Zero, broadcaster: 1 },
        echo(Val::Zero, 1, 0),
        echo(Val::Zero, 1, 1),
    ];
    let (out, sent) = reliable_broadcast_bb(inbox, true, 2, 4, 1, false);
    assert_eq!(out, None);
    let readies = sent.iter().filter(|m| matches!(m, Message::ReadyBB { .. })).count();
    assert_eq!(readies, 1);
    assert_eq!(
        sent,
        vec![echo(Val::One, 0, 2), ready(Val::One, 0, 2), echo(Val::Zero, 1, 2)]
    );
}

#[test]
fn joining_readies_after_t_plus_one() {
    let inbox = vec![
        ready(Val::Zero, 1, 0),
        ready(Val::Zero, 1, 1),
        ready(Val::Zero, 1, 3),
    ];
    let (out, sent) = reliable_broadcast_bb(inbox, true, 2, 4, 1, false);
    // The second ready makes two (t_s + 1): the party joins, which makes
    // three (n - t_s): it delivers at once.
    assert_eq!(out, Some(Val::Zero));
    assert_eq!(sent, vec![ready(Val::Zero, 1, 2)]);
}

#[test]
fn own_ready_completing_a_quorum_is_sent_and_delivers() {
    let inbox = vec![
        echo(Val::One, 0, 0),
        ready(Val::One, 0, 0),
        ready(Val::One, 0, 1),
        echo(Val::One, 0, 1),
        echo(Val::One, 0, 3),
    ];
    // n = 5, t_s = 2: readies join at 3, quorum 3.
    let (out, sent) = reliable_broadcast_bb(inbox, true, 2, 5, 2, false);
    assert_eq!(out, Some(Val::One));
    assert_eq!(sent, vec![ready(Val::One, 0, 2)]);
}

#[test]
fn state_machine_steps_one_message_at_a_time() {
    let (mut party, sent) = ReliableBroadcast::new(1, 3, 0, false);
    assert!(sent.is_empty());
    assert_eq!(party.output(), None);
    // With t_s = 0 the quorum is all 3 parties.
    assert_eq!(party.handle(Message::Ping), Vec::<Message>::new());
    assert_eq!(
        party.handle(Message::ProposeBB { v: Val::Zero, broadcaster: 0 }),
        vec![echo(Val::Zero, 0, 1)]
    );
    assert!(party.handle(echo(Val::Zero, 0, 0)).is_empty());
    assert_eq!(party.handle(echo(Val::Zero, 0, 2)), vec![ready(Val::Zero, 0, 1)]);
    assert!(party.handle(ready(Val::Zero, 0, 0)).is_empty());
    assert_eq!(party.output(), None);
    assert!(party.handle(ready(Val::Zero, 0, 2)).is_empty());
    assert_eq!(party.output(), Some(Val::Zero));
}

#[test]
fn proposal_heard_twice_is_echoed_once() {
    let inbox = vec![
        Message::ProposeBB { v: Val::Zero, broadcaster: 3 },
        Message::ProposeBB { v: Val::Zero, broadcaster: 3 },
        Message::ProposeBB { v: Val::One, broadcaster: 3 },
    ];
    let (out, sent) = reliable_broadcast_bb(inbox, true, 2, 4, 1, false);
    assert_eq!(out, None);
    assert_eq!(sent, vec![echo(Val::Zero, 3, 2), echo(Val::One, 3, 2)]);
}

#[test]
fn messages_after_delivery_change_nothing() {
    let prefix = vec![
        ready(Val::Zero, 1, 0),
        ready(Val::Zero, 1, 1),
    ];
    let mut longer = vec![
        ready(Val::Zero, 1, 0),
        ready(Val::Zero, 1, 1),
    ];
    longer.push(Message::ProposeBB { v: Val::One, broadcaster: 3 });
    longer.push(ready(Val::One, 3, 0));
    let short = reliable_broadcast_bb(prefix, true, 2, 4, 1, false);
    let long = reliable_broadcast_bb(longer, true, 2, 4, 1, false);
    assert_eq!(short.0, Some(Val::Zero));
    assert_eq!(short, long);
}
