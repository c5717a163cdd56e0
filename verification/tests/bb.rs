use propped_blockchain::bb::bb;
use propped_blockchain::bb::Bb;
use propped_blockchain::bb::BbEvent;
use propped_blockchain::bb::BbSend;
use std::collections::HashSet;

fn set(xs: &[u64]) -> HashSet<u64> {
    xs.iter().copied().collect()
}

#[test]
fn receiver_echoes_announces_and_delivers() {
    let v = || set(&[1, 2]);
    let events = vec![
        BbEvent::Value { from: 0, v: v() },
        BbEvent::Echo { from: 0, v: v() },
        BbEvent::Echo { from: 1, v: v() },
        BbEvent::Ready { from: 0, v: v() },
        BbEvent::Ready { from: 1, v: v() },
        BbEvent::Ready { from: 3, v: set(&[9]) },
    ];
    let (out, sent) = bb(events, 0, HashSet::new(), 1, 4, 2);
    assert_eq!(out, Some(v()));
    assert_eq!(sent, vec![BbSend::Echo(v()), BbSend::Ready(v())]);
}

#[test]
fn sender_sends_its_batch_and_echoes_it() {
    let (out, sent) = bb(Vec::new(), 0, set(&[7]), 1, 4, 0);
    assert_eq!(out, None);
    assert_eq!(sent, vec![BbSend::Value(set(&[7])), BbSend::Echo(set(&[7]))]);
}

#[test]
fn lone_sender_delivers_at_once() {
    let (out, sent) = bb(Vec::new(), 0, set(&[7]), 0, 1, 0);
    assert_eq!(out, Some(set(&[7])));
    assert_eq!(
        sent,
        vec![BbSend::Value(set(&[7])), BbSend::Echo(set(&[7])), BbSend::Ready(set(&[7]))]
    );
}

#[test]
fn only_the_first_batch_of_the_sender_is_echoed() {
    let events = vec![
        BbEvent::Value { from: 3, v: set(&[1]) },
        BbEvent::Value { from: 0, v: set(&[2]) },
        BbEvent::Value { from: 0, v: set(&[3]) },
    ];
    let (out, sent) = bb(events, 0, HashSet::new(), 1, 4, 2);
    assert_eq!(out, None);
    assert_eq!(sent, vec![BbSend::Echo(set(&[2]))]);
}

#[test]
fn ready_is_joined_after_t_plus_one_and_announced_once() {
    let events = vec![
        BbEvent::Ready { from: 0, v: set(&[5]) },
        BbEvent::Ready { from: 1, v: set(&[5]) },
        BbEvent::Ready { from: 1, v: set(&[6]) },
    ];
    // n = 5, t_s = 1: joining at 2 readies, delivering at 4.
    let (out, sent) = bb(events, 0, HashSet::new(), 1, 5, 2);
    assert_eq!(out, None);
    assert_eq!(sent, vec![BbSend::Ready(set(&[5]))]);
}

#[test]
fn equal_batches_are_tallied_together() {
    let mut party = Bb::new(2, 0, 3, 0, HashSet::new()).0;
    assert!(party.handle(BbEvent::Echo { from: 0, v: set(&[1, 2]) }).is_empty());
    assert!(party.handle(BbEvent::Echo { from: 1, v: set(&[2, 1]) }).is_empty());
    assert_eq!(
        party.handle(BbEvent::Echo { from: 2, v: set(&[1, 2]) }),
        vec![BbSend::Ready(set(&[1, 2]))]
    );
    assert_eq!(party.output(), None);
    assert!(party.handle(BbEvent::Ready { from: 0, v: set(&[1, 2]) }).is_empty());
    assert!(party.handle(BbEvent::Ready { from: 1, v: set(&[2, 1]) }).is_empty());
    assert_eq!(party.output(), Some(&set(&[1, 2])));
}
