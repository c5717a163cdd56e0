use propped_blockchain::acs_commit::acs_star;
use propped_blockchain::acs_commit::AcsEvent;
use propped_blockchain::acs_commit::AcsSend;
use std::collections::HashSet;

fn set(xs: &[u64]) -> HashSet<u64> {
    xs.iter().copied().collect()
}

fn ids(xs: &[u32]) -> HashSet<u32> {
    xs.iter().copied().collect()
}

#[test]
fn certificate_formed_from_t_plus_one_commits() {
    let events = vec![
        AcsEvent::Commit { from: 0, s: set(&[9]) },
        AcsEvent::Commit { from: 1, s: set(&[1, 2]) },
        AcsEvent::Commit { from: 1, s: set(&[2, 1]) },
        AcsEvent::Commit { from: 3, s: set(&[1, 2]) },
    ];
    // t_s = 2: three committers needed; party 2 committed itself.
    let (out, sent) = acs_star(set(&[1, 2]), events, 2, 2);
    assert_eq!(out, Some(set(&[1, 2])));
    assert_eq!(
        sent,
        vec![
            AcsSend::Commit(set(&[1, 2])),
            AcsSend::Certificate { s: set(&[1, 2]), signers: ids(&[1, 2, 3]) }
        ]
    );
}

#[test]
fn received_certificate_is_passed_on() {
    let events = vec![
        AcsEvent::Certificate { s: set(&[4]), signers: ids(&[0]) },
        AcsEvent::Certificate { s: set(&[5]), signers: ids(&[0, 1]) },
    ];
    let (out, sent) = acs_star(set(&[1]), events, 3, 1);
    assert_eq!(out, Some(set(&[5])));
    assert_eq!(
        sent,
        vec![AcsSend::Commit(set(&[1])), AcsSend::Certificate { s: set(&[5]), signers: ids(&[0, 1]) }]
    );
}

#[test]
fn no_output_without_enough_commits() {
    let events = vec![AcsEvent::Commit { from: 0, s: set(&[2]) }];
    let (out, sent) = acs_star(set(&[1]), events, 3, 1);
    assert_eq!(out, None);
    assert_eq!(sent, vec![AcsSend::Commit(set(&[1]))]);
}

#[test]
fn own_commit_alone_can_certify() {
    let (out, sent) = acs_star(set(&[1]), Vec::new(), 3, 0);
    assert_eq!(out, Some(set(&[1])));
    assert_eq!(
        sent,
        vec![AcsSend::Commit(set(&[1])), AcsSend::Certificate { s: set(&[1]), signers: ids(&[3]) }]
    );
}
