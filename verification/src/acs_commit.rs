//! Certifying the output of agreement on a common subset.
//!
//! When a party's ACS instance outputs a set `S`, the party multicasts a
//! commit of `S`. A party that collects commits of the same `S` from
//! `t_s + 1` distinct parties forms a certificate of them, multicasts it and
//! outputs `S`; a party that receives a valid certificate for `S` passes it
//! on and outputs `S`. A party counts its own commit as it sends it.

use std::collections::HashSet;
use vstd::prelude::*;

use crate::messages::Transaction;
use crate::tardigrade::copy_set;
use crate::tardigrade::same_transactions;

verus! {

broadcast use vstd::std_specs::hash::group_hash_axioms;

/// What a party receives.
#[derive(Debug, PartialEq, Eq)]
pub enum AcsEvent {
    /// A commit of `s` by `from`.
    Commit { from: u32, s: HashSet<Transaction> },
    /// A certificate: the parties `signers` committed to `s`.
    Certificate { s: HashSet<Transaction>, signers: HashSet<u32> },
}

/// What a party multicasts.
#[derive(Debug, PartialEq, Eq)]
pub enum AcsSend {
    Commit(HashSet<Transaction>),
    Certificate { s: HashSet<Transaction>, signers: HashSet<u32> },
}

/// A message sent, as plain values.
pub enum AcsSendModel {
    Commit(Set<Transaction>),
    Certificate(Set<Transaction>, Set<u32>),
}

pub open spec fn acs_send_view(m: AcsSend) -> AcsSendModel {
    match m {
        AcsSend::Commit(s) => AcsSendModel::Commit(s@),
        AcsSend::Certificate { s, signers } => AcsSendModel::Certificate(s@, signers@),
    }
}

pub open spec fn acs_sends_view(m: Seq<AcsSend>) -> Seq<AcsSendModel> {
    m.map_values(|x: AcsSend| acs_send_view(x))
}

/// An event as plain values: whether it is a certificate, the set, and the
/// committer (for a commit) or signers (for a certificate).
pub open spec fn acs_event_view(e: AcsEvent) -> (bool, Set<Transaction>, u32, Set<u32>) {
    match e {
        AcsEvent::Commit { from, s } => (false, s@, from, Set::empty()),
        AcsEvent::Certificate { s, signers } => (true, s@, 0, signers@),
    }
}

pub open spec fn acs_events_view(events: Seq<AcsEvent>) -> Seq<(bool, Set<Transaction>, u32, Set<u32>)> {
    events.map_values(|e: AcsEvent| acs_event_view(e))
}

/// The commits heard so far: each set committed to, with its committers,
/// in the order the sets were first heard of.
pub open spec fn find_set(t: Seq<(Set<Transaction>, Set<u32>)>, s: Set<Transaction>) -> nat
    decreases t.len(),
{
    if t.len() == 0 {
        0
    } else if t[0].0 == s {
        0
    } else {
        1 + find_set(t.drop_first(), s)
    }
}

/// `t` with `from` counted as committing to `s`.
pub open spec fn add_commit(t: Seq<(Set<Transaction>, Set<u32>)>, s: Set<Transaction>, from: u32) -> Seq<
    (Set<Transaction>, Set<u32>),
> {
    let i = find_set(t, s);
    if i < t.len() {
        t.update(i as int, (s, t[i as int].1.insert(from)))
    } else {
        t.push((s, set![from]))
    }
}

/// The committers of `s` in `t`.
pub open spec fn committers_of(t: Seq<(Set<Transaction>, Set<u32>)>, s: Set<Transaction>) -> Set<u32> {
    let i = find_set(t, s);
    if i < t.len() {
        t[i as int].1
    } else {
        Set::empty()
    }
}

/// Taking one commit or certificate, having heard the commits `t`: the new
/// tallies and, when the party outputs, the set it outputs and the
/// certificate it multicasts.
pub open spec fn acs_commit_step(
    t: Seq<(Set<Transaction>, Set<u32>)>,
    e: (bool, Set<Transaction>, u32, Set<u32>),
    t_s: u32,
) -> (Seq<(Set<Transaction>, Set<u32>)>, Option<(Set<Transaction>, Set<u32>)>) {
    if e.0 {
        if e.3.len() >= t_s + 1 {
            (t, Some((e.1, e.3)))
        } else {
            (t, None)
        }
    } else {
        let t1 = add_commit(t, e.1, e.2);
        if committers_of(t1, e.1).len() >= t_s + 1 {
            (t1, Some((e.1, committers_of(t1, e.1))))
        } else {
            (t1, None)
        }
    }
}

/// Feeding the events in order until the party outputs: the output and the
/// certificate it multicasts, if it does.
pub open spec fn acs_commit_run(
    t: Seq<(Set<Transaction>, Set<u32>)>,
    events: Seq<(bool, Set<Transaction>, u32, Set<u32>)>,
    t_s: u32,
) -> Option<(Set<Transaction>, Set<u32>)>
    decreases events.len(),
{
    if events.len() == 0 {
        None
    } else {
        let (t1, out) = acs_commit_step(t, events[0], t_s);
        match out {
            Some(o) => Some(o),
            None => acs_commit_run(t1, events.drop_first(), t_s),
        }
    }
}

/// The whole exchange for a party whose ACS output `own`: it commits to
/// `own` (and counts its own commit), then takes the events in order.
pub open spec fn acs_commit_outcome(
    own: Set<Transaction>,
    events: Seq<(bool, Set<Transaction>, u32, Set<u32>)>,
    my_id: u32,
    t_s: u32,
) -> Option<(Set<Transaction>, Set<u32>)> {
    acs_commit_run(Seq::empty(), seq![(false, own, my_id, Set::<u32>::empty())] + events, t_s)
}

struct Tally {
    s: HashSet<Transaction>,
    committers: HashSet<u32>,
}

spec fn tallies_view(t: Seq<Tally>) -> Seq<(Set<Transaction>, Set<u32>)> {
    t.map_values(|x: Tally| (x.s@, x.committers@))
}

proof fn lemma_find_set(t: Seq<(Set<Transaction>, Set<u32>)>, s: Set<Transaction>, k: int)
    requires
        0 <= k <= t.len(),
        forall|j: int| 0 <= j < k ==> t[j].0 != s,
        k == t.len() || t[k].0 == s,
    ensures
        find_set(t, s) == k,
    decreases k,
{
    if k > 0 {
        assert forall|j: int| 0 <= j < k - 1 implies t.drop_first()[j].0 != s by {
            assert(t.drop_first()[j] == t[j + 1]);
        }
        lemma_find_set(t.drop_first(), s, k - 1);
    }
}

/// Counts `from` as committing to `s`; returns how many committed to `s`
/// and a copy of them.
fn tally_commit(tallies: &mut Vec<Tally>, s: &HashSet<Transaction>, from: u32) -> (res: (
    usize,
    HashSet<u32>,
))
    ensures
        tallies_view(final(tallies)@) == add_commit(tallies_view(old(tallies)@), s@, from),
        res.1@ == committers_of(tallies_view(final(tallies)@), s@),
        res.0 == res.1@.len(),
{
    let ghost t = tallies_view(tallies@);
    let mut i: usize = 0;
    while i < tallies.len()
        invariant
            i <= tallies.len(),
            t == tallies_view(tallies@),
            forall|j: int| 0 <= j < i ==> t[j].0 != s@,
        ensures
            i <= tallies.len(),
            t == tallies_view(tallies@),
            forall|j: int| 0 <= j < i ==> t[j].0 != s@,
            i < tallies.len() ==> t[i as int].0 == s@,
        decreases tallies.len() - i,
    {
        if same_transactions(&tallies[i].s, s) {
            assert(t[i as int] == (tallies@[i as int].s@, tallies@[i as int].committers@));
            break;
        }
        assert(t[i as int].0 != s@);
        i = i + 1;
    }
    proof {
        lemma_find_set(t, s@, i as int);
    }
    if i < tallies.len() {
        let mut entry = tallies.remove(i);
        entry.committers.insert(from);
        let count = entry.committers.len();
        let copy = copy_set(&entry.committers);
        let ghost e = (entry.s@, entry.committers@);
        tallies.insert(i, entry);
        proof {
            let nt = tallies_view(tallies@);
            assert(nt =~= t.update(i as int, e));
            assert(e == (s@, t[i as int].1.insert(from)));
            assert forall|j: int| 0 <= j < i implies nt[j].0 != s@ by {
                assert(nt[j] == t[j]);
            }
            lemma_find_set(nt, s@, i as int);
        }
        (count, copy)
    } else {
        let mut committers: HashSet<u32> = HashSet::new();
        committers.insert(from);
        let copy = copy_set(&committers);
        let entry = Tally { s: copy_set(s), committers };
        assert(entry.committers@ =~= set![from]);
        tallies.push(entry);
        proof {
            let nt = tallies_view(tallies@);
            assert(nt =~= t.push((s@, set![from])));
            assert forall|j: int| 0 <= j < i implies nt[j].0 != s@ by {
                assert(nt[j] == t[j]);
            }
            lemma_find_set(nt, s@, i as int);
        }
        (1, copy)
    }
}

/// Certifies the output `own` of a party's ACS instance: the party commits
/// to `own`, then takes the commits and certificates it receives, in order,
/// until `t_s + 1` parties committed to the same set or a certificate with
/// `t_s + 1` signers arrives. Returns that set (`None` when the events run
/// out first) and what the party multicasts: its commit, then the
/// certificate it formed or received.
pub fn acs_star(own: HashSet<Transaction>, events: Vec<AcsEvent>, my_id: u32, t_s: u32) -> (res: (
    Option<HashSet<Transaction>>,
    Vec<AcsSend>,
))
    ensures
        match acs_commit_outcome(
            own@,
            acs_events_view(events@),
            my_id,
            t_s,
        ) {
            None => res.0 is None && acs_sends_view(res.1@) == seq![AcsSendModel::Commit(own@)],
            Some((s, signers)) => res.0 matches Some(r) && r@ == s && acs_sends_view(res.1@)
                == seq![AcsSendModel::Commit(own@), AcsSendModel::Certificate(s, signers)],
        },
{
    let ghost evs = acs_events_view(events@);
    let ghost all = seq![(false, own@, my_id, Set::<u32>::empty())] + evs;
    let mut sends: Vec<AcsSend> = Vec::new();
    sends.push(AcsSend::Commit(copy_set(&own)));
    assert(acs_sends_view(sends@) =~= seq![AcsSendModel::Commit(own@)]);
    let mut tallies: Vec<Tally> = Vec::new();
    assert(tallies_view(tallies@) =~= Seq::empty());
    let (count, signers) = tally_commit(&mut tallies, &own, my_id);
    proof {
        assert(all[0] == (false, own@, my_id, Set::<u32>::empty()));
        assert(all.drop_first() =~= evs);
    }
    if count as u64 >= t_s as u64 + 1 {
        sends.push(AcsSend::Certificate { s: copy_set(&own), signers });
        assert(acs_sends_view(sends@) =~= seq![
            AcsSendModel::Commit(own@),
            AcsSendModel::Certificate(own@, committers_of(tallies_view(tallies@), own@)),
        ]);
        return (Some(own), sends);
    }
    let mut rest = events;
    let ghost base = acs_sends_view(sends@);
    while rest.len() > 0
        invariant
            base == seq![AcsSendModel::Commit(own@)],
            evs == acs_events_view(events@),
            acs_sends_view(sends@) == base,
            acs_commit_outcome(own@, evs, my_id, t_s) == acs_commit_run(
                tallies_view(tallies@),
                acs_events_view(rest@),
                t_s,
            ),
        decreases rest.len(),
    {
        let ghost before = rest@;
        let ghost t_before = tallies_view(tallies@);
        let e = rest.remove(0);
        let ghost ev = acs_event_view(e);
        proof {
            assert(acs_events_view(rest@) =~= acs_events_view(before).drop_first());
            assert(acs_events_view(before)[0] == acs_event_view(e));
        }
        match e {
            AcsEvent::Certificate { s, signers } => {
                if signers.len() as u64 >= t_s as u64 + 1 {
                    proof {
                        assert(acs_commit_step(t_before, ev, t_s) == (t_before, Some((s@, signers@))));
                        assert(acs_commit_run(t_before, acs_events_view(before), t_s) == Some(
                            (s@, signers@),
                        ));
                    }
                    sends.push(AcsSend::Certificate { s: copy_set(&s), signers });
                    assert(acs_sends_view(sends@) =~= base + seq![
                        AcsSendModel::Certificate(s@, signers@),
                    ]);
                    return (Some(s), sends);
                }
            },
            AcsEvent::Commit { from, s } => {
                let (count, signers) = tally_commit(&mut tallies, &s, from);
                if count as u64 >= t_s as u64 + 1 {
                    proof {
                        assert(acs_commit_step(t_before, ev, t_s) == (
                            tallies_view(tallies@),
                            Some((s@, signers@)),
                        ));
                        assert(acs_commit_run(t_before, acs_events_view(before), t_s) == Some(
                            (s@, signers@),
                        ));
                    }
                    sends.push(AcsSend::Certificate { s: copy_set(&s), signers });
                    assert(acs_sends_view(sends@) =~= base + seq![
                        AcsSendModel::Certificate(s@, signers@),
                    ]);
                    return (Some(s), sends);
                }
            },
        }
    }
    (None, sends)
}


proof fn lemma_run_certified(
    t: Seq<(Set<Transaction>, Set<u32>)>,
    events: Seq<(bool, Set<Transaction>, u32, Set<u32>)>,
    t_s: u32,
)
    ensures
        acs_commit_run(t, events, t_s) matches Some((s, signers)) ==> signers.len() >= t_s + 1,
    decreases events.len(),
{
    if events.len() > 0 {
        let (t1, out) = acs_commit_step(t, events[0], t_s);
        if out is None {
            lemma_run_certified(t1, events.drop_first(), t_s);
        }
    }
}

/// A party outputs a set only with a certificate of `t_s + 1` signers.
pub proof fn lemma_output_is_certified(
    own: Set<Transaction>,
    events: Seq<(bool, Set<Transaction>, u32, Set<u32>)>,
    my_id: u32,
    t_s: u32,
)
    ensures
        acs_commit_outcome(own, events, my_id, t_s) matches Some((s, signers)) ==> signers.len()
            >= t_s + 1,
{
    lemma_run_certified(
        Seq::empty(),
        seq![(false, own, my_id, Set::<u32>::empty())] + events,
        t_s,
    );
}

/// Whether `evs` holds a commit of `s` by `x`.
pub open spec fn commit_heard(evs: Seq<(bool, Set<Transaction>, u32, Set<u32>)>, s: Set<Transaction>, x: u32) -> bool {
    exists|k: int| 0 <= k < evs.len() && !evs[k].0 && evs[k].1 == s && #[trigger] evs[k].2 == x
}

/// Whether `evs` holds a certificate of `s` with the signers `signers`.
pub open spec fn certificate_heard(
    evs: Seq<(bool, Set<Transaction>, u32, Set<u32>)>,
    s: Set<Transaction>,
    signers: Set<u32>,
) -> bool {
    exists|k: int| 0 <= k < evs.len() && evs[k].0 && evs[k].1 == s && #[trigger] evs[k].3 == signers
}

/// Whether every committer that `t` records for a set committed to that
/// very set in `src`.
spec fn tallies_backed(t: Seq<(Set<Transaction>, Set<u32>)>, src: Seq<(bool, Set<Transaction>, u32, Set<u32>)>) -> bool {
    forall|i: int, x: u32| 0 <= i < t.len() && #[trigger] t[i].1.contains(x) ==> commit_heard(src, t[i].0, x)
}

proof fn lemma_find_set_spec(t: Seq<(Set<Transaction>, Set<u32>)>, s: Set<Transaction>)
    ensures
        find_set(t, s) <= t.len(),
        find_set(t, s) < t.len() ==> t[find_set(t, s) as int].0 == s,
    decreases t.len(),
{
    if t.len() > 0 && t[0].0 != s {
        lemma_find_set_spec(t.drop_first(), s);
        if find_set(t, s) < t.len() {
            assert(t[find_set(t, s) as int] == t.drop_first()[find_set(t.drop_first(), s) as int]);
        }
    }
}

proof fn lemma_step_backed(
    t: Seq<(Set<Transaction>, Set<u32>)>,
    src: Seq<(bool, Set<Transaction>, u32, Set<u32>)>,
    m: int,
    t_s: u32,
)
    requires
        0 <= m < src.len(),
        tallies_backed(t, src),
    ensures
        tallies_backed(acs_commit_step(t, src[m], t_s).0, src),
        acs_commit_step(t, src[m], t_s).1 matches Some((s, signers)) ==> certificate_heard(src, s, signers)
            || forall|x: u32| #[trigger] signers.contains(x) ==> commit_heard(src, s, x),
{
    let e = src[m];
    if !e.0 {
        lemma_find_set_spec(t, e.1);
        let t1 = add_commit(t, e.1, e.2);
        let i = find_set(t, e.1) as int;
        assert(commit_heard(src, e.1, e.2));
        assert forall|j: int, x: u32| 0 <= j < t1.len() && #[trigger] t1[j].1.contains(x) implies commit_heard(
            src,
            t1[j].0,
            x,
        ) by {
            if j < t.len() && j != i {
                assert(t1[j] == t[j]);
            } else if j == i && i < t.len() {
                if x != e.2 {
                    assert(t[j].1.contains(x));
                }
            } else {
                assert(t1[j] == (e.1, set![e.2]));
            }
        }
        lemma_find_set_spec(t1, e.1);
        if find_set(t1, e.1) < t1.len() {
            let k = find_set(t1, e.1) as int;
            assert forall|x: u32| #[trigger] committers_of(t1, e.1).contains(x) implies commit_heard(src, e.1, x) by {
                assert(t1[k].1.contains(x));
            }
        }
    } else {
        assert(src[m].3 == e.3);
    }
}

proof fn lemma_run_backed(
    t: Seq<(Set<Transaction>, Set<u32>)>,
    src: Seq<(bool, Set<Transaction>, u32, Set<u32>)>,
    m: int,
    t_s: u32,
)
    requires
        0 <= m <= src.len(),
        tallies_backed(t, src),
    ensures
        acs_commit_run(t, src.skip(m), t_s) matches Some((s, signers)) ==> certificate_heard(src, s, signers)
            || forall|x: u32| #[trigger] signers.contains(x) ==> commit_heard(src, s, x),
    decreases src.len() - m,
{
    if m < src.len() {
        assert(src.skip(m)[0] == src[m]);
        assert(src.skip(m).drop_first() =~= src.skip(m + 1));
        lemma_step_backed(t, src, m, t_s);
        let (t1, out) = acs_commit_step(t, src[m], t_s);
        if out is None {
            lemma_run_backed(t1, src, m + 1, t_s);
        }
    }
}

/// When a party outputs a set `s` with signers `signers`, either it
/// received a certificate of exactly `s` with exactly those signers, or
/// every signer committed to `s` itself: the party, when `s` is its own
/// ACS output, or the sender of a commit of `s` that the party received.
pub proof fn lemma_signers_committed_to_the_output(
    own: Set<Transaction>,
    events: Seq<(bool, Set<Transaction>, u32, Set<u32>)>,
    my_id: u32,
    t_s: u32,
)
    ensures
        acs_commit_outcome(own, events, my_id, t_s) matches Some((s, signers)) ==> certificate_heard(
            events,
            s,
            signers,
        ) || forall|x: u32| #[trigger] signers.contains(x) ==> (x == my_id && own == s) || commit_heard(events, s, x),
{
    let src = seq![(false, own, my_id, Set::<u32>::empty())] + events;
    assert(src.skip(0) =~= src);
    assert(tallies_backed(Seq::empty(), src));
    lemma_run_backed(Seq::empty(), src, 0, t_s);
    if let Some((s, signers)) = acs_commit_outcome(own, events, my_id, t_s) {
        if certificate_heard(src, s, signers) {
            let k = choose|k: int| 0 <= k < src.len() && src[k].0 && src[k].1 == s && #[trigger] src[k].3 == signers;
            assert(k > 0);
            assert(events[k - 1] == src[k]);
        } else {
            assert forall|x: u32| #[trigger] signers.contains(x) implies (x == my_id && own == s) || commit_heard(events, s, x) by {
                assert(commit_heard(src, s, x));
                let k = choose|k: int| 0 <= k < src.len() && !src[k].0 && src[k].1 == s && #[trigger] src[k].2 == x;
                if k > 0 {
                    assert(events[k - 1] == src[k]);
                }
            }
        }
    }
}

} // verus!
