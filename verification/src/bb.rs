//! Byzantine reliable broadcast of a batch of transactions from one
//! designated sender (Bracha's echo/ready protocol).
//!
//! The sender sends its batch to all. A party echoes the first batch it
//! hears from the sender; announces ready for a batch once `n - t_s`
//! parties echoed it or `t_s + 1` announced ready for it (at most one
//! announcement in all); and outputs a batch once `n - t_s` parties
//! announced ready for it. A party counts its own echo and announcement as
//! it sends them.

use std::collections::HashSet;
use vstd::prelude::*;

use crate::messages::Transaction;
use crate::tardigrade::copy_set;
use crate::tardigrade::same_transactions;

verus! {

broadcast use vstd::std_specs::hash::group_hash_axioms;

/// What a party of the broadcast receives.
#[derive(Debug, PartialEq, Eq)]
pub enum BbEvent {
    /// A batch, as sent by `from`.
    Value { from: u32, v: HashSet<Transaction> },
    /// An echo of a batch by `from`.
    Echo { from: u32, v: HashSet<Transaction> },
    /// A ready announcement for a batch by `from`.
    Ready { from: u32, v: HashSet<Transaction> },
}

/// What a party of the broadcast sends to all the others.
#[derive(Debug, PartialEq, Eq)]
pub enum BbSend {
    Value(HashSet<Transaction>),
    Echo(HashSet<Transaction>),
    Ready(HashSet<Transaction>),
}

/// A message sent, as plain values.
pub enum BbSendModel {
    Value(Set<Transaction>),
    Echo(Set<Transaction>),
    Ready(Set<Transaction>),
}

pub open spec fn send_view(s: BbSend) -> BbSendModel {
    match s {
        BbSend::Value(v) => BbSendModel::Value(v@),
        BbSend::Echo(v) => BbSendModel::Echo(v@),
        BbSend::Ready(v) => BbSendModel::Ready(v@),
    }
}

pub open spec fn sends_view(s: Seq<BbSend>) -> Seq<BbSendModel> {
    s.map_values(|x: BbSend| send_view(x))
}

/// The parties heard echoing, and announcing ready for, one batch.
pub struct BbTallyModel {
    pub v: Set<Transaction>,
    pub echoes: Set<u32>,
    pub readies: Set<u32>,
}

/// A party's state in the broadcast, as plain values. The tallies are kept
/// per batch, in the order the batches were first heard of.
pub struct BbModel {
    pub my_id: u32,
    pub sender_id: u32,
    pub num_parties: u32,
    pub t_s: u32,
    pub echoed: bool,
    pub ready_sent: bool,
    pub tallies: Seq<BbTallyModel>,
    pub output: Option<Set<Transaction>>,
}

/// Where the tally of batch `v` is in `t`: its index, or `t.len()`.
pub open spec fn find_batch(t: Seq<BbTallyModel>, v: Set<Transaction>) -> nat
    decreases t.len(),
{
    if t.len() == 0 {
        0
    } else if t[0].v == v {
        0
    } else {
        1 + find_batch(t.drop_first(), v)
    }
}

pub open spec fn echo_count(t: Seq<BbTallyModel>, v: Set<Transaction>) -> nat {
    let i = find_batch(t, v);
    if i < t.len() {
        t[i as int].echoes.len()
    } else {
        0
    }
}

pub open spec fn ready_count(t: Seq<BbTallyModel>, v: Set<Transaction>) -> nat {
    let i = find_batch(t, v);
    if i < t.len() {
        t[i as int].readies.len()
    } else {
        0
    }
}

/// `t` with `from` counted as echoing `v`.
pub open spec fn add_echo(t: Seq<BbTallyModel>, v: Set<Transaction>, from: u32) -> Seq<BbTallyModel> {
    let i = find_batch(t, v);
    if i < t.len() {
        t.update(i as int, BbTallyModel { echoes: t[i as int].echoes.insert(from), ..t[i as int] })
    } else {
        t.push(BbTallyModel { v, echoes: set![from], readies: Set::empty() })
    }
}

/// `t` with `from` counted as announcing ready for `v`.
pub open spec fn add_ready(t: Seq<BbTallyModel>, v: Set<Transaction>, from: u32) -> Seq<
    BbTallyModel,
> {
    let i = find_batch(t, v);
    if i < t.len() {
        t.update(i as int, BbTallyModel { readies: t[i as int].readies.insert(from), ..t[i as int] })
    } else {
        t.push(BbTallyModel { v, echoes: Set::empty(), readies: set![from] })
    }
}

pub open spec fn bb_quorum(s: BbModel) -> int {
    s.num_parties - s.t_s
}

/// Announcing ready for `v`: counted at once, which may complete a quorum
/// of readies and so deliver `v`.
pub open spec fn announce(s: BbModel, v: Set<Transaction>) -> (BbModel, Seq<BbSendModel>) {
    let t = add_ready(s.tallies, v, s.my_id);
    let s1 = BbModel { ready_sent: true, tallies: t, ..s };
    if ready_count(t, v) >= bb_quorum(s) {
        (BbModel { output: Some(v), ..s1 }, seq![BbSendModel::Ready(v)])
    } else {
        (s1, seq![BbSendModel::Ready(v)])
    }
}

pub open spec fn on_echo(s: BbModel, from: u32, v: Set<Transaction>) -> (BbModel, Seq<BbSendModel>) {
    let t = add_echo(s.tallies, v, from);
    let s1 = BbModel { tallies: t, ..s };
    if echo_count(t, v) >= bb_quorum(s) && !s.ready_sent {
        announce(s1, v)
    } else {
        (s1, seq![])
    }
}

pub open spec fn on_ready(s: BbModel, from: u32, v: Set<Transaction>) -> (BbModel, Seq<BbSendModel>) {
    let t = add_ready(s.tallies, v, from);
    let s1 = BbModel { tallies: t, ..s };
    if ready_count(t, v) >= s.t_s + 1 && !s.ready_sent {
        announce(s1, v)
    } else if ready_count(t, v) >= bb_quorum(s) {
        (BbModel { output: Some(v), ..s1 }, seq![])
    } else {
        (s1, seq![])
    }
}

/// The first batch heard from the sender is echoed (and the echo counted).
pub open spec fn on_value(s: BbModel, from: u32, v: Set<Transaction>) -> (BbModel, Seq<BbSendModel>) {
    if from == s.sender_id && !s.echoed {
        let (s2, out) = on_echo(BbModel { echoed: true, ..s }, s.my_id, v);
        (s2, seq![BbSendModel::Echo(v)] + out)
    } else {
        (s, seq![])
    }
}

/// An event as plain values: its kind (0 value, 1 echo, 2 ready), sender
/// and batch.
pub open spec fn event_view(e: BbEvent) -> (int, u32, Set<Transaction>) {
    match e {
        BbEvent::Value { from, v } => (0, from, v@),
        BbEvent::Echo { from, v } => (1, from, v@),
        BbEvent::Ready { from, v } => (2, from, v@),
    }
}

/// One step of the broadcast. Once a batch is delivered, nothing changes.
pub open spec fn bb_step(s: BbModel, e: (int, u32, Set<Transaction>)) -> (BbModel, Seq<BbSendModel>) {
    if s.output is Some {
        (s, seq![])
    } else if e.0 == 0 {
        on_value(s, e.1, e.2)
    } else if e.0 == 1 {
        on_echo(s, e.1, e.2)
    } else {
        on_ready(s, e.1, e.2)
    }
}

pub open spec fn bb_initial_state(my_id: u32, sender_id: u32, num_parties: u32, t_s: u32) -> BbModel {
    BbModel {
        my_id,
        sender_id,
        num_parties,
        t_s,
        echoed: false,
        ready_sent: false,
        tallies: seq![],
        output: None,
    }
}

/// How a party starts: the sender sends its batch to all and takes it as
/// heard from itself.
pub open spec fn bb_start(my_id: u32, sender_id: u32, num_parties: u32, t_s: u32, beta: Set<Transaction>) -> (
    BbModel,
    Seq<BbSendModel>,
) {
    let s0 = bb_initial_state(my_id, sender_id, num_parties, t_s);
    if my_id == sender_id {
        let (s1, out) = on_value(s0, my_id, beta);
        (s1, seq![BbSendModel::Value(beta)] + out)
    } else {
        (s0, seq![])
    }
}

struct BbTally {
    v: HashSet<Transaction>,
    echoes: HashSet<u32>,
    readies: HashSet<u32>,
}

spec fn tally_view(t: BbTally) -> BbTallyModel {
    BbTallyModel { v: t.v@, echoes: t.echoes@, readies: t.readies@ }
}

/// One party of the broadcast of a batch from a designated sender.
pub struct Bb {
    my_id: u32,
    sender_id: u32,
    num_parties: u32,
    t_s: u32,
    echoed: bool,
    ready_sent: bool,
    tallies: Vec<BbTally>,
    output: Option<HashSet<Transaction>>,
}

impl View for Bb {
    type V = BbModel;

    closed spec fn view(&self) -> BbModel {
        BbModel {
            my_id: self.my_id,
            sender_id: self.sender_id,
            num_parties: self.num_parties,
            t_s: self.t_s,
            echoed: self.echoed,
            ready_sent: self.ready_sent,
            tallies: self.tallies@.map_values(|t: BbTally| tally_view(t)),
            output: match self.output {
                Some(v) => Some(v@),
                None => None,
            },
        }
    }
}

proof fn lemma_find_batch(t: Seq<BbTallyModel>, v: Set<Transaction>, k: int)
    requires
        0 <= k <= t.len(),
        forall|j: int| 0 <= j < k ==> t[j].v != v,
        k == t.len() || t[k].v == v,
    ensures
        find_batch(t, v) == k,
    decreases k,
{
    if k > 0 {
        assert forall|j: int| 0 <= j < k - 1 implies t.drop_first()[j].v != v by {
            assert(t.drop_first()[j] == t[j + 1]);
        }
        lemma_find_batch(t.drop_first(), v, k - 1);
    }
}

impl Bb {
    /// The parameters allow the quorum `n - t_s` and `t_s + 1`.
    pub open spec fn wf(&self) -> bool {
        self@.t_s <= self@.num_parties && self@.t_s < u32::MAX
    }

    /// The batch delivered so far, if any.
    pub fn output(&self) -> (res: Option<&HashSet<Transaction>>)
        ensures
            match self@.output {
                Some(v) => res matches Some(r) && r@ == v,
                None => res is None,
            },
    {
        match &self.output {
            Some(v) => Some(v),
            None => None,
        }
    }

    fn find(&self, v: &HashSet<Transaction>) -> (i: usize)
        ensures
            i == find_batch(self@.tallies, v@),
            i <= self.tallies.len(),
            forall|j: int| 0 <= j < i ==> self@.tallies[j].v != v@,
            i < self.tallies.len() ==> self@.tallies[i as int].v == v@,
    {
        let ghost t = self@.tallies;
        let mut i: usize = 0;
        while i < self.tallies.len()
            invariant
                i <= self.tallies.len(),
                t == self@.tallies,
                forall|j: int| 0 <= j < i ==> t[j].v != v@,
            decreases self.tallies.len() - i,
        {
            if same_transactions(&self.tallies[i].v, v) {
                proof {
                    assert(t[i as int].v == v@);
                    lemma_find_batch(t, v@, i as int);
                }
                return i;
            }
            assert(t[i as int].v != v@);
            i = i + 1;
        }
        proof {
            lemma_find_batch(t, v@, i as int);
        }
        i
    }

    fn count_echo(&mut self, v: &HashSet<Transaction>, from: u32) -> (count: usize)
        ensures
            final(self)@ == (BbModel { tallies: add_echo(old(self)@.tallies, v@, from), ..old(self)@ }),
            count == echo_count(final(self)@.tallies, v@),
    {
        let i = self.find(v);
        let ghost t = old(self)@.tallies;
        if i < self.tallies.len() {
            let mut entry = self.tallies.remove(i);
            entry.echoes.insert(from);
            let count = entry.echoes.len();
            let ghost e = tally_view(entry);
            self.tallies.insert(i, entry);
            proof {
                let nt = self@.tallies;
                assert(nt =~= t.update(i as int, e));
                assert forall|j: int| 0 <= j < i implies nt[j].v != v@ by {
                    assert(nt[j] == t[j]);
                }
                lemma_find_batch(nt, v@, i as int);
            }
            count
        } else {
            let mut echoes: HashSet<u32> = HashSet::new();
            echoes.insert(from);
            let entry = BbTally { v: copy_set(v), echoes, readies: HashSet::new() };
            assert(entry.echoes@ =~= set![from]);
            self.tallies.push(entry);
            proof {
                let nt = self@.tallies;
                assert(nt =~= t.push(tally_view(entry)));
                assert forall|j: int| 0 <= j < i implies nt[j].v != v@ by {
                    assert(nt[j] == t[j]);
                }
                lemma_find_batch(nt, v@, i as int);
            }
            1
        }
    }

    fn count_ready(&mut self, v: &HashSet<Transaction>, from: u32) -> (count: usize)
        ensures
            final(self)@ == (BbModel { tallies: add_ready(old(self)@.tallies, v@, from), ..old(self)@ }),
            count == ready_count(final(self)@.tallies, v@),
    {
        let i = self.find(v);
        let ghost t = old(self)@.tallies;
        if i < self.tallies.len() {
            let mut entry = self.tallies.remove(i);
            entry.readies.insert(from);
            let count = entry.readies.len();
            let ghost e = tally_view(entry);
            self.tallies.insert(i, entry);
            proof {
                let nt = self@.tallies;
                assert(nt =~= t.update(i as int, e));
                assert forall|j: int| 0 <= j < i implies nt[j].v != v@ by {
                    assert(nt[j] == t[j]);
                }
                lemma_find_batch(nt, v@, i as int);
            }
            count
        } else {
            let mut readies: HashSet<u32> = HashSet::new();
            readies.insert(from);
            let entry = BbTally { v: copy_set(v), echoes: HashSet::new(), readies };
            assert(entry.readies@ =~= set![from]);
            self.tallies.push(entry);
            proof {
                let nt = self@.tallies;
                assert(nt =~= t.push(tally_view(entry)));
                assert forall|j: int| 0 <= j < i implies nt[j].v != v@ by {
                    assert(nt[j] == t[j]);
                }
                lemma_find_batch(nt, v@, i as int);
            }
            1
        }
    }

    fn announce(&mut self, v: HashSet<Transaction>, sends: &mut Vec<BbSend>)
        requires
            old(self).wf(),
        ensures
            final(self).wf(),
            (final(self)@, sends_view(final(sends)@)) == ({
                let (s, out) = announce(old(self)@, v@);
                (s, sends_view(old(sends)@) + out)
            }),
    {
        self.ready_sent = true;
        let count = self.count_ready(&v, self.my_id);
        let ghost before = sends@;
        sends.push(BbSend::Ready(copy_set(&v)));
        assert(sends_view(sends@) =~= sends_view(before) + seq![BbSendModel::Ready(v@)]);
        if count as u64 >= (self.num_parties - self.t_s) as u64 {
            self.output = Some(v);
        }
    }

    fn handle_echo(&mut self, from: u32, v: HashSet<Transaction>, sends: &mut Vec<BbSend>)
        requires
            old(self).wf(),
        ensures
            final(self).wf(),
            (final(self)@, sends_view(final(sends)@)) == ({
                let (s, out) = on_echo(old(self)@, from, v@);
                (s, sends_view(old(sends)@) + out)
            }),
    {
        let count = self.count_echo(&v, from);
        if count as u64 >= (self.num_parties - self.t_s) as u64 && !self.ready_sent {
            self.announce(v, sends);
        } else {
            assert(sends_view(sends@) + Seq::<BbSendModel>::empty() =~= sends_view(sends@));
        }
    }

    fn handle_ready(&mut self, from: u32, v: HashSet<Transaction>, sends: &mut Vec<BbSend>)
        requires
            old(self).wf(),
        ensures
            final(self).wf(),
            (final(self)@, sends_view(final(sends)@)) == ({
                let (s, out) = on_ready(old(self)@, from, v@);
                (s, sends_view(old(sends)@) + out)
            }),
    {
        let count = self.count_ready(&v, from);
        assert(sends_view(sends@) + Seq::<BbSendModel>::empty() =~= sends_view(sends@));
        if count as u64 >= (self.t_s as u64) + 1 && !self.ready_sent {
            self.announce(v, sends);
        } else if count as u64 >= (self.num_parties - self.t_s) as u64 {
            self.output = Some(v);
        }
    }

    fn handle_value(&mut self, from: u32, v: HashSet<Transaction>, sends: &mut Vec<BbSend>)
        requires
            old(self).wf(),
        ensures
            final(self).wf(),
            (final(self)@, sends_view(final(sends)@)) == ({
                let (s, out) = on_value(old(self)@, from, v@);
                (s, sends_view(old(sends)@) + out)
            }),
    {
        if from == self.sender_id && !self.echoed {
            self.echoed = true;
            let ghost before = sends@;
            sends.push(BbSend::Echo(copy_set(&v)));
            let ghost mid = sends@;
            assert(sends_view(mid) =~= sends_view(before) + seq![BbSendModel::Echo(v@)]);
            let me = self.my_id;
            self.handle_echo(me, v, sends);
            proof {
                let (s2, out) = on_echo(BbModel { echoed: true, ..old(self)@ }, old(self)@.my_id, v@);
                assert(sends_view(before) + (seq![BbSendModel::Echo(v@)] + out) =~= sends_view(mid) + out);
            }
        } else {
            assert(sends_view(sends@) + Seq::<BbSendModel>::empty() =~= sends_view(sends@));
        }
    }

    /// Starts a party; the sender sends its batch `beta` and echoes it.
    pub fn new(my_id: u32, sender_id: u32, num_parties: u32, t_s: u32, beta: HashSet<Transaction>) -> (res: (
        Bb,
        Vec<BbSend>,
    ))
        requires
            t_s <= num_parties,
            t_s < u32::MAX,
        ensures
            res.0.wf(),
            (res.0@, sends_view(res.1@)) == bb_start(my_id, sender_id, num_parties, t_s, beta@),
    {
        let mut party = Bb {
            my_id,
            sender_id,
            num_parties,
            t_s,
            echoed: false,
            ready_sent: false,
            tallies: Vec::new(),
            output: None,
        };
        let mut sends: Vec<BbSend> = Vec::new();
        proof {
            assert(party@.tallies =~= Seq::<BbTallyModel>::empty());
            assert(party@ == bb_initial_state(my_id, sender_id, num_parties, t_s));
            assert(sends_view(sends@) =~= Seq::<BbSendModel>::empty());
        }
        if my_id == sender_id {
            sends.push(BbSend::Value(copy_set(&beta)));
            assert(sends_view(sends@) =~= seq![BbSendModel::Value(beta@)]);
            party.handle_value(my_id, beta, &mut sends);
        }
        (party, sends)
    }

    /// Takes one event and returns what to send, as `bb_step` says.
    pub fn handle(&mut self, event: BbEvent) -> (sends: Vec<BbSend>)
        requires
            old(self).wf(),
        ensures
            final(self).wf(),
            (final(self)@, sends_view(sends@)) == bb_step(old(self)@, event_view(event)),
    {
        let mut sends: Vec<BbSend> = Vec::new();
        proof {
            assert(sends_view(sends@) =~= Seq::<BbSendModel>::empty());
        }
        if self.output.is_some() {
            return sends;
        }
        match event {
            BbEvent::Value { from, v } => self.handle_value(from, v, &mut sends),
            BbEvent::Echo { from, v } => self.handle_echo(from, v, &mut sends),
            BbEvent::Ready { from, v } => self.handle_ready(from, v, &mut sends),
        }
        proof {
            let (s, out) = bb_step(old(self)@, event_view(event));
            assert(Seq::<BbSendModel>::empty() + out =~= out);
        }
        sends
    }
}


/// Feeding `events` in order from state `s`: the final state and everything
/// sent on the way.
pub open spec fn bb_run(s: BbModel, events: Seq<(int, u32, Set<Transaction>)>) -> (
    BbModel,
    Seq<BbSendModel>,
)
    decreases events.len(),
{
    if events.len() == 0 {
        (s, seq![])
    } else {
        let (s1, out1) = bb_step(s, events[0]);
        let (s2, out2) = bb_run(s1, events.drop_first());
        (s2, out1 + out2)
    }
}

pub open spec fn events_view(events: Seq<BbEvent>) -> Seq<(int, u32, Set<Transaction>)> {
    events.map_values(|e: BbEvent| event_view(e))
}

/// What one party makes of the broadcast from `sender_id`: the batch it
/// delivers (`None` while it has not) and everything it sends, in order.
pub open spec fn bb_outcome(
    events: Seq<(int, u32, Set<Transaction>)>,
    sender_id: u32,
    beta: Set<Transaction>,
    t_s: u32,
    num_parties: u32,
    my_id: u32,
) -> (Option<Set<Transaction>>, Seq<BbSendModel>) {
    let (s0, first) = bb_start(my_id, sender_id, num_parties, t_s, beta);
    let (last, sent) = bb_run(s0, events);
    (last.output, first + sent)
}

proof fn lemma_bb_run_after_output(s: BbModel, events: Seq<(int, u32, Set<Transaction>)>)
    requires
        s.output is Some,
    ensures
        bb_run(s, events) == (s, Seq::<BbSendModel>::empty()),
    decreases events.len(),
{
    if events.len() > 0 {
        lemma_bb_run_after_output(s, events.drop_first());
        assert(Seq::<BbSendModel>::empty() + Seq::<BbSendModel>::empty() =~= Seq::<
            BbSendModel,
        >::empty());
    }
}

/// Runs one party of the broadcast of a batch from `sender_id` over the
/// events it receives, in order, until it delivers. Returns the delivered
/// batch (`None` when the events run out first) and everything the party
/// sends; the sender starts by sending its batch `beta`.
pub fn bb(
    events: Vec<BbEvent>,
    sender_id: u32,
    beta: HashSet<Transaction>,
    t_s: u32,
    num_parties: u32,
    my_id: u32,
) -> (res: (Option<HashSet<Transaction>>, Vec<BbSend>))
    requires
        t_s <= num_parties,
        t_s < u32::MAX,
    ensures
        ({
            let (out, sent) = bb_outcome(
                events_view(events@),
                sender_id,
                beta@,
                t_s,
                num_parties,
                my_id,
            );
            &&& sends_view(res.1@) == sent
            &&& match out {
                Some(v) => res.0 matches Some(r) && r@ == v,
                None => res.0 is None,
            }
        }),
{
    let ghost whole = events_view(events@);
    let ghost b = beta@;
    let (mut party, mut sends) = Bb::new(my_id, sender_id, num_parties, t_s, beta);
    let ghost s0 = party@;
    let ghost first = sends_view(sends@);
    let mut rest = events;
    proof {
        assert(first + bb_run(s0, whole).1 == sends_view(sends@) + bb_run(party@, events_view(rest@)).1);
    }
    while rest.len() > 0
        invariant
            party.wf(),
            (s0, first) == bb_start(my_id, sender_id, num_parties, t_s, b),
            bb_run(s0, whole).0 == bb_run(party@, events_view(rest@)).0,
            first + bb_run(s0, whole).1 == sends_view(sends@) + bb_run(party@, events_view(rest@)).1,
        ensures
            rest.len() == 0 || party@.output is Some,
        decreases rest.len(),
    {
        if party.output().is_some() {
            break;
        }
        let ghost before = party@;
        let ghost rest_before = rest@;
        let e = rest.remove(0);
        let ghost ev = event_view(e);
        let mut out = party.handle(e);
        proof {
            assert(events_view(rest_before)[0] == ev);
            assert(events_view(rest@) =~= events_view(rest_before).drop_first());
            let (s2, out2) = bb_run(party@, events_view(rest@));
            assert(bb_run(before, events_view(rest_before)) == (s2, sends_view(out@) + out2));
        }
        let ghost mid = sends@;
        let ghost outv = out@;
        sends.append(&mut out);
        proof {
            let out2 = bb_run(party@, events_view(rest@)).1;
            assert(sends@ =~= mid + outv);
            assert(sends_view(sends@) =~= sends_view(mid) + sends_view(outv));
            assert(sends_view(mid) + (sends_view(outv) + out2) =~= (sends_view(mid) + sends_view(
                outv,
            )) + out2);
        }
    }
    proof {
        if party@.output is Some {
            lemma_bb_run_after_output(party@, events_view(rest@));
        } else {
            assert(events_view(rest@).len() == 0);
        }
        assert(sends_view(sends@) + Seq::<BbSendModel>::empty() =~= sends_view(sends@));
    }
    let delivered = match party.output() {
        Some(v) => Some(copy_set(v)),
        None => None,
    };
    (delivered, sends)
}


/// How many ready announcements, and how many echoes, are among `sent`.
pub open spec fn count_sends(sent: Seq<BbSendModel>) -> (nat, nat)
    decreases sent.len(),
{
    if sent.len() == 0 {
        (0, 0)
    } else {
        let (r, e) = count_sends(sent.drop_first());
        match sent[0] {
            BbSendModel::Ready(_) => (r + 1, e),
            BbSendModel::Echo(_) => (r, e + 1),
            BbSendModel::Value(_) => (r, e),
        }
    }
}

proof fn lemma_count_sends_concat(a: Seq<BbSendModel>, b: Seq<BbSendModel>)
    ensures
        count_sends(a + b).0 == count_sends(a).0 + count_sends(b).0,
        count_sends(a + b).1 == count_sends(a).1 + count_sends(b).1,
    decreases a.len(),
{
    if a.len() > 0 {
        lemma_count_sends_concat(a.drop_first(), b);
        assert((a + b).drop_first() =~= a.drop_first() + b);
    }
}

proof fn lemma_count_one(m: BbSendModel)
    ensures
        count_sends(seq![m]) == (match m {
            BbSendModel::Ready(_) => (1nat, 0nat),
            BbSendModel::Echo(_) => (0nat, 1nat),
            BbSendModel::Value(_) => (0nat, 0nat),
        }),
        count_sends(Seq::<BbSendModel>::empty()) == (0nat, 0nat),
{
    let one = seq![m];
    assert(one.len() == 1 && one[0] == m);
    assert(one.drop_first() =~= Seq::<BbSendModel>::empty());
    assert(count_sends(Seq::<BbSendModel>::empty()) == (0nat, 0nat));
    assert(count_sends(one.drop_first()) == (0nat, 0nat));
}

/// Facts about what one step sends: at most one announcement, and only by
/// a party that had not announced; at most one echo, and only by a party
/// that had not echoed; and once announced or echoed, always so.
pub open spec fn step_sends_ok(s: BbModel, t: BbModel, out: Seq<BbSendModel>) -> bool {
    &&& s.ready_sent ==> t.ready_sent
    &&& s.echoed ==> t.echoed
    &&& count_sends(out).0 <= (if s.ready_sent {
        0int
    } else {
        1int
    })
    &&& count_sends(out).0 == 1 ==> t.ready_sent
    &&& count_sends(out).1 <= (if s.echoed {
        0int
    } else {
        1int
    })
    &&& count_sends(out).1 == 1 ==> t.echoed
}

proof fn lemma_announce_sends(s: BbModel, v: Set<Transaction>)
    requires
        !s.ready_sent,
    ensures
        step_sends_ok(s, announce(s, v).0, announce(s, v).1),
        announce(s, v).0.echoed == s.echoed,
{
    lemma_count_one(BbSendModel::Ready(v));
}

proof fn lemma_echo_sends(s: BbModel, from: u32, v: Set<Transaction>)
    ensures
        step_sends_ok(s, on_echo(s, from, v).0, on_echo(s, from, v).1),
        count_sends(on_echo(s, from, v).1).1 == 0,
        on_echo(s, from, v).0.echoed == s.echoed,
{
    let t = add_echo(s.tallies, v, from);
    let s1 = BbModel { tallies: t, ..s };
    lemma_count_one(BbSendModel::Ready(v));
    if echo_count(t, v) >= bb_quorum(s) && !s.ready_sent {
        lemma_announce_sends(s1, v);
    }
}

proof fn lemma_step_sends(s: BbModel, e: (int, u32, Set<Transaction>))
    ensures
        step_sends_ok(s, bb_step(s, e).0, bb_step(s, e).1),
{
    lemma_count_one(BbSendModel::Echo(e.2));
    lemma_count_one(BbSendModel::Ready(e.2));
    if s.output is None {
        if e.0 == 0 {
            if e.1 == s.sender_id && !s.echoed {
                let s1 = BbModel { echoed: true, ..s };
                lemma_echo_sends(s1, s.my_id, e.2);
                lemma_count_sends_concat(seq![BbSendModel::Echo(e.2)], on_echo(s1, s.my_id, e.2).1);
            }
        } else if e.0 == 1 {
            lemma_echo_sends(s, e.1, e.2);
        } else {
            let t = add_ready(s.tallies, e.2, e.1);
            let s1 = BbModel { tallies: t, ..s };
            if ready_count(t, e.2) >= s.t_s + 1 && !s.ready_sent {
                lemma_announce_sends(s1, e.2);
            }
        }
    }
}

proof fn lemma_run_sends(s: BbModel, events: Seq<(int, u32, Set<Transaction>)>)
    ensures
        count_sends(bb_run(s, events).1).0 <= (if s.ready_sent {
            0int
        } else {
            1int
        }),
        count_sends(bb_run(s, events).1).1 <= (if s.echoed {
            0int
        } else {
            1int
        }),
    decreases events.len(),
{
    if events.len() == 0 {
        lemma_count_one(BbSendModel::Ready(Set::empty()));
    } else {
        let (s1, out1) = bb_step(s, events[0]);
        lemma_step_sends(s, events[0]);
        lemma_run_sends(s1, events.drop_first());
        lemma_count_sends_concat(out1, bb_run(s1, events.drop_first()).1);
    }
}

/// Over any sequence of events, a party of the broadcast announces ready at
/// most once and echoes at most once.
pub proof fn lemma_bb_announces_and_echoes_at_most_once(
    events: Seq<(int, u32, Set<Transaction>)>,
    sender_id: u32,
    beta: Set<Transaction>,
    t_s: u32,
    num_parties: u32,
    my_id: u32,
)
    ensures
        count_sends(bb_outcome(events, sender_id, beta, t_s, num_parties, my_id).1).0 <= 1,
        count_sends(bb_outcome(events, sender_id, beta, t_s, num_parties, my_id).1).1 <= 1,
{
    let s0 = bb_initial_state(my_id, sender_id, num_parties, t_s);
    let (s1, first) = bb_start(my_id, sender_id, num_parties, t_s, beta);
    lemma_count_one(BbSendModel::Value(beta));
    if my_id == sender_id {
        lemma_step_sends(s0, (0, my_id, beta));
        assert(bb_step(s0, (0, my_id, beta)) == on_value(s0, my_id, beta));
        lemma_count_sends_concat(seq![BbSendModel::Value(beta)], on_value(s0, my_id, beta).1);
    }
    lemma_run_sends(s1, events);
    lemma_count_sends_concat(first, bb_run(s1, events).1);
}

/// A delivered batch has a quorum of ready announcements.
pub open spec fn bb_delivery_justified(s: BbModel) -> bool {
    s.output matches Some(v) ==> ready_count(s.tallies, v) >= bb_quorum(s)
}

proof fn lemma_step_delivery(s: BbModel, e: (int, u32, Set<Transaction>))
    requires
        bb_delivery_justified(s),
    ensures
        bb_delivery_justified(bb_step(s, e).0),
        bb_step(s, e).0.num_parties == s.num_parties,
        bb_step(s, e).0.t_s == s.t_s,
{
}

proof fn lemma_run_delivery(s: BbModel, events: Seq<(int, u32, Set<Transaction>)>)
    requires
        bb_delivery_justified(s),
    ensures
        bb_delivery_justified(bb_run(s, events).0),
        bb_run(s, events).0.num_parties == s.num_parties,
        bb_run(s, events).0.t_s == s.t_s,
    decreases events.len(),
{
    if events.len() > 0 {
        lemma_step_delivery(s, events[0]);
        lemma_run_delivery(bb_step(s, events[0]).0, events.drop_first());
    }
}

/// A party delivers a batch only once `n - t_s` parties (itself included)
/// have announced ready for that batch.
pub proof fn lemma_bb_delivery_needs_ready_quorum(
    events: Seq<(int, u32, Set<Transaction>)>,
    sender_id: u32,
    beta: Set<Transaction>,
    t_s: u32,
    num_parties: u32,
    my_id: u32,
    v: Set<Transaction>,
)
    requires
        bb_outcome(events, sender_id, beta, t_s, num_parties, my_id).0 == Some(v),
    ensures
        ready_count(
            bb_run(bb_start(my_id, sender_id, num_parties, t_s, beta).0, events).0.tallies,
            v,
        ) >= num_parties - t_s,
{
    let s0 = bb_initial_state(my_id, sender_id, num_parties, t_s);
    if my_id == sender_id {
        lemma_step_delivery(s0, (0, my_id, beta));
        assert(bb_step(s0, (0, my_id, beta)) == on_value(s0, my_id, beta));
    }
    lemma_run_delivery(bb_start(my_id, sender_id, num_parties, t_s, beta).0, events);
}

proof fn lemma_find_batch_spec(t: Seq<BbTallyModel>, v: Set<Transaction>)
    ensures
        find_batch(t, v) <= t.len(),
        forall|j: int| 0 <= j < find_batch(t, v) ==> t[j].v != v,
        find_batch(t, v) < t.len() ==> t[find_batch(t, v) as int].v == v,
    decreases t.len(),
{
    if t.len() > 0 && t[0].v != v {
        lemma_find_batch_spec(t.drop_first(), v);
        assert forall|j: int| 0 <= j < find_batch(t, v) implies t[j].v != v by {
            if j > 0 {
                assert(t[j] == t.drop_first()[j - 1]);
            }
        }
    }
}

/// The parties that `t` records as announcing ready for `v`.
pub open spec fn readiers(t: Seq<BbTallyModel>, v: Set<Transaction>) -> Set<u32> {
    let i = find_batch(t, v);
    if i < t.len() {
        t[i as int].readies
    } else {
        Set::empty()
    }
}

/// The parties that `t` records as echoing `v`.
pub open spec fn echoers(t: Seq<BbTallyModel>, v: Set<Transaction>) -> Set<u32> {
    let i = find_batch(t, v);
    if i < t.len() {
        t[i as int].echoes
    } else {
        Set::empty()
    }
}

proof fn lemma_add_tallies(t: Seq<BbTallyModel>, v: Set<Transaction>, x: u32)
    ensures
        readiers(add_ready(t, v, x), v) == readiers(t, v).insert(x),
        echoers(add_echo(t, v, x), v) == echoers(t, v).insert(x),
        ready_count(add_ready(t, v, x), v) == readiers(add_ready(t, v, x), v).len(),
        echo_count(add_echo(t, v, x), v) == echoers(add_echo(t, v, x), v).len(),
{
    lemma_find_batch_spec(t, v);
    let i = find_batch(t, v) as int;
    let r = add_ready(t, v, x);
    let e = add_echo(t, v, x);
    if i < t.len() {
        assert forall|j: int| 0 <= j < i implies r[j].v != v && e[j].v != v by {
            assert(r[j] == t[j] && e[j] == t[j]);
        }
        lemma_find_batch(r, v, i);
        lemma_find_batch(e, v, i);
    } else {
        assert forall|j: int| 0 <= j < i implies r[j].v != v && e[j].v != v by {
            assert(r[j] == t[j] && e[j] == t[j]);
        }
        lemma_find_batch(r, v, i);
        lemma_find_batch(e, v, i);
        assert(set![x] =~= Set::<u32>::empty().insert(x));
    }
}

/// The parties a party has heard announce ready for `v`, counting the event
/// `e` it takes, when it is a ready announcement (neither a batch, kind 0,
/// nor an echo, kind 1), and not its own announcement.
pub open spec fn heard_ready(s: BbModel, e: (int, u32, Set<Transaction>), v: Set<Transaction>) -> Set<u32> {
    if e.0 != 0 && e.0 != 1 && e.2 == v {
        readiers(s.tallies, v).insert(e.1)
    } else {
        readiers(s.tallies, v)
    }
}

/// The parties a party has heard echo `v`, counting the event `e` it takes:
/// an echo by its sender, or its own echo of the sender's batch.
pub open spec fn heard_echo(s: BbModel, e: (int, u32, Set<Transaction>), v: Set<Transaction>) -> Set<u32> {
    if e.0 == 1 && e.2 == v {
        echoers(s.tallies, v).insert(e.1)
    } else if e.0 == 0 && e.1 == s.sender_id && !s.echoed && e.2 == v {
        echoers(s.tallies, v).insert(s.my_id)
    } else {
        echoers(s.tallies, v)
    }
}

/// A party announces ready for a batch `v` only when, counting the event it
/// just took but not its own announcement, `t_s + 1` parties announced
/// ready for `v` or `n - t_s` parties echoed it.
pub proof fn lemma_bb_ready_is_justified(s: BbModel, e: (int, u32, Set<Transaction>))
    ensures
        ({
            let out = bb_step(s, e).1;
            forall|i: int|
                0 <= i < out.len() && #[trigger] out[i] is Ready ==> {
                    ||| heard_ready(s, e, out[i]->Ready_0).len() >= s.t_s + 1
                    ||| heard_echo(s, e, out[i]->Ready_0).len() >= s.num_parties - s.t_s
                }
        }),
{
    let out = bb_step(s, e).1;
    let v = e.2;
    lemma_add_tallies(s.tallies, v, e.1);
    lemma_add_tallies(s.tallies, v, s.my_id);
    if s.output is None {
        if e.0 == 0 {
            if e.1 == s.sender_id && !s.echoed {
                let s1 = BbModel { echoed: true, ..s };
                let t = add_echo(s.tallies, v, s.my_id);
                let out2 = on_echo(s1, s.my_id, v).1;
                assert(out == seq![BbSendModel::Echo(v)] + out2);
                assert forall|i: int| 0 <= i < out.len() && #[trigger] out[i] is Ready implies {
                    ||| heard_ready(s, e, out[i]->Ready_0).len() >= s.t_s + 1
                    ||| heard_echo(s, e, out[i]->Ready_0).len() >= s.num_parties - s.t_s
                } by {
                    assert(out[i] == out2[i - 1]);
                    assert(echo_count(t, v) >= bb_quorum(s1));
                    assert(out[i]->Ready_0 == v);
                    assert(heard_echo(s, e, v) == echoers(t, v));
                }
            }
        } else if e.0 == 1 {
            let t = add_echo(s.tallies, v, e.1);
            assert forall|i: int| 0 <= i < out.len() && #[trigger] out[i] is Ready implies {
                ||| heard_ready(s, e, out[i]->Ready_0).len() >= s.t_s + 1
                ||| heard_echo(s, e, out[i]->Ready_0).len() >= s.num_parties - s.t_s
            } by {
                assert(echo_count(t, v) >= bb_quorum(s));
                assert(out[i]->Ready_0 == v);
                assert(heard_echo(s, e, v) == echoers(t, v));
            }
        } else {
            let t = add_ready(s.tallies, v, e.1);
            assert forall|i: int| 0 <= i < out.len() && #[trigger] out[i] is Ready implies {
                ||| heard_ready(s, e, out[i]->Ready_0).len() >= s.t_s + 1
                ||| heard_echo(s, e, out[i]->Ready_0).len() >= s.num_parties - s.t_s
            } by {
                assert(ready_count(t, v) >= s.t_s + 1);
                assert(out[i]->Ready_0 == v);
                assert(heard_ready(s, e, v) == readiers(t, v));
            }
        }
    }
}

/// A party of the batch broadcast echoes only in the step in which it takes
/// the first batch from the designated sender, and it echoes that batch;
/// and it sends a batch (`Value`) in no step.
pub proof fn lemma_bb_echo_only_the_senders_first_batch(s: BbModel, e: (int, u32, Set<Transaction>))
    ensures
        ({
            let out = bb_step(s, e).1;
            &&& forall|i: int|
                0 <= i < out.len() && #[trigger] out[i] is Echo ==> e.0 == 0 && e.1 == s.sender_id
                    && !s.echoed && s.output is None && out[i]->Echo_0 == e.2
            &&& forall|i: int| 0 <= i < out.len() ==> !(#[trigger] out[i] is Value)
        }),
{
    let out = bb_step(s, e).1;
    lemma_add_tallies(s.tallies, e.2, e.1);
    lemma_add_tallies(s.tallies, e.2, s.my_id);
    if s.output is None && e.0 == 0 && e.1 == s.sender_id && !s.echoed {
        let s1 = BbModel { echoed: true, ..s };
        let out2 = on_echo(s1, s.my_id, e.2).1;
        assert(out == seq![BbSendModel::Echo(e.2)] + out2);
        assert forall|i: int| 0 <= i < out.len() implies (#[trigger] out[i] is Echo ==> i == 0) && !(out[i] is Value) by {
            if i > 0 {
                assert(out[i] == out2[i - 1]);
            }
        }
    }
}

} // verus!
