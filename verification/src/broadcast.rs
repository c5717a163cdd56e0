//! Bracha-style reliable broadcast of binary values.
//!
//! Every party echoes a proposal it hears of (once per broadcaster and
//! value), announces "ready" once `n - t_s` parties echoed a pair or
//! `t_s + 1` announced ready for it (once in all), and delivers a value once
//! `n - t_s` parties announced ready for it. A party keeps, for each
//! (broadcaster, value) pair, the set of parties it heard echo it and the set
//! it heard announce ready for it, and counts its own echo and announcement
//! as it sends them.
//!
//! `ReliableBroadcast` is the decision logic: it takes one incoming message
//! at a time and answers with the messages to send. `reliable_broadcast_bb`
//! runs it over a list of incoming messages.

use std::collections::HashMap;
use std::collections::HashSet;
use vstd::prelude::*;

use crate::messages::Message;
use crate::messages::Val;

verus! {

broadcast use vstd::std_specs::hash::group_hash_axioms;

/// A small code for a value, so that a (party, value) pair can be turned
/// into a single integer key.
pub open spec fn val_code(v: Val) -> nat {
    match v {
        Val::Zero => 0,
        Val::One => 1,
        Val::Lambda => 2,
    }
}

/// The integer key under which the tallies for (`broadcaster`, `v`) are kept.
pub open spec fn pair_key(broadcaster: u32, v: Val) -> u64 {
    (broadcaster * 3 + val_code(v)) as u64
}

fn key_of(broadcaster: u32, v: Val) -> (k: u64)
    ensures
        k == pair_key(broadcaster, v),
{
    let code: u64 = match v {
        Val::Zero => 0,
        Val::One => 1,
        Val::Lambda => 2,
    };
    (broadcaster as u64) * 3 + code
}

proof fn lemma_pair_key_injective(b1: u32, v1: Val, b2: u32, v2: Val)
    requires
        pair_key(b1, v1) == pair_key(b2, v2),
    ensures
        b1 == b2,
        v1 == v2,
{
}

/// The abstract state of one party in the broadcast.
pub struct BroadcastModel {
    pub my_id: u32,
    pub num_parties: u32,
    pub t_s: u32,
    /// The (broadcaster, value) pairs this party has echoed.
    pub echoed: Set<(u32, Val)>,
    /// For each (broadcaster, value): the parties heard echoing it.
    pub echoes: Map<(u32, Val), Set<u32>>,
    /// For each (broadcaster, value): the parties heard announcing ready.
    pub readies: Map<(u32, Val), Set<u32>>,
    /// Whether this party has announced ready (for any pair).
    pub ready_sent: bool,
    /// The value this party delivered, once it has.
    pub output: Option<Val>,
}

/// Agreement needs this many matching messages: `n - t_s`.
pub open spec fn quorum(s: BroadcastModel) -> int {
    s.num_parties - s.t_s
}

/// Joining the ready announcements needs this many of them: `t_s + 1`.
pub open spec fn amplification(s: BroadcastModel) -> int {
    s.t_s + 1
}

/// Whether `x` is among the parties tallied for `p`.
pub open spec fn heard(m: Map<(u32, Val), Set<u32>>, p: (u32, Val), x: u32) -> bool {
    m.contains_key(p) && m[p].contains(x)
}

/// `m` with `x` tallied for `p`.
pub open spec fn tally(m: Map<(u32, Val), Set<u32>>, p: (u32, Val), x: u32) -> Map<
    (u32, Val),
    Set<u32>,
> {
    m.insert(
        p,
        (if m.contains_key(p) {
            m[p]
        } else {
            Set::empty()
        }).insert(x),
    )
}

/// How many parties are tallied for `p`.
pub open spec fn count(m: Map<(u32, Val), Set<u32>>, p: (u32, Val)) -> nat {
    if m.contains_key(p) {
        m[p].len()
    } else {
        0
    }
}

pub open spec fn own_ready(s: BroadcastModel, broadcaster: u32, v: Val) -> Message {
    Message::ReadyBB { v, broadcaster, readier: s.my_id }
}

/// Announcing ready for (`broadcaster`, `v`): the announcement is sent and
/// counted at once; if it completes a quorum of readies, `v` is delivered.
pub open spec fn announce(s: BroadcastModel, broadcaster: u32, v: Val) -> (BroadcastModel, Seq<
    Message,
>) {
    let p = (broadcaster, v);
    let r = tally(s.readies, p, s.my_id);
    let s1 = BroadcastModel { readies: r, ready_sent: true, ..s };
    if count(r, p) >= quorum(s) {
        (BroadcastModel { output: Some(v), ..s1 }, seq![own_ready(s, broadcaster, v)])
    } else {
        (s1, seq![own_ready(s, broadcaster, v)])
    }
}

/// What an echo of (`broadcaster`, `v`) by `echoer` does: a new echo is
/// tallied; one that brings the echoes to a quorum makes this party announce
/// ready, unless it has announced already.
pub open spec fn on_echo(s: BroadcastModel, v: Val, broadcaster: u32, echoer: u32) -> (
    BroadcastModel,
    Seq<Message>,
) {
    let p = (broadcaster, v);
    if heard(s.echoes, p, echoer) {
        (s, seq![])
    } else {
        let e = tally(s.echoes, p, echoer);
        let s1 = BroadcastModel { echoes: e, ..s };
        if count(e, p) >= quorum(s) && !s.ready_sent {
            announce(s1, broadcaster, v)
        } else {
            (s1, seq![])
        }
    }
}

/// What a ready announcement for (`broadcaster`, `v`) by `readier` does: a
/// new one is tallied; one that brings the readies to `t_s + 1` makes this
/// party announce too, unless it has announced already; a quorum of readies
/// delivers `v`.
pub open spec fn on_ready(s: BroadcastModel, v: Val, broadcaster: u32, readier: u32) -> (
    BroadcastModel,
    Seq<Message>,
) {
    let p = (broadcaster, v);
    if heard(s.readies, p, readier) {
        (s, seq![])
    } else {
        let r = tally(s.readies, p, readier);
        let s1 = BroadcastModel { readies: r, ..s };
        if count(r, p) >= amplification(s) && !s.ready_sent {
            announce(s1, broadcaster, v)
        } else if count(r, p) >= quorum(s) {
            (BroadcastModel { output: Some(v), ..s1 }, seq![])
        } else {
            (s1, seq![])
        }
    }
}

/// What a proposal `v` by `broadcaster` does: the party echoes it, unless it
/// has echoed that pair already, and counts its own echo.
pub open spec fn on_propose(s: BroadcastModel, v: Val, broadcaster: u32) -> (BroadcastModel, Seq<
    Message,
>) {
    let p = (broadcaster, v);
    if s.echoed.contains(p) {
        (s, seq![])
    } else {
        let (s2, out) = on_echo(
            BroadcastModel { echoed: s.echoed.insert(p), ..s },
            v,
            broadcaster,
            s.my_id,
        );
        (s2, seq![Message::EchoBB { v, broadcaster, echoer: s.my_id }] + out)
    }
}

/// One step of the protocol: the next state and the messages to send, in
/// order. Once a value is delivered, nothing changes any more; messages of
/// other protocols are ignored.
pub open spec fn step(s: BroadcastModel, msg: Message) -> (BroadcastModel, Seq<Message>) {
    if s.output is Some {
        (s, seq![])
    } else {
        match msg {
            Message::ProposeBB { v, broadcaster } => on_propose(s, v, broadcaster),
            Message::EchoBB { v, broadcaster, echoer } => on_echo(s, v, broadcaster, echoer),
            Message::ReadyBB { v, broadcaster, readier } => on_ready(s, v, broadcaster, readier),
            _ => (s, seq![]),
        }
    }
}

/// The state of a party that has heard nothing yet.
pub open spec fn blank(my_id: u32, num_parties: u32, t_s: u32) -> BroadcastModel {
    BroadcastModel {
        my_id,
        num_parties,
        t_s,
        echoed: Set::empty(),
        echoes: Map::empty(),
        readies: Map::empty(),
        ready_sent: false,
        output: None,
    }
}

/// How a party starts: the designated sender proposes `One` to all and takes
/// its own proposal as heard; the others do nothing.
pub open spec fn start(my_id: u32, num_parties: u32, t_s: u32, sender: bool) -> (
    BroadcastModel,
    Seq<Message>,
) {
    let s0 = blank(my_id, num_parties, t_s);
    if sender {
        let (s1, out) = on_propose(s0, Val::One, my_id);
        (s1, seq![Message::ProposeBB { v: Val::One, broadcaster: my_id }] + out)
    } else {
        (s0, seq![])
    }
}

/// Feeding the messages of `inbox` in order from state `s`: the final state
/// and everything sent on the way.
pub open spec fn run(s: BroadcastModel, inbox: Seq<Message>) -> (BroadcastModel, Seq<Message>)
    decreases inbox.len(),
{
    if inbox.len() == 0 {
        (s, seq![])
    } else {
        let (s1, out1) = step(s, inbox[0]);
        let (s2, out2) = run(s1, inbox.drop_first());
        (s2, out1 + out2)
    }
}

/// The parameters the protocol needs: `n - t_s` and `t_s + 1` must exist.
pub open spec fn valid_params(num_parties: u32, t_s: u32) -> bool {
    t_s <= num_parties && t_s < u32::MAX
}

/// The tallies of a state are finite sets.
pub open spec fn tallies_finite(s: BroadcastModel) -> bool {
    &&& forall|p: (u32, Val)| #[trigger] s.echoes.contains_key(p) ==> s.echoes[p].finite()
    &&& forall|p: (u32, Val)| #[trigger] s.readies.contains_key(p) ==> s.readies[p].finite()
}

spec fn tally_view(m: Map<u64, HashSet<u32>>) -> Map<(u32, Val), Set<u32>> {
    Map::new(
        |p: (u32, Val)| m.contains_key(pair_key(p.0, p.1)),
        |p: (u32, Val)| m[pair_key(p.0, p.1)]@,
    )
}

spec fn pairs_view(s: Set<u64>) -> Set<(u32, Val)> {
    Set::new(|p: (u32, Val)| s.contains(pair_key(p.0, p.1)))
}

proof fn lemma_tally_view_insert(m: Map<u64, HashSet<u32>>, b: u32, v: Val, s: HashSet<u32>)
    ensures
        tally_view(m.insert(pair_key(b, v), s)) == tally_view(m).insert((b, v), s@),
{
    let lhs = tally_view(m.insert(pair_key(b, v), s));
    let rhs = tally_view(m).insert((b, v), s@);
    assert forall|p: (u32, Val)| lhs.contains_key(p) == rhs.contains_key(p) by {
        if pair_key(p.0, p.1) == pair_key(b, v) {
            lemma_pair_key_injective(p.0, p.1, b, v);
        }
    }
    assert forall|p: (u32, Val)| #[trigger] lhs.contains_key(p) implies lhs[p] == rhs[p] by {
        if pair_key(p.0, p.1) == pair_key(b, v) {
            lemma_pair_key_injective(p.0, p.1, b, v);
        }
    }
    assert(lhs =~= rhs);
}

proof fn lemma_pairs_view_insert(s: Set<u64>, b: u32, v: Val)
    ensures
        pairs_view(s.insert(pair_key(b, v))) == pairs_view(s).insert((b, v)),
{
    assert forall|p: (u32, Val)|
        pairs_view(s.insert(pair_key(b, v))).contains(p) == pairs_view(s).insert((b, v)).contains(
            p,
        ) by {
        if pair_key(p.0, p.1) == pair_key(b, v) {
            lemma_pair_key_injective(p.0, p.1, b, v);
        }
    }
    assert(pairs_view(s.insert(pair_key(b, v))) =~= pairs_view(s).insert((b, v)));
}

/// Tallying keeps the tallies finite.
proof fn lemma_tally_finite(m: Map<(u32, Val), Set<u32>>, p: (u32, Val), x: u32)
    requires
        forall|q: (u32, Val)| #[trigger] m.contains_key(q) ==> m[q].finite(),
    ensures
        forall|q: (u32, Val)| #[trigger] tally(m, p, x).contains_key(q) ==> tally(m, p, x)[q].finite(),
{
    let t = tally(m, p, x);
    assert forall|q: (u32, Val)| #[trigger] t.contains_key(q) implies t[q].finite() by {
        if q != p {
            assert(m.contains_key(q));
        } else {
            let base = if m.contains_key(p) {
                m[p]
            } else {
                Set::<u32>::empty()
            };
            assert(base.finite());
            assert(base.insert(x).finite());
        }
    }
}

/// Adds `x` to the tally of (`b`, `v`) in `m`; says whether it is new there
/// and how many the tally then holds.
fn add_to_tally(m: &mut HashMap<u64, HashSet<u32>>, b: u32, v: Val, x: u32) -> (res: (bool, usize))
    ensures
        res.0 == !heard(tally_view(old(m)@), (b, v), x),
        tally_view(final(m)@) == tally(tally_view(old(m)@), (b, v), x),
        res.1 == count(tally_view(final(m)@), (b, v)),
{
    let ghost t = tally_view(m@);
    let ghost p = (b, v);
    let key = key_of(b, v);
    let mut set = match m.remove(&key) {
        Some(set) => {
            assert(t.contains_key(p));
            set
        },
        None => {
            assert(!t.contains_key(p));
            HashSet::new()
        },
    };
    let fresh = set.insert(x);
    let n = set.len();
    proof {
        lemma_tally_view_insert(old(m)@, b, v, set);
        assert(m@.insert(key, set) =~= old(m)@.insert(key, set));
        assert(set@ == (if t.contains_key(p) {
            t[p]
        } else {
            Set::<u32>::empty()
        }).insert(x));
    }
    m.insert(key, set);
    (fresh, n)
}

/// One party's side of reliable broadcast.
pub struct ReliableBroadcast {
    my_id: u32,
    num_parties: u32,
    t_s: u32,
    echoed: HashSet<u64>,
    echo_messages: HashMap<u64, HashSet<u32>>,
    ready_messages: HashMap<u64, HashSet<u32>>,
    ready_message_sent: bool,
    output: Option<Val>,
}

impl View for ReliableBroadcast {
    type V = BroadcastModel;

    closed spec fn view(&self) -> BroadcastModel {
        BroadcastModel {
            my_id: self.my_id,
            num_parties: self.num_parties,
            t_s: self.t_s,
            echoed: pairs_view(self.echoed@),
            echoes: tally_view(self.echo_messages@),
            readies: tally_view(self.ready_messages@),
            ready_sent: self.ready_message_sent,
            output: self.output,
        }
    }
}

impl ReliableBroadcast {
    /// The state is well formed: its parameters are valid and its tallies
    /// finite.
    pub open spec fn wf(&self) -> bool {
        &&& valid_params(self@.num_parties, self@.t_s)
        &&& tallies_finite(self@)
    }

    /// Starts a party: the sender proposes `One` and echoes it.
    pub fn new(my_id: u32, num_parties: u32, t_s: u32, sender: bool) -> (res: (
        ReliableBroadcast,
        Vec<Message>,
    ))
        requires
            valid_params(num_parties, t_s),
        ensures
            res.0.wf(),
            (res.0@, res.1@) == start(my_id, num_parties, t_s, sender),
    {
        let mut state = ReliableBroadcast {
            my_id,
            num_parties,
            t_s,
            echoed: HashSet::new(),
            echo_messages: HashMap::new(),
            ready_messages: HashMap::new(),
            ready_message_sent: false,
            output: None,
        };
        let mut sends: Vec<Message> = Vec::new();
        proof {
            assert(tally_view(state.echo_messages@) =~= Map::empty());
            assert(tally_view(state.ready_messages@) =~= Map::empty());
            assert(pairs_view(state.echoed@) =~= Set::empty());
            assert(state@ == blank(my_id, num_parties, t_s));
        }
        if sender {
            sends.push(Message::ProposeBB { v: Val::One, broadcaster: my_id });
            let mut out = state.handle_propose(Val::One, my_id);
            let ghost outv = out@;
            sends.append(&mut out);
            proof {
                assert(sends@ =~= seq![Message::ProposeBB { v: Val::One, broadcaster: my_id }]
                    + outv);
            }
        } else {
            assert(sends@ =~= Seq::<Message>::empty());
        }
        (state, sends)
    }

    /// The value delivered so far, if any.
    pub fn output(&self) -> (res: Option<Val>)
        ensures
            res == self@.output,
    {
        self.output
    }

    fn quorum_size(&self) -> (q: u64)
        requires
            self.wf(),
        ensures
            q == quorum(self@),
    {
        (self.num_parties - self.t_s) as u64
    }

    fn announce(&mut self, v: Val, broadcaster: u32) -> (sends: Vec<Message>)
        requires
            old(self).wf(),
        ensures
            final(self).wf(),
            (final(self)@, sends@) == announce(old(self)@, broadcaster, v),
    {
        proof {
            lemma_tally_finite(self@.readies, (broadcaster, v), self@.my_id);
        }
        let quorum_size = self.quorum_size();
        self.ready_message_sent = true;
        let me = self.my_id;
        let ghost s0 = self@;
        let (_, count) = add_to_tally(&mut self.ready_messages, broadcaster, v, me);
        proof {
            assert(self@.readies == tally(s0.readies, (broadcaster, v), me));
            assert(self@.echoes == s0.echoes);
            assert forall|q: (u32, Val)| #[trigger] self@.readies.contains_key(q) implies self@.readies[q].finite() by {
                assert(tally(s0.readies, (broadcaster, v), me).contains_key(q));
            }
            assert forall|q: (u32, Val)| #[trigger] self@.echoes.contains_key(q) implies self@.echoes[q].finite() by {
                assert(old(self)@.echoes.contains_key(q));
            }
        }
        assert(tallies_finite(self@));
        let mut sends: Vec<Message> = Vec::new();
        sends.push(Message::ReadyBB { v, broadcaster, readier: me });
        if count as u64 >= quorum_size {
            self.output = Some(v);
        }
        sends
    }

    fn handle_echo(&mut self, v: Val, broadcaster: u32, echoer: u32) -> (sends: Vec<Message>)
        requires
            old(self).wf(),
        ensures
            final(self).wf(),
            (final(self)@, sends@) == on_echo(old(self)@, v, broadcaster, echoer),
    {
        proof {
            lemma_tally_finite(self@.echoes, (broadcaster, v), echoer);
        }
        let quorum_size = self.quorum_size();
        let ghost s = self@;
        let (fresh, count) = add_to_tally(&mut self.echo_messages, broadcaster, v, echoer);
        proof {
            assert forall|q: (u32, Val)| #[trigger] self@.echoes.contains_key(q) implies self@.echoes[q].finite() by {
                assert(tally(s.echoes, (broadcaster, v), echoer).contains_key(q));
            }
            assert forall|q: (u32, Val)| #[trigger] self@.readies.contains_key(q) implies self@.readies[q].finite() by {
                assert(s.readies.contains_key(q));
            }
        }
        if !fresh {
            proof {
                let p = (broadcaster, v);
                assert(s.echoes[p].insert(echoer) =~= s.echoes[p]);
                assert(tally(s.echoes, p, echoer) =~= s.echoes);
            }
            return Vec::new();
        }
        if count as u64 >= quorum_size && !self.ready_message_sent {
            self.announce(v, broadcaster)
        } else {
            Vec::new()
        }
    }

    fn handle_ready(&mut self, v: Val, broadcaster: u32, readier: u32) -> (sends: Vec<Message>)
        requires
            old(self).wf(),
        ensures
            final(self).wf(),
            (final(self)@, sends@) == on_ready(old(self)@, v, broadcaster, readier),
    {
        proof {
            lemma_tally_finite(self@.readies, (broadcaster, v), readier);
        }
        let quorum_size = self.quorum_size();
        let ghost s = self@;
        let (fresh, count) = add_to_tally(&mut self.ready_messages, broadcaster, v, readier);
        proof {
            assert forall|q: (u32, Val)| #[trigger] self@.readies.contains_key(q) implies self@.readies[q].finite() by {
                assert(tally(s.readies, (broadcaster, v), readier).contains_key(q));
            }
            assert forall|q: (u32, Val)| #[trigger] self@.echoes.contains_key(q) implies self@.echoes[q].finite() by {
                assert(s.echoes.contains_key(q));
            }
        }
        if !fresh {
            proof {
                let p = (broadcaster, v);
                assert(s.readies[p].insert(readier) =~= s.readies[p]);
                assert(tally(s.readies, p, readier) =~= s.readies);
            }
            return Vec::new();
        }
        if count as u64 >= (self.t_s as u64) + 1 && !self.ready_message_sent {
            self.announce(v, broadcaster)
        } else {
            if count as u64 >= quorum_size {
                self.output = Some(v);
            }
            Vec::new()
        }
    }

    fn handle_propose(&mut self, v: Val, broadcaster: u32) -> (sends: Vec<Message>)
        requires
            old(self).wf(),
        ensures
            final(self).wf(),
            (final(self)@, sends@) == on_propose(old(self)@, v, broadcaster),
    {
        let key = key_of(broadcaster, v);
        if self.echoed.contains(&key) {
            return Vec::new();
        }
        proof {
            lemma_pairs_view_insert(self.echoed@, broadcaster, v);
        }
        self.echoed.insert(key);
        proof {
            assert forall|q: (u32, Val)| #[trigger] self@.readies.contains_key(q) implies self@.readies[q].finite() by {
                assert(old(self)@.readies.contains_key(q));
            }
            assert forall|q: (u32, Val)| #[trigger] self@.echoes.contains_key(q) implies self@.echoes[q].finite() by {
                assert(old(self)@.echoes.contains_key(q));
            }
        }
        let me = self.my_id;
        let mut sends: Vec<Message> = Vec::new();
        sends.push(Message::EchoBB { v, broadcaster, echoer: me });
        let mut out = self.handle_echo(v, broadcaster, me);
        let ghost outv = out@;
        sends.append(&mut out);
        assert(sends@ =~= seq![Message::EchoBB { v, broadcaster, echoer: me }] + outv);
        sends
    }

    /// Takes one incoming message and returns the messages to send, in
    /// order, as `step` says.
    pub fn handle(&mut self, msg: Message) -> (sends: Vec<Message>)
        requires
            old(self).wf(),
        ensures
            final(self).wf(),
            (final(self)@, sends@) == step(old(self)@, msg),
    {
        if self.output.is_some() {
            return Vec::new();
        }
        match msg {
            Message::ProposeBB { v, broadcaster } => self.handle_propose(v, broadcaster),
            Message::EchoBB { v, broadcaster, echoer } => self.handle_echo(v, broadcaster, echoer),
            Message::ReadyBB { v, broadcaster, readier } => self.handle_ready(
                v,
                broadcaster,
                readier,
            ),
            _ => Vec::new(),
        }
    }
}

/// What one party makes of a reliable broadcast: the value it delivers
/// (`None` while it has not delivered) and the messages it sends, in order.
/// A dishonest party delivers `Lambda` at once and sends nothing.
pub open spec fn broadcast_outcome(
    inbox: Seq<Message>,
    honest: bool,
    my_id: u32,
    num_parties: u32,
    t_s: u32,
    sender: bool,
) -> (Option<Val>, Seq<Message>) {
    if !honest {
        (Some(Val::Lambda), seq![])
    } else {
        let (s0, first) = start(my_id, num_parties, t_s, sender);
        let (last, sent) = run(s0, inbox);
        (last.output, first + sent)
    }
}

/// Once a value is delivered, further messages change nothing.
pub proof fn lemma_run_after_output(s: BroadcastModel, inbox: Seq<Message>)
    requires
        s.output is Some,
    ensures
        run(s, inbox) == (s, Seq::<Message>::empty()),
    decreases inbox.len(),
{
    if inbox.len() > 0 {
        lemma_run_after_output(s, inbox.drop_first());
        assert(Seq::<Message>::empty() + Seq::<Message>::empty() =~= Seq::<Message>::empty());
    }
}

proof fn lemma_run_concat(s: BroadcastModel, a: Seq<Message>, b: Seq<Message>)
    ensures
        run(s, a + b) == (run(run(s, a).0, b).0, run(s, a).1 + run(run(s, a).0, b).1),
    decreases a.len(),
{
    if a.len() == 0 {
        assert(a + b =~= b);
        assert(Seq::<Message>::empty() + run(s, b).1 =~= run(s, b).1);
    } else {
        assert((a + b)[0] == a[0]);
        assert((a + b).drop_first() =~= a.drop_first() + b);
        let (s1, out1) = step(s, a[0]);
        lemma_run_concat(s1, a.drop_first(), b);
        let mid = run(s1, a.drop_first());
        let tail = run(mid.0, b);
        assert(out1 + (mid.1 + tail.1) =~= (out1 + mid.1) + tail.1);
    }
}

/// The outcome of a party is fixed by the messages up to its delivery: once
/// the messages `a` make it deliver, the messages `b` after them are not
/// used, and the value and everything sent are those of `a` alone.
pub proof fn lemma_outcome_fixed_at_delivery(
    a: Seq<Message>,
    b: Seq<Message>,
    honest: bool,
    my_id: u32,
    num_parties: u32,
    t_s: u32,
    sender: bool,
)
    requires
        broadcast_outcome(a, honest, my_id, num_parties, t_s, sender).0 is Some,
    ensures
        broadcast_outcome(a + b, honest, my_id, num_parties, t_s, sender) == broadcast_outcome(
            a,
            honest,
            my_id,
            num_parties,
            t_s,
            sender,
        ),
{
    if honest {
        let s0 = start(my_id, num_parties, t_s, sender).0;
        lemma_run_concat(s0, a, b);
        lemma_run_after_output(run(s0, a).0, b);
        assert(run(s0, a).1 + Seq::<Message>::empty() =~= run(s0, a).1);
    }
}

/// Runs one party of reliable broadcast over the messages it receives, in
/// order, until it delivers a value. Returns the delivered value (`None`
/// when the messages run out first) and everything the party sends,
/// starting with the sender's own proposal and echo. A dishonest party
/// delivers `Lambda` at once and sends nothing.
pub fn reliable_broadcast_bb(
    inbox: Vec<Message>,
    honest: bool,
    my_id: u32,
    num_parties: u32,
    t_s: u32,
    sender: bool,
) -> (res: (Option<Val>, Vec<Message>))
    requires
        honest ==> valid_params(num_parties, t_s),
    ensures
        (res.0, res.1@) == broadcast_outcome(inbox@, honest, my_id, num_parties, t_s, sender),
{
    if !honest {
        return (Some(Val::Lambda), Vec::new());
    }
    let ghost init = start(my_id, num_parties, t_s, sender).0;
    let ghost first = start(my_id, num_parties, t_s, sender).1;
    let ghost whole = inbox@;
    let (mut state, mut sends) = ReliableBroadcast::new(my_id, num_parties, t_s, sender);
    let mut rest = inbox;
    while rest.len() > 0
        invariant
            state.wf(),
            run(init, whole).0 == run(state@, rest@).0,
            first == start(my_id, num_parties, t_s, sender).1,
            init == start(my_id, num_parties, t_s, sender).0,
            first + run(init, whole).1 == sends@ + run(state@, rest@).1,
        ensures
            rest.len() == 0 || state@.output is Some,
        decreases rest.len(),
    {
        if state.output().is_some() {
            break;
        }
        let ghost before = state@;
        let ghost rest_before = rest@;
        let msg = rest.remove(0);
        let mut out = state.handle(msg);
        let ghost outv = out@;
        let ghost mid = sends@;
        proof {
            assert(rest@ =~= rest_before.drop_first());
            let (s2, out2) = run(state@, rest@);
            assert(run(before, rest_before) == (s2, out@ + out2));
            assert(sends@ + (out@ + out2) =~= (sends@ + out@) + out2);
        }
        sends.append(&mut out);
        assert(sends@ =~= mid + outv);
    }
    proof {
        if state@.output is Some {
            lemma_run_after_output(state@, rest@);
        } else {
            assert(rest@.len() == 0);
        }
        assert(sends@ + Seq::<Message>::empty() =~= sends@);
    }
    (state.output(), sends)
}



/// The number of ready announcements among `msgs`.
pub open spec fn count_readies(msgs: Seq<Message>) -> nat
    decreases msgs.len(),
{
    if msgs.len() == 0 {
        0
    } else {
        (if msgs[0] is ReadyBB {
            1nat
        } else {
            0nat
        }) + count_readies(msgs.drop_first())
    }
}

/// The number of echoes of (`broadcaster`, `v`) among `msgs`.
pub open spec fn count_echoes(msgs: Seq<Message>, broadcaster: u32, v: Val) -> nat
    decreases msgs.len(),
{
    if msgs.len() == 0 {
        0
    } else {
        (if msgs[0] matches Message::EchoBB { v: w, broadcaster: b, .. } && w == v && b
            == broadcaster {
            1nat
        } else {
            0nat
        }) + count_echoes(msgs.drop_first(), broadcaster, v)
    }
}

proof fn lemma_count_concat(a: Seq<Message>, b: Seq<Message>, broadcaster: u32, v: Val)
    ensures
        count_readies(a + b) == count_readies(a) + count_readies(b),
        count_echoes(a + b, broadcaster, v) == count_echoes(a, broadcaster, v) + count_echoes(
            b,
            broadcaster,
            v,
        ),
    decreases a.len(),
{
    if a.len() > 0 {
        lemma_count_concat(a.drop_first(), b, broadcaster, v);
        assert((a + b).drop_first() =~= a.drop_first() + b);
    }
}

proof fn lemma_count_single(m: Message, broadcaster: u32, v: Val)
    ensures
        count_readies(seq![m]) == (if m is ReadyBB {
            1nat
        } else {
            0nat
        }),
        count_echoes(seq![m], broadcaster, v) == (if m matches Message::EchoBB {
            v: w,
            broadcaster: b,
            ..
        } && w == v && b == broadcaster {
            1nat
        } else {
            0nat
        }),
        count_readies(Seq::<Message>::empty()) == 0,
        count_echoes(Seq::<Message>::empty(), broadcaster, v) == 0,
{
    let one = seq![m];
    assert(one.len() == 1 && one[0] == m);
    assert(one.drop_first() =~= Seq::<Message>::empty());
    assert(count_readies(Seq::<Message>::empty()) == 0);
    assert(count_echoes(Seq::<Message>::empty(), broadcaster, v) == 0);
    assert(count_readies(one) == (if m is ReadyBB {
        1nat
    } else {
        0nat
    }) + count_readies(one.drop_first()));
}

/// What a step does to the counters behind the laws: the party's
/// announcement and echo flags only ever get set, and the step sends at most
/// one announcement (only if none was sent before, and then the flag is set)
/// and at most one echo of (`b`, `v`) (only if that pair was not echoed
/// before, and then it is).
pub open spec fn counts_ok(s: BroadcastModel, t: BroadcastModel, out: Seq<Message>, b: u32, v: Val) -> bool {
    &&& s.ready_sent ==> t.ready_sent
    &&& s.echoed.contains((b, v)) ==> t.echoed.contains((b, v))
    &&& count_readies(out) <= (if s.ready_sent {
        0int
    } else {
        1int
    })
    &&& count_readies(out) == 1 ==> t.ready_sent
    &&& count_echoes(out, b, v) <= (if s.echoed.contains((b, v)) {
        0int
    } else {
        1int
    })
    &&& count_echoes(out, b, v) == 1 ==> t.echoed.contains((b, v))
}

proof fn lemma_echo_counts(s: BroadcastModel, v: Val, broadcaster: u32, echoer: u32, b: u32, w: Val)
    ensures
        counts_ok(s, on_echo(s, v, broadcaster, echoer).0, on_echo(s, v, broadcaster, echoer).1, b, w),
        count_echoes(on_echo(s, v, broadcaster, echoer).1, b, w) == 0,
        on_echo(s, v, broadcaster, echoer).0.echoed == s.echoed,
{
    lemma_count_single(own_ready(s, broadcaster, v), b, w);
}

proof fn lemma_step_counts(s: BroadcastModel, msg: Message, b: u32, w: Val)
    ensures
        counts_ok(s, step(s, msg).0, step(s, msg).1, b, w),
{
    lemma_count_single(msg, b, w);
    if s.output is None {
        match msg {
            Message::ProposeBB { v, broadcaster } => {
                let p = (broadcaster, v);
                if !s.echoed.contains(p) {
                    let s1 = BroadcastModel { echoed: s.echoed.insert(p), ..s };
                    let e = Message::EchoBB { v, broadcaster, echoer: s.my_id };
                    lemma_echo_counts(s1, v, broadcaster, s.my_id, b, w);
                    lemma_count_single(e, b, w);
                    lemma_count_concat(seq![e], on_echo(s1, v, broadcaster, s.my_id).1, b, w);
                }
            },
            Message::EchoBB { v, broadcaster, echoer } => {
                lemma_echo_counts(s, v, broadcaster, echoer, b, w);
            },
            Message::ReadyBB { v, broadcaster, readier } => {
                lemma_count_single(own_ready(s, broadcaster, v), b, w);
            },
            _ => {},
        }
    }
}

proof fn lemma_run_counts(s: BroadcastModel, inbox: Seq<Message>, b: u32, w: Val)
    ensures
        count_readies(run(s, inbox).1) <= (if s.ready_sent {
            0int
        } else {
            1int
        }),
        count_echoes(run(s, inbox).1, b, w) <= (if s.echoed.contains((b, w)) {
            0int
        } else {
            1int
        }),
    decreases inbox.len(),
{
    if inbox.len() == 0 {
        lemma_count_single(Message::Ping, b, w);
    } else {
        let (t, out1) = step(s, inbox[0]);
        lemma_step_counts(s, inbox[0], b, w);
        lemma_run_counts(t, inbox.drop_first(), b, w);
        lemma_count_concat(out1, run(t, inbox.drop_first()).1, b, w);
    }
}

proof fn lemma_start_counts(my_id: u32, num_parties: u32, t_s: u32, sender: bool, b: u32, w: Val)
    ensures
        counts_ok(
            blank(my_id, num_parties, t_s),
            start(my_id, num_parties, t_s, sender).0,
            start(my_id, num_parties, t_s, sender).1,
            b,
            w,
        ),
{
    let s0 = blank(my_id, num_parties, t_s);
    let pm = Message::ProposeBB { v: Val::One, broadcaster: my_id };
    lemma_count_single(pm, b, w);
    if sender {
        lemma_step_counts(s0, pm, b, w);
        lemma_count_concat(seq![pm], on_propose(s0, Val::One, my_id).1, b, w);
    }
}

/// Over any sequence of incoming messages, a party announces ready at most
/// once, however many (broadcaster, value) pairs it hears of.
pub proof fn lemma_ready_announced_at_most_once(
    inbox: Seq<Message>,
    my_id: u32,
    num_parties: u32,
    t_s: u32,
    sender: bool,
)
    ensures
        count_readies(broadcast_outcome(inbox, true, my_id, num_parties, t_s, sender).1) <= 1,
{
    let (s1, first) = start(my_id, num_parties, t_s, sender);
    lemma_start_counts(my_id, num_parties, t_s, sender, my_id, Val::One);
    lemma_run_counts(s1, inbox, my_id, Val::One);
    lemma_count_concat(first, run(s1, inbox).1, my_id, Val::One);
}

/// Over any sequence of incoming messages, a party echoes each
/// (broadcaster, value) pair at most once.
pub proof fn lemma_echo_at_most_once(
    inbox: Seq<Message>,
    my_id: u32,
    num_parties: u32,
    t_s: u32,
    sender: bool,
    broadcaster: u32,
    v: Val,
)
    ensures
        count_echoes(
            broadcast_outcome(inbox, true, my_id, num_parties, t_s, sender).1,
            broadcaster,
            v,
        ) <= 1,
{
    let (s1, first) = start(my_id, num_parties, t_s, sender);
    lemma_start_counts(my_id, num_parties, t_s, sender, broadcaster, v);
    lemma_run_counts(s1, inbox, broadcaster, v);
    lemma_count_concat(first, run(s1, inbox).1, broadcaster, v);
}

/// A delivered value has a quorum of ready announcements, for some
/// broadcaster.
pub open spec fn delivery_justified(s: BroadcastModel) -> bool {
    s.output matches Some(v) ==> exists|b: u32|
        #[trigger] s.readies.contains_key((b, v)) && s.readies[(b, v)].len() >= quorum(s)
}

proof fn lemma_step_delivery(s: BroadcastModel, msg: Message)
    requires
        delivery_justified(s),
    ensures
        delivery_justified(step(s, msg).0),
        step(s, msg).0.num_parties == s.num_parties,
        step(s, msg).0.t_s == s.t_s,
{
    let t = step(s, msg).0;
    if t.output is Some && s.output is None {
        let v = t.output->0;
        let b = match msg {
            Message::ProposeBB { broadcaster, .. } => broadcaster,
            Message::EchoBB { broadcaster, .. } => broadcaster,
            Message::ReadyBB { broadcaster, .. } => broadcaster,
            _ => 0,
        };
        assert(t.readies.contains_key((b, v)));
    }
}

proof fn lemma_run_delivery(s: BroadcastModel, inbox: Seq<Message>)
    requires
        delivery_justified(s),
    ensures
        delivery_justified(run(s, inbox).0),
        run(s, inbox).0.num_parties == s.num_parties,
        run(s, inbox).0.t_s == s.t_s,
    decreases inbox.len(),
{
    if inbox.len() > 0 {
        lemma_step_delivery(s, inbox[0]);
        lemma_run_delivery(step(s, inbox[0]).0, inbox.drop_first());
    }
}

/// A party delivers `v` only once, for some broadcaster, it has heard
/// `n - t_s` parties (itself included) announce ready for `v`.
pub proof fn lemma_delivery_needs_ready_quorum(
    inbox: Seq<Message>,
    my_id: u32,
    num_parties: u32,
    t_s: u32,
    sender: bool,
    v: Val,
)
    requires
        broadcast_outcome(inbox, true, my_id, num_parties, t_s, sender).0 == Some(v),
    ensures
        ({
            let last = run(start(my_id, num_parties, t_s, sender).0, inbox).0;
            exists|b: u32|
                #[trigger] last.readies.contains_key((b, v)) && last.readies[(b, v)].len()
                    >= num_parties - t_s
        }),
{
    let s0 = blank(my_id, num_parties, t_s);
    if sender {
        lemma_step_delivery(s0, Message::ProposeBB { v: Val::One, broadcaster: my_id });
    }
    lemma_run_delivery(start(my_id, num_parties, t_s, sender).0, inbox);
}

/// Whether a ready announcement for `p` is backed: `n - t_s` parties
/// echoed `p`, or `t_s + 1` announced ready for it.
pub open spec fn ready_backed(t: BroadcastModel, p: (u32, Val), q: int, amp: int) -> bool {
    ||| count(t.echoes, p) >= q
    ||| count(t.readies, p) >= amp
}

/// A party announces ready for (`broadcaster`, `v`) only when, counting the
/// message just taken, `n - t_s` parties have echoed that pair or `t_s + 1`
/// have announced ready for it.
pub proof fn lemma_ready_is_justified(s: BroadcastModel, msg: Message)
    requires
        tallies_finite(s),
    ensures
        ({
            let (t, out) = step(s, msg);
            forall|i: int|
                0 <= i < out.len() && #[trigger] out[i] is ReadyBB ==> ready_backed(
                    t,
                    (out[i]->ReadyBB_broadcaster, out[i]->ReadyBB_v),
                    quorum(s),
                    amplification(s),
                )
        }),
{
    let (t, out) = step(s, msg);
    if s.output is None {
        match msg {
            Message::ReadyBB { v, broadcaster, readier } => {
                let p = (broadcaster, v);
                if !heard(s.readies, p, readier) {
                    let r = tally(s.readies, p, readier);
                    lemma_tally_finite(s.readies, p, readier);
                    assert(r[p].finite());
                    assert(r[p].insert(s.my_id).len() >= r[p].len());
                }
            },
            Message::ProposeBB { v, broadcaster } => {
                let p = (broadcaster, v);
                if !s.echoed.contains(p) {
                    let s1 = BroadcastModel { echoed: s.echoed.insert(p), ..s };
                    let e = Message::EchoBB { v, broadcaster, echoer: s.my_id };
                    let out2 = on_echo(s1, v, broadcaster, s.my_id).1;
                    assert forall|i: int| 0 <= i < out.len() && #[trigger] out[i] is ReadyBB implies i >= 1 && out[i] == out2[i - 1] by {}
                }
            },
            _ => {},
        }
    }
}

/// The parties recorded in `m` for `p`.
pub open spec fn recorded(m: Map<(u32, Val), Set<u32>>, p: (u32, Val)) -> Set<u32> {
    if m.contains_key(p) {
        m[p]
    } else {
        Set::empty()
    }
}

/// The parties a party has heard announce ready for `p`, counting the
/// message `msg` it takes, and not its own announcement.
pub open spec fn heard_readies(s: BroadcastModel, msg: Message, p: (u32, Val)) -> Set<u32> {
    match msg {
        Message::ReadyBB { v, broadcaster, readier } => if (broadcaster, v) == p {
            recorded(s.readies, p).insert(readier)
        } else {
            recorded(s.readies, p)
        },
        _ => recorded(s.readies, p),
    }
}

/// The parties a party has heard echo `p`, counting the message `msg` it
/// takes: an echo, or its own echo of a proposal it has not echoed yet.
pub open spec fn heard_echoes(s: BroadcastModel, msg: Message, p: (u32, Val)) -> Set<u32> {
    match msg {
        Message::EchoBB { v, broadcaster, echoer } => if (broadcaster, v) == p {
            recorded(s.echoes, p).insert(echoer)
        } else {
            recorded(s.echoes, p)
        },
        Message::ProposeBB { v, broadcaster } => if (broadcaster, v) == p && !s.echoed.contains(p) {
            recorded(s.echoes, p).insert(s.my_id)
        } else {
            recorded(s.echoes, p)
        },
        _ => recorded(s.echoes, p),
    }
}

/// A party announces ready for (`broadcaster`, `v`) only when, counting the
/// message it just took but not its own announcement, `t_s + 1` parties
/// announced ready for that pair or `n - t_s` parties echoed it.
pub proof fn lemma_ready_needs_what_was_heard(s: BroadcastModel, msg: Message)
    ensures
        ({
            let out = step(s, msg).1;
            forall|i: int|
                0 <= i < out.len() && #[trigger] out[i] is ReadyBB ==> {
                    let p = (out[i]->ReadyBB_broadcaster, out[i]->ReadyBB_v);
                    ||| heard_readies(s, msg, p).len() >= s.t_s + 1
                    ||| heard_echoes(s, msg, p).len() >= s.num_parties - s.t_s
                }
        }),
{
    let out = step(s, msg).1;
    if s.output is None {
        match msg {
            Message::ReadyBB { v, broadcaster, readier } => {
                let p = (broadcaster, v);
                let r = tally(s.readies, p, readier);
                assert(r[p] == recorded(s.readies, p).insert(readier));
                assert forall|i: int| 0 <= i < out.len() && #[trigger] out[i] is ReadyBB implies {
                    let q = (out[i]->ReadyBB_broadcaster, out[i]->ReadyBB_v);
                    ||| heard_readies(s, msg, q).len() >= s.t_s + 1
                    ||| heard_echoes(s, msg, q).len() >= s.num_parties - s.t_s
                } by {
                    assert(out[i]->ReadyBB_broadcaster == broadcaster && out[i]->ReadyBB_v == v);
                    assert(count(r, p) >= s.t_s + 1);
                }
            },
            Message::EchoBB { v, broadcaster, echoer } => {
                let p = (broadcaster, v);
                let e = tally(s.echoes, p, echoer);
                assert(e[p] == recorded(s.echoes, p).insert(echoer));
                assert forall|i: int| 0 <= i < out.len() && #[trigger] out[i] is ReadyBB implies {
                    let q = (out[i]->ReadyBB_broadcaster, out[i]->ReadyBB_v);
                    ||| heard_readies(s, msg, q).len() >= s.t_s + 1
                    ||| heard_echoes(s, msg, q).len() >= s.num_parties - s.t_s
                } by {
                    assert(out[i]->ReadyBB_broadcaster == broadcaster && out[i]->ReadyBB_v == v);
                    assert(count(e, p) >= s.num_parties - s.t_s);
                }
            },
            Message::ProposeBB { v, broadcaster } => {
                let p = (broadcaster, v);
                if !s.echoed.contains(p) {
                    let s1 = BroadcastModel { echoed: s.echoed.insert(p), ..s };
                    let out2 = on_echo(s1, v, broadcaster, s.my_id).1;
                    let e = tally(s.echoes, p, s.my_id);
                    assert(e[p] == recorded(s.echoes, p).insert(s.my_id));
                    assert forall|i: int| 0 <= i < out.len() && #[trigger] out[i] is ReadyBB implies {
                        let q = (out[i]->ReadyBB_broadcaster, out[i]->ReadyBB_v);
                        ||| heard_readies(s, msg, q).len() >= s.t_s + 1
                        ||| heard_echoes(s, msg, q).len() >= s.num_parties - s.t_s
                    } by {
                        assert(out[i] == out2[i - 1]);
                        assert(out[i]->ReadyBB_broadcaster == broadcaster && out[i]->ReadyBB_v == v);
                        assert(count(e, p) >= s.num_parties - s.t_s);
                    }
                }
            },
            _ => {},
        }
    }
}

/// Whether `m` is this party's echo of the proposal `msg`, of a pair it had
/// not echoed, before it delivered anything.
pub open spec fn echoes_new_proposal(s: BroadcastModel, msg: Message, m: Message) -> bool {
    match msg {
        Message::ProposeBB { v, broadcaster } => m == (Message::EchoBB { v, broadcaster, echoer: s.my_id })
            && !s.echoed.contains((broadcaster, v)) && s.output is None,
        _ => false,
    }
}

/// A party echoes only in the step in which it takes a proposal of a pair
/// it has not echoed yet, and it echoes that pair, as itself.
pub proof fn lemma_echo_only_a_new_proposal(s: BroadcastModel, msg: Message)
    ensures
        ({
            let out = step(s, msg).1;
            forall|i: int|
                0 <= i < out.len() && #[trigger] out[i] is EchoBB ==> echoes_new_proposal(s, msg, out[i])
        }),
{
    let out = step(s, msg).1;
    if s.output is None {
        match msg {
            Message::ProposeBB { v, broadcaster } => {
                let p = (broadcaster, v);
                if !s.echoed.contains(p) {
                    let s1 = BroadcastModel { echoed: s.echoed.insert(p), ..s };
                    let out2 = on_echo(s1, v, broadcaster, s.my_id).1;
                    assert forall|i: int| 0 <= i < out.len() && #[trigger] out[i] is EchoBB implies i == 0 by {
                        if i > 0 {
                            assert(out[i] == out2[i - 1]);
                        }
                    }
                }
            },
            _ => {},
        }
    }
}

} // verus!
