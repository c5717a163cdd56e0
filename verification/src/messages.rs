//! The messages that parties exchange, and the hand-off of an outgoing
//! message to the channel that the sending thread reads.

use std::collections::HashSet;
use std::sync::mpsc::Sender;
use vstd::prelude::*;

verus! {

/// A binary value of an agreement protocol, or `Lambda` for "no value".
#[derive(Clone, Copy, Debug, PartialEq, Eq, Structural, Hash)]
pub enum Val {
    Zero,
    One,
    Lambda,
}

/// A transaction of the replicated state machine, known by its identifier.
pub type Transaction = u64;

/// Evidence that a proposal was committed in round `k`: the parties whose
/// commit messages for it were collected.
#[derive(Debug, PartialEq, Eq)]
pub struct Certificate {
    pub k: u32,
    pub committers: HashSet<u32>,
}

/// A party's status in the propose step of graded consensus: the round
/// `k` of its best certified proposal, that proposal, and its certificate.
#[derive(Debug, PartialEq, Eq)]
pub struct Status {
    pub smr_k: u32,
    pub k: u32,
    pub b: HashSet<Transaction>,
    pub sig: HashSet<Transaction>,
    pub cert: Certificate,
    pub sender_id: u32,
    pub proposer_id: u32,
}

/// Everything a party sends to the others.
#[derive(Debug, PartialEq, Eq)]
pub enum Message {
    Prepare { k: u32, b: Val },
    Propose { k: u32, b: Val },
    Coin { k: u32 },
    Latency { delay: u32, parties: u32 },
    Ping,
    Sleep { name: String },
    Confirm { block: u32, b: Val },
    Wake { name: String },
    EchoBB { v: Val, broadcaster: u32, echoer: u32 },
    ReadyBB { v: Val, broadcaster: u32, readier: u32 },
    ProposeBB { v: Val, broadcaster: u32 },
    TardiProposeStatus(Status),
    TardiProposePropose { smr_k: u32, k: u32, statuses: Vec<Status>, sender_id: u32, proposer_id: u32 },
    TardiGCCommit {
        smr_k: u32,
        k: u32,
        b: HashSet<Transaction>,
        sig: HashSet<Transaction>,
        committer_id: u32,
    },
    TardiGCNotify {
        smr_k: u32,
        k: u32,
        b: HashSet<Transaction>,
        sig: HashSet<Transaction>,
        cert: Certificate,
    },
}

#[verifier::external_type_specification]
#[verifier::external_body]
#[verifier::reject_recursive_types(T)]
pub struct ExSender<T>(Sender<T>);

/// The sending end of the channel to the sending thread, with a record of
/// every message handed to it.
pub struct Outbox {
    chan: Sender<Message>,
    sent: Ghost<Seq<Message>>,
}

impl Outbox {
    /// The messages handed to the channel through this outbox, in order.
    pub closed spec fn log(&self) -> Seq<Message> {
        self.sent@
    }

    /// The channel the outbox hands messages to.
    pub closed spec fn channel(&self) -> Sender<Message> {
        self.chan
    }

    /// An outbox on `chan` that has handed nothing over yet.
    pub fn new(chan: Sender<Message>) -> (res: Outbox)
        ensures
            res.channel() == chan,
            res.log() == Seq::<Message>::empty(),
    {
        Outbox { chan, sent: Ghost(Seq::empty()) }
    }
}

/// Calls `std::sync::mpsc::Sender::send` on the outbox's channel with
/// `msg`, and records `msg` as handed over; the channel stays the same.
/// As the documentation of `send` says, a send fails only when the receiving end is gone, and the error
/// then carries back the value that was not sent. Whether the receiver is
/// still there is up to another thread, so nothing is promised about which
/// outcome comes.
#[verifier::external_body]
fn channel_send(out: &mut Outbox, msg: Message) -> (res: Result<(), Message>)
    ensures
        final(out).channel() == old(out).channel(),
        final(out).log() == old(out).log().push(msg),
        res matches Err(m) ==> m == msg,
{
    match out.chan.send(msg) {
        Ok(()) => Ok(()),
        Err(e) => Err(e.0),
    }
}

/// Hands `msg` to the sending thread through the channel of `out`. When that thread is
/// gone the message comes back as the error.
pub fn send_message(msg: Message, out: &mut Outbox) -> (res: Result<(), Message>)
    ensures
        final(out).channel() == old(out).channel(),
        final(out).log() == old(out).log().push(msg),
        res matches Err(m) ==> m == msg,
{
    channel_send(out, msg)
}

} // verus!
