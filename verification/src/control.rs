//! The run's top-level decisions: which protocol to run, what the control
//! server's confirmation timer sends, and how long a timed step still has
//! to wait.

use vstd::prelude::*;
use vstd::string::StringExecFns;

use crate::messages::Message;
use crate::messages::Val;

verus! {

/// The protocols a party can run.
#[derive(Clone, Copy, Debug, PartialEq, Eq, Structural)]
pub enum Protocol {
    Async,
    Control,
    Propped,
    Thunderella,
    Tardigrade,
}

/// The protocol named on the command line: `ASYNC`, `THUNDER`, `PROP` or
/// `TARDI`; any other name means the control server.
pub open spec fn protocol_named(name: Seq<char>) -> Protocol {
    if name == "ASYNC"@ {
        Protocol::Async
    } else if name == "THUNDER"@ {
        Protocol::Thunderella
    } else if name == "PROP"@ {
        Protocol::Propped
    } else if name == "TARDI"@ {
        Protocol::Tardigrade
    } else {
        Protocol::Control
    }
}

/// The protocol that the name `name` selects.
pub fn select_protocol(name: &str) -> (p: Protocol)
    ensures
        p == protocol_named(name@),
{
    let given = String::from_str(name);
    if given == String::from_str("ASYNC") {
        Protocol::Async
    } else if given == String::from_str("THUNDER") {
        Protocol::Thunderella
    } else if given == String::from_str("PROP") {
        Protocol::Propped
    } else if given == String::from_str("TARDI") {
        Protocol::Tardigrade
    } else {
        Protocol::Control
    }
}

/// One tick of the control server's confirmation timer in round `round`:
/// the `Prepare` message of that round with value `Zero`, and the next
/// round.
pub fn confirmation_step(round: u32) -> (res: (Message, u32))
    requires
        round < u32::MAX,
    ensures
        res.0 == (Message::Prepare { k: round, b: Val::Zero }),
        res.1 == round + 1,
{
    (Message::Prepare { k: round, b: Val::Zero }, round + 1)
}

/// How many milliseconds a step that must wait until `target_millis` after
/// its start still has to sleep, `elapsed_millis` after its start; `None`
/// when that time has come.
pub fn time_left(elapsed_millis: u128, target_millis: u32) -> (res: Option<u64>)
    ensures
        elapsed_millis < target_millis ==> res == Some((target_millis - elapsed_millis) as u64),
        elapsed_millis >= target_millis ==> res is None,
{
    if elapsed_millis < target_millis as u128 {
        Some((target_millis as u128 - elapsed_millis) as u64)
    } else {
        None
    }
}

} // verus!
