//! Message types and protocol logic for simulating optimistic consensus
//! protocols (reliable broadcast and the Tardigrade state-machine-replication
//! building blocks) among a fixed set of parties.

pub mod messages;
pub mod broadcast;
pub mod network;
pub mod tardigrade;
pub mod acs;
pub mod control;
pub mod bb;
pub mod acs_commit;
