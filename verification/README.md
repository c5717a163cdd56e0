# propped_blockchain

Protocol logic for simulating optimistic consensus protocols among a fixed
set of parties on a LAN, verified with Verus.

- `src/` is the verified library:
  - `messages`: the messages parties exchange, and handing one to the
    sending thread;
  - `network`: reading the other parties' addresses from a hosts file, a
    party's number from its host name, and its listening address;
  - `control`: protocol selection, the control server's confirmation
    timer, and the wait of timed steps;
  - `broadcast`: reliable broadcast of binary values;
  - `bb`: reliable broadcast of a batch of transactions;
  - `tardigrade`: the steps of an epoch of state-machine replication
    (lattice agreement, graded consensus, the propose step);
  - `acs`, `acs_commit`: leaving agreement on a common subset, and
    certifying its output.
- `app/` is the program around it: command line, logging, the UDP sockets
  and threads, JSON encoding of messages, and the loops that wait and
  receive.
- `tests/` exercises the library on concrete runs.
