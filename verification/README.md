# little_raft

The Raft consensus algorithm for one replica of a replicated state machine, with
its decisions verified by Verus.

- `src/` is the library. `replica` holds the replica: messages, timeouts and
  transitions come in through its methods, and what is to be done about them goes
  out as a list of effects, to be carried out in order. `model` says what each
  event makes of the state of a replica, `poll` what comes of an event as a whole.
- `src/laws/` states and proves what follows. `events`, `elections`,
  `replication` and `storage` speak of one replica, `consistency` of two,
  `cluster` of a leader and its followers. `polling` ties what a replica waits for to
  what can happen to it. `agreement` speaks of a whole cluster
  through elections and restarts: a term has one leader at most, and the state
  machines are given the same transitions in the same order. `world` says what a
  cluster is and what can happen in it; `record`, `growth`, `fitting`, `steps`,
  `happening` and `safety` hold the proof.
- `app/` runs a replica on tokio: it waits, hands on what happens, and carries
  out the effects on the user's cluster, state machine and storage.

Times are nanoseconds from an origin of the caller's choice.

The laws on a whole cluster hold for messages that come in time, which
`Record::in_time` defines: votes and successes count in the term in which they were
given, no replica goes back to an earlier leader than that of its last entry, and
none votes in a term it has led. Replicas may start again as long as their storage
holds what they left, which `World::can_restart` defines.
