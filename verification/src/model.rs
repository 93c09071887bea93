//! The replica as a state machine: what each event makes of its state, and the
//! effects that it gives rise to.

use crate::effect::{EffectView, TransitionState};
use crate::message::{LogEntry, MessageView};
use crate::timer::Timer;
use crate::ReplicaID;
use std::sync::Arc;
use vstd::prelude::*;

verus! {

/// The part that a replica plays in the cluster.
#[derive(Clone, Copy, Debug, PartialEq, Eq, Structural)]
pub enum State {
    Follower,
    Candidate,
    Leader,
}

/// The state of a replica.
#[verifier::ext_equal]
pub struct ReplicaView<T> {
    /// ID of this replica.
    pub id: ReplicaID,
    /// IDs of the other replicas of the cluster.
    pub peer_ids: Seq<ReplicaID>,
    /// Current term.
    pub current_term: usize,
    /// IDs of the replicas that voted for this one in the running election.
    pub current_votes: Option<Set<ReplicaID>>,
    /// The part that the replica plays.
    pub state: State,
    /// Who the last vote was cast for.
    pub voted_for: Option<ReplicaID>,
    /// Entries this replica is aware of.
    pub log: Seq<LogEntry<T>>,
    /// Index of the highest transition known to be committed.
    pub commit_index: usize,
    /// Index of the highest transition applied to the local state machine.
    pub last_applied: usize,
    /// For each replica, index of the next log entry to send to it.
    pub next_index: Map<ReplicaID, usize>,
    /// For each replica, index of the highest log entry it is known to hold.
    pub match_index: Map<ReplicaID, usize>,
    /// Transition without effect, which a new leader appends.
    pub noop_transition: Arc<T>,
    /// Timer of the heartbeat messages.
    pub heartbeat_timer: Timer,
    /// Shortest and longest election timeout.
    pub election_timeout: (u128, u128),
    /// When to start an election if no message comes.
    pub next_election_deadline: u128,
}

/// What a replica finds in its storage when it starts.
#[derive(Debug)]
pub struct Stored<T> {
    /// The term that was stored last.
    pub term: usize,
    /// The vote that was stored last.
    pub vote: Option<ReplicaID>,
    /// Index of the last entry of the stored log; zero if the log is new.
    pub last_index: usize,
    /// The entries of the stored log.
    pub entries: Vec<LogEntry<T>>,
}

/// What an event comes to: the next state, and what is to be done outside.
#[verifier::ext_equal]
pub struct Outcome<T> {
    pub state: ReplicaView<T>,
    pub effects: Seq<EffectView<T>>,
}

impl<T> Outcome<T> {
    /// The outcome with effects put before its own.
    pub open spec fn after(self, effects: Seq<EffectView<T>>) -> Outcome<T> {
        Outcome { state: self.state, effects: effects + self.effects }
    }
}

/// What an entry that a leader sent makes of a log: where the log holds an entry
/// of another term in its place, the log is cut off there; then the entry is
/// added if its place is the end of the log.
pub open spec fn install<T>(log: Seq<LogEntry<T>>, entry: LogEntry<T>) -> Seq<LogEntry<T>> {
    if entry.index < log.len() && entry.term != log[entry.index as int].term {
        log.take(entry.index as int).push(entry)
    } else if entry.index == log.len() {
        log.push(entry)
    } else {
        log
    }
}

/// What the storage is told when an entry is installed in a log.
pub open spec fn install_effects<T>(log: Seq<LogEntry<T>>, entry: LogEntry<T>) -> Seq<
    EffectView<T>,
> {
    if entry.index < log.len() && entry.term != log[entry.index as int].term {
        seq![
            EffectView::TruncateEntries { index: entry.index },
            EffectView::PushEntry { entry },
        ]
    } else if entry.index == log.len() {
        seq![EffectView::PushEntry { entry }]
    } else {
        seq![]
    }
}

/// A log with entries installed one after the other.
pub open spec fn install_all<T>(log: Seq<LogEntry<T>>, entries: Seq<LogEntry<T>>) -> Seq<
    LogEntry<T>,
>
    decreases entries.len(),
{
    if entries.len() == 0 {
        log
    } else {
        install(install_all(log, entries.drop_last()), entries.last())
    }
}

/// What the storage is told when entries are installed one after the other.
pub open spec fn install_all_effects<T>(log: Seq<LogEntry<T>>, entries: Seq<LogEntry<T>>) -> Seq<
    EffectView<T>,
>
    decreases entries.len(),
{
    if entries.len() == 0 {
        seq![]
    } else {
        install_all_effects(log, entries.drop_last()) + install_effects(
            install_all(log, entries.drop_last()),
            entries.last(),
        )
    }
}

/// Installing entries concerns the stored log and nothing else.
pub(crate) proof fn lemma_install_all_effects<T>(
    log: Seq<LogEntry<T>>,
    entries: Seq<LogEntry<T>>,
)
    ensures
        forall|i: int|
            0 <= i < install_all_effects(log, entries).len() ==> {
                let effect = #[trigger] install_all_effects(log, entries)[i];
                effect is PushEntry || effect is TruncateEntries
            },
    decreases entries.len(),
{
    if entries.len() > 0 {
        let before = install_all_effects(log, entries.drop_last());
        lemma_install_all_effects(log, entries.drop_last());
        assert forall|i: int| 0 <= i < install_all_effects(log, entries).len() implies {
            let effect = #[trigger] install_all_effects(log, entries)[i];
            effect is PushEntry || effect is TruncateEntries
        } by {
            if i < before.len() {
                assert(install_all_effects(log, entries)[i] == before[i]);
            }
        }
    }
}

/// The entry for which a state machine is told that its transition has reached a state.
pub open spec fn register<T>(entry: LogEntry<T>, state: TransitionState) -> EffectView<T> {
    EffectView::RegisterTransitionState { transition: entry.transition, state }
}

/// Tells the state machine that the entries above `low` up to `high` are committed.
pub open spec fn committed_effects<T>(log: Seq<LogEntry<T>>, low: usize, high: usize) -> Seq<
    EffectView<T>,
> {
    Seq::new(
        (if low < high { high - low } else { 0 }) as nat,
        |i: int| register(log[low + 1 + i], TransitionState::Committed),
    )
}

/// Applies the entries above `low` up to `high`, in order, and tells the state
/// machine after each that it has been applied.
pub open spec fn applied_effects<T>(log: Seq<LogEntry<T>>, low: usize, high: usize) -> Seq<
    EffectView<T>,
>
    decreases high,
{
    if low < high {
        applied_effects(log, low, (high - 1) as usize).push(
            EffectView::ApplyTransition { transition: log[high as int].transition },
        ).push(register(log[high as int], TransitionState::Applied))
    } else {
        seq![]
    }
}

/// Applying entries concerns the state machine and nothing else.
pub(crate) proof fn lemma_applied_effects_kinds<T>(
    log: Seq<LogEntry<T>>,
    low: usize,
    high: usize,
)
    ensures
        forall|i: int|
            0 <= i < applied_effects(log, low, high).len() ==> {
                let effect = #[trigger] applied_effects(log, low, high)[i];
                effect is ApplyTransition || effect is RegisterTransitionState
            },
    decreases high,
{
    if low < high {
        let before = applied_effects(log, low, (high - 1) as usize);
        lemma_applied_effects_kinds(log, low, (high - 1) as usize);
        assert forall|i: int| 0 <= i < applied_effects(log, low, high).len() implies {
            let effect = #[trigger] applied_effects(log, low, high)[i];
            effect is ApplyTransition || effect is RegisterTransitionState
        } by {
            if i < before.len() {
                assert(applied_effects(log, low, high)[i] == before[i]);
            }
        }
    }
}

/// The replicas that are known to hold the log up to `index`.
pub open spec fn replicated_on(match_index: Map<ReplicaID, usize>, index: usize) -> Set<
    ReplicaID,
> {
    match_index.dom().filter(|id: ReplicaID| match_index[id] >= index)
}

/// The same index for each of some replicas.
pub open spec fn same_for_all(ids: Seq<ReplicaID>, index: usize) -> Map<ReplicaID, usize> {
    Map::new(|id: ReplicaID| ids.contains(id), |id: ReplicaID| index)
}

/// One more replica is one more key.
pub(crate) proof fn lemma_same_for_all_push(ids: Seq<ReplicaID>, id: ReplicaID, index: usize)
    ensures
        same_for_all(ids.push(id), index) == same_for_all(ids, index).insert(id, index),
{
    assert forall|other: ReplicaID| #[trigger]
        ids.push(id).contains(other) <==> ids.contains(other) || other == id by {
        if ids.contains(other) {
            let i = choose|i: int| 0 <= i < ids.len() && ids[i] == other;
            assert(ids.push(id)[i] == other);
        }
        assert(ids.push(id)[ids.len() as int] == id);
    }
    assert(same_for_all(ids.push(id), index) =~= same_for_all(ids, index).insert(id, index));
}

impl<T> ReplicaView<T> {
    /// What holds of a replica at all times. The log is never empty, and its length
    /// is one that the machine can count. Votes are
    /// held by a candidate, its own among them, and by nobody else. A leader
    /// keeps track of every peer, and only a leader keeps track of peers.
    pub open spec fn wf(self) -> bool {
        &&& 0 < self.log.len() <= usize::MAX
        &&& self.current_votes is Some <==> self.state is Candidate
        &&& self.current_votes matches Some(votes) ==> votes.finite() && votes.contains(self.id)
        &&& self.match_index.dom().finite()
        &&& self.state is Leader ==> forall|i: int|
            0 <= i < self.peer_ids.len() ==> self.next_index.contains_key(#[trigger] self.peer_ids[i])
                && self.match_index.contains_key(self.peer_ids[i])
        &&& !(self.state is Leader) ==> self.next_index == Map::<ReplicaID, usize>::empty()
            && self.match_index == Map::<ReplicaID, usize>::empty()
    }

    /// Index of the last entry, by its place in the log.
    pub open spec fn last_index(self) -> usize {
        (self.log.len() - 1) as usize
    }

    /// The entry that opens a new log.
    pub open spec fn first_entry(noop_transition: Arc<T>) -> LogEntry<T> {
        LogEntry { index: 0, term: 0, transition: noop_transition }
    }

    /// The start of a replica: it follows, with the term, the vote and the log
    /// that were stored, and with nothing known to be committed or applied. A new
    /// log is opened with an entry without effect. The election is due at once.
    pub open spec fn start(
        id: ReplicaID,
        peer_ids: Seq<ReplicaID>,
        noop_transition: Arc<T>,
        heartbeat_timeout: u128,
        election_timeout: (u128, u128),
        stored: Stored<T>,
        now: u128,
    ) -> Outcome<T> {
        let fresh = stored.last_index == 0;
        Outcome {
            state: ReplicaView {
                id,
                peer_ids,
                current_term: stored.term,
                current_votes: None,
                state: State::Follower,
                voted_for: stored.vote,
                log: if fresh {
                    seq![Self::first_entry(noop_transition)]
                } else {
                    stored.entries@
                },
                commit_index: 0,
                last_applied: 0,
                next_index: Map::empty(),
                match_index: Map::empty(),
                noop_transition,
                heartbeat_timer: Timer::armed(heartbeat_timeout, now),
                election_timeout,
                next_election_deadline: now,
            },
            effects: if fresh {
                seq![EffectView::PushEntry { entry: Self::first_entry(noop_transition) }]
            } else {
                seq![]
            },
        }
    }

    /// The outcome of doing nothing.
    pub open spec fn idle(self) -> Outcome<T> {
        Outcome { state: self, effects: seq![] }
    }

    /// Follows in a term, with no vote cast.
    pub open spec fn become_follower(self, term: usize) -> Outcome<T> {
        Outcome {
            state: ReplicaView {
                current_term: term,
                state: State::Follower,
                current_votes: None,
                voted_for: None,
                next_index: Map::empty(),
                match_index: Map::empty(),
                ..self
            },
            effects: seq![EffectView::StoreTerm { term }, EffectView::StoreVote { vote: None }],
        }
    }

    /// Follows in the term of another replica; who leads in it is not known.
    pub open spec fn step_down(self, term: usize) -> Outcome<T> {
        self.become_follower(term).after(seq![EffectView::RegisterLeader { leader_id: None }])
    }

    /// The entry that opens the log of a new leader's term.
    pub open spec fn noop_entry(self) -> LogEntry<T> {
        LogEntry {
            index: self.log.len() as usize,
            term: self.current_term,
            transition: self.noop_transition,
        }
    }

    /// Leads. Every peer is taken to hold the whole log, none of it being known
    /// to be replicated, and an entry without effect is appended.
    pub open spec fn become_leader(self) -> Outcome<T> {
        Outcome {
            state: ReplicaView {
                state: State::Leader,
                current_votes: None,
                voted_for: None,
                next_index: same_for_all(self.peer_ids, self.log.len() as usize),
                match_index: same_for_all(self.peer_ids, 0),
                log: self.log.push(self.noop_entry()),
                ..self
            },
            effects: seq![
                EffectView::RegisterLeader { leader_id: Some(self.id) },
                EffectView::StoreVote { vote: None },
                EffectView::PushEntry { entry: self.noop_entry() },
            ],
        }
    }

    /// The request for a vote that goes to every peer.
    pub open spec fn vote_request(self) -> MessageView<T> {
        MessageView::VoteRequest {
            from_id: self.id,
            term: self.current_term,
            last_log_index: self.last_index(),
            last_log_term: self.log.last().term,
        }
    }

    /// Sends every peer the message that is meant for it.
    pub open spec fn broadcast(self, message: spec_fn(ReplicaID) -> MessageView<T>) -> Seq<
        EffectView<T>,
    > {
        Seq::new(
            self.peer_ids.len(),
            |i: int|
                EffectView::SendMessage {
                    to_id: self.peer_ids[i],
                    message: message(self.peer_ids[i]),
                },
        )
    }

    /// Starts an election in the next term, with a vote for itself.
    pub open spec fn start_election(self) -> Outcome<T> {
        let state = ReplicaView {
            current_term: (self.current_term + 1) as usize,
            state: State::Candidate,
            current_votes: Some(set![self.id]),
            voted_for: Some(self.id),
            ..self
        };
        Outcome {
            state,
            effects: seq![
                EffectView::StoreTerm { term: state.current_term },
                EffectView::StoreVote { vote: Some(self.id) },
            ] + state.broadcast(|id: ReplicaID| state.vote_request()),
        }
    }

    /// Starts an election; one without peers has won it.
    pub open spec fn become_candidate(self) -> Outcome<T> {
        let started = self.start_election();
        if self.peer_ids.len() == 0 {
            started.state.become_leader().after(started.effects)
        } else {
            started
        }
    }

    /// Answers a request for a vote.
    pub open spec fn answer_vote(self, to_id: ReplicaID, vote_granted: bool) -> EffectView<T> {
        EffectView::SendMessage {
            to_id,
            message: MessageView::VoteResponse {
                from_id: self.id,
                term: self.current_term,
                vote_granted,
            },
        }
    }

    /// Answers a request to append.
    pub open spec fn answer_append(
        self,
        to_id: ReplicaID,
        success: bool,
        mismatch_index: Option<usize>,
    ) -> EffectView<T> {
        EffectView::SendMessage {
            to_id,
            message: MessageView::AppendEntryResponse {
                from_id: self.id,
                term: self.current_term,
                success,
                last_index: self.last_index(),
                mismatch_index,
            },
        }
    }

    /// Whether this replica may vote for a candidate: it has voted for nobody
    /// else, and neither index nor term of its last entry is above the candidate's.
    pub open spec fn may_vote_for(
        self,
        candidate: ReplicaID,
        last_log_index: usize,
        last_log_term: usize,
    ) -> bool {
        &&& self.voted_for is None || self.voted_for == Some(candidate)
        &&& self.log.last().index <= last_log_index
        &&& self.log.last().term <= last_log_term
    }

    /// Casts the vote for a candidate, or refuses it.
    pub open spec fn cast_vote(
        self,
        candidate: ReplicaID,
        last_log_index: usize,
        last_log_term: usize,
    ) -> Outcome<T> {
        if self.may_vote_for(candidate, last_log_index, last_log_term) {
            Outcome {
                state: ReplicaView { voted_for: Some(candidate), ..self },
                effects: seq![
                    EffectView::RegisterLeader { leader_id: None },
                    self.answer_vote(candidate, true),
                    EffectView::StoreVote { vote: Some(candidate) },
                ],
            }
        } else {
            Outcome { state: self, effects: seq![self.answer_vote(candidate, false)] }
        }
    }

    /// A follower is asked for its vote. It refuses a candidate that is behind; for
    /// one of a later term it moves to that term first. Then the vote is cast.
    pub open spec fn vote_request_as_follower(
        self,
        from_id: ReplicaID,
        term: usize,
        last_log_index: usize,
        last_log_term: usize,
    ) -> Outcome<T> {
        if self.current_term > term {
            Outcome { state: self, effects: seq![self.answer_vote(from_id, false)] }
        } else if self.current_term < term {
            let moved = self.step_down(term);
            moved.state.cast_vote(from_id, last_log_index, last_log_term).after(moved.effects)
        } else {
            self.cast_vote(from_id, last_log_index, last_log_term)
        }
    }

    /// Whether the log holds an entry of a term at an index.
    pub open spec fn holds(self, index: usize, term: usize) -> bool {
        index < self.log.len() && self.log[index as int].term == term
    }

    /// The commit index after a leader's: the leader's if that is higher, but not
    /// beyond the last entry of the log.
    pub open spec fn follow_commit(self, commit_index: usize) -> usize {
        if commit_index <= self.commit_index {
            self.commit_index
        } else if commit_index < self.log.last().index {
            commit_index
        } else {
            self.log.last().index
        }
    }

    /// The state after the entries of a leader were taken over.
    pub open spec fn take_over(self, entries: Seq<LogEntry<T>>, commit_index: usize) -> ReplicaView<
        T,
    > {
        let installed = ReplicaView { log: install_all(self.log, entries), ..self };
        ReplicaView { commit_index: installed.follow_commit(commit_index), ..installed }
    }

    /// A follower is asked to append. It refuses a leader of an earlier term, and
    /// names the mismatch to one whose previous entry it does not hold.
    pub open spec fn append_request_as_follower(
        self,
        from_id: ReplicaID,
        term: usize,
        prev_log_index: usize,
        prev_log_term: usize,
        entries: Seq<LogEntry<T>>,
        commit_index: usize,
    ) -> Outcome<T> {
        if self.current_term > term {
            Outcome { state: self, effects: seq![self.answer_append(from_id, false, None)] }
        } else if !self.holds(prev_log_index, prev_log_term) {
            Outcome {
                state: self,
                effects: seq![self.answer_append(from_id, false, Some(prev_log_index))],
            }
        } else {
            let state = self.take_over(entries, commit_index);
            Outcome {
                state,
                effects: install_all_effects(self.log, entries) + seq![
                    EffectView::RegisterLeader { leader_id: Some(from_id) },
                    state.answer_append(from_id, true, None),
                ],
            }
        }
    }

    /// A follower gets a message; answers are nothing to it.
    pub open spec fn message_as_follower(self, message: MessageView<T>) -> Outcome<T> {
        match message {
            MessageView::VoteRequest { from_id, term, last_log_index, last_log_term } =>
                self.vote_request_as_follower(from_id, term, last_log_index, last_log_term),
            MessageView::AppendEntryRequest {
                from_id,
                term,
                prev_log_index,
                prev_log_term,
                entries,
                commit_index,
            } => self.append_request_as_follower(
                from_id,
                term,
                prev_log_index,
                prev_log_term,
                entries,
                commit_index,
            ),
            MessageView::AppendEntryResponse { .. } => self.idle(),
            MessageView::VoteResponse { .. } => self.idle(),
        }
    }

    /// Whether votes suffice to lead: they are those of more than half of the
    /// cluster, which is the peers and the replica itself.
    pub open spec fn wins_with(self, votes: Set<ReplicaID>) -> bool {
        votes.len() * 2 > self.peer_ids.len() + 1
    }

    /// A candidate is answered. It gives up for a later term, and leads once the
    /// votes suffice.
    pub open spec fn vote_response_as_candidate(
        self,
        from_id: ReplicaID,
        term: usize,
        vote_granted: bool,
    ) -> Outcome<T> {
        if term > self.current_term {
            self.step_down(term)
        } else if vote_granted {
            match self.current_votes {
                Some(votes) => if self.wins_with(votes.insert(from_id)) {
                    self.become_leader()
                } else {
                    ReplicaView { current_votes: Some(votes.insert(from_id)), ..self }.idle()
                },
                None => self.idle(),
            }
        } else {
            self.idle()
        }
    }

    /// A candidate gets a message. For a vote in a later term, and for a leader
    /// in its own term or a later one, it becomes a follower and takes the
    /// message as such; otherwise it refuses.
    pub open spec fn message_as_candidate(self, message: MessageView<T>) -> Outcome<T> {
        match message {
            MessageView::AppendEntryRequest { from_id, term, .. } => if term >= self.current_term {
                let down = self.step_down(term);
                down.state.message_as_follower(message).after(down.effects)
            } else {
                Outcome { state: self, effects: seq![self.answer_append(from_id, false, None)] }
            },
            MessageView::VoteRequest { from_id, term, .. } => if term > self.current_term {
                let down = self.step_down(term);
                down.state.message_as_follower(message).after(down.effects)
            } else {
                Outcome { state: self, effects: seq![self.answer_vote(from_id, false)] }
            },
            MessageView::VoteResponse { from_id, term, vote_granted } =>
                self.vote_response_as_candidate(from_id, term, vote_granted),
            MessageView::AppendEntryResponse { .. } => self.idle(),
        }
    }

    /// A leader is answered. It gives up for a later term. A success tells how
    /// far the peer's log goes; a mismatch, unless it is an old one, takes the
    /// next entry to send back to the mismatch or to the end of the peer's log.
    pub open spec fn append_response_as_leader(
        self,
        from_id: ReplicaID,
        term: usize,
        success: bool,
        last_index: usize,
        mismatch_index: Option<usize>,
    ) -> Outcome<T> {
        if term > self.current_term {
            self.step_down(term)
        } else if success {
            ReplicaView {
                next_index: self.next_index.insert(from_id, (last_index + 1) as usize),
                match_index: self.match_index.insert(from_id, last_index),
                ..self
            }.idle()
        } else {
            match mismatch_index {
                Some(mismatch) => if mismatch < self.next_index[from_id] {
                    let next = if mismatch <= last_index {
                        mismatch
                    } else {
                        (last_index + 1) as usize
                    };
                    ReplicaView { next_index: self.next_index.insert(from_id, next), ..self }.idle()
                } else {
                    self.idle()
                },
                None => self.idle(),
            }
        }
    }

    /// A leader gets a message; only answers to its requests are anything to it.
    pub open spec fn message_as_leader(self, message: MessageView<T>) -> Outcome<T> {
        match message {
            MessageView::AppendEntryResponse {
                from_id,
                term,
                success,
                last_index,
                mismatch_index,
            } => self.append_response_as_leader(from_id, term, success, last_index, mismatch_index),
            _ => self.idle(),
        }
    }

    /// A message comes in.
    pub open spec fn message(self, message: MessageView<T>) -> Outcome<T> {
        match self.state {
            State::Leader => self.message_as_leader(message),
            State::Candidate => self.message_as_candidate(message),
            State::Follower => self.message_as_follower(message),
        }
    }

    /// Whether the replica can make sense of a message: a leader can of an answer
    /// in its term if the index it names has a next one, and if a mismatch comes
    /// from a replica that it keeps track of.
    pub open spec fn understands(self, message: MessageView<T>) -> bool {
        match message {
            MessageView::AppendEntryResponse {
                from_id,
                term,
                success,
                last_index,
                mismatch_index,
            } => self.state is Leader && term <= self.current_term ==> if success {
                last_index < usize::MAX
            } else {
                match mismatch_index {
                    Some(mismatch) => {
                        &&& self.next_index.contains_key(from_id)
                        &&& mismatch < self.next_index[from_id] ==> last_index < usize::MAX
                    },
                    None => true,
                }
            },
            _ => true,
        }
    }

    /// Messages come in one after the other.
    pub open spec fn messages(self, messages: Seq<MessageView<T>>) -> Outcome<T>
        decreases messages.len(),
    {
        if messages.len() == 0 {
            self.idle()
        } else {
            let before = self.messages(messages.drop_last());
            before.state.message(messages.last()).after(before.effects)
        }
    }

    /// How many of some messages the replica understands when they come in one
    /// after the other, up to the first that it does not.
    pub open spec fn understood(self, messages: Seq<MessageView<T>>) -> nat
        decreases messages.len(),
    {
        if messages.len() == 0 {
            0
        } else {
            let before = messages.drop_last();
            if self.understood(before) == before.len() && self.messages(before).state.understands(
                messages.last(),
            ) {
                messages.len()
            } else {
                self.understood(before)
            }
        }
    }

    /// What comes after a message that is not understood does not count.
    pub(crate) proof fn lemma_understood_ends(self, messages: Seq<MessageView<T>>, end: int)
        requires
            0 < end <= messages.len(),
            self.understood(messages.take(end)) < end,
        ensures
            self.understood(messages) == self.understood(messages.take(end)),
        decreases messages.len(),
    {
        if end < messages.len() {
            let before = messages.drop_last();
            assert(before.take(end) =~= messages.take(end));
            self.lemma_understood_ends(before, end);
        } else {
            assert(messages.take(end) =~= messages);
        }
    }

    /// Whether there is an entry before the next one to send to a peer.
    pub open spec fn can_send_to(self, peer_id: ReplicaID) -> bool {
        &&& self.next_index.contains_key(peer_id)
        &&& 1 <= self.next_index[peer_id] <= self.log.len()
    }

    /// Whether there is, for every peer, an entry before the next one to send.
    pub open spec fn can_send_to_all(self) -> bool {
        forall|i: int| 0 <= i < self.peer_ids.len() ==> self.can_send_to(#[trigger] self.peer_ids[i])
    }

    /// The log from the next entry to send to a peer.
    pub open spec fn entries_for(self, peer_id: ReplicaID) -> Seq<LogEntry<T>> {
        self.log.skip(self.next_index[peer_id] as int)
    }

    /// The request to append that goes to a peer.
    pub open spec fn append_request(self, peer_id: ReplicaID) -> MessageView<T> {
        MessageView::AppendEntryRequest {
            from_id: self.id,
            term: self.current_term,
            prev_log_index: (self.next_index[peer_id] - 1) as usize,
            prev_log_term: self.log[self.next_index[peer_id] - 1].term,
            entries: self.entries_for(peer_id),
            commit_index: self.commit_index,
        }
    }

    /// Sends every peer what it lacks of the log.
    pub open spec fn broadcast_append(self) -> Seq<EffectView<T>> {
        self.broadcast(|id: ReplicaID| self.append_request(id))
    }

    /// A heartbeat is due: every peer is sent what it lacks, and the timer is
    /// armed anew.
    pub open spec fn heartbeat(self, now: u128) -> Outcome<T> {
        Outcome {
            state: ReplicaView {
                heartbeat_timer: Timer::armed(self.heartbeat_timer.timeout, now),
                ..self
            },
            effects: self.broadcast_append(),
        }
    }

    /// Whether an entry can be committed: it is of the current term, and with the
    /// leader's own the majority of the logs hold it.
    pub open spec fn committable(self, index: usize) -> bool {
        &&& replicated_on(self.match_index, index).len() * 2 >= self.peer_ids.len()
        &&& self.log[index as int].term == self.current_term
    }

    /// Whether a commit index is the one to move to: for a leader the highest
    /// index above the present one that can be committed, and the present one if
    /// there is none or the replica does not lead.
    pub open spec fn moves_commit_to(self, commit_index: usize) -> bool {
        &&& self.commit_index <= commit_index
        &&& self.commit_index < commit_index ==> {
            &&& self.state is Leader
            &&& commit_index < self.log.len()
            &&& self.committable(commit_index)
        }
        &&& self.state is Leader ==> forall|n: usize|
            commit_index < n < self.log.len() ==> !#[trigger] self.committable(n)
    }

    /// Whether the log holds every entry that is committed but not applied.
    pub open spec fn can_apply(self) -> bool {
        self.commit_index < self.log.len() || self.commit_index <= self.last_applied
    }

    /// The outcome of moving the commit index and applying what is committed.
    pub open spec fn apply_up_to(self, commit_index: usize) -> Outcome<T> {
        Outcome {
            state: ReplicaView {
                commit_index,
                last_applied: if self.last_applied < commit_index {
                    commit_index
                } else {
                    self.last_applied
                },
                ..self
            },
            effects: committed_effects(self.log, self.commit_index, commit_index) + applied_effects(
                self.log,
                self.last_applied,
                commit_index,
            ),
        }
    }

    /// The entry that a leader makes of the transition at a place in a list.
    pub open spec fn queued_entry(self, transitions: Seq<Arc<T>>, i: int) -> LogEntry<T> {
        LogEntry {
            index: (self.log.len() + i) as usize,
            term: self.current_term,
            transition: transitions[i],
        }
    }

    /// New transitions come in. A leader appends each to its log, stores it and
    /// tells the state machine that it is queued; others ignore them.
    pub open spec fn load_transitions(self, transitions: Seq<Arc<T>>) -> Outcome<T> {
        if self.state is Leader {
            Outcome {
                state: ReplicaView {
                    log: self.log + Seq::new(
                        transitions.len(),
                        |i: int| self.queued_entry(transitions, i),
                    ),
                    ..self
                },
                effects: Seq::new(
                    2 * transitions.len(),
                    |i: int|
                        if i % 2 == 0 {
                            EffectView::PushEntry { entry: self.queued_entry(transitions, i / 2) }
                        } else {
                            register(
                                self.queued_entry(transitions, i / 2),
                                TransitionState::Queued,
                            )
                        },
                ),
            }
        } else {
            self.idle()
        }
    }

    /// Whether the election deadline can be set at a moment: the timeouts form a
    /// range, and the clock reaches to the end of the longest.
    pub open spec fn can_wait(self, now: u128) -> bool {
        &&& self.election_timeout.0 <= self.election_timeout.1
        &&& now + self.election_timeout.1 <= u128::MAX
    }

    /// Whether a deadline lies at an election timeout of the range after a moment.
    pub open spec fn waits_until(self, now: u128, deadline: u128) -> bool {
        now + self.election_timeout.0 <= deadline <= now + self.election_timeout.1
    }

    /// The state with another election deadline.
    pub open spec fn with_deadline(self, deadline: u128) -> ReplicaView<T> {
        ReplicaView { next_election_deadline: deadline, ..self }
    }

    /// Messages leave the election deadline as it is.
    pub(crate) proof fn lemma_messages_keep_deadline(self, messages: Seq<MessageView<T>>)
        ensures
            self.messages(messages).state.next_election_deadline == self.next_election_deadline,
        decreases messages.len(),
    {
        if messages.len() > 0 {
            self.lemma_messages_keep_deadline(messages.drop_last());
        }
    }
}

} // verus!
