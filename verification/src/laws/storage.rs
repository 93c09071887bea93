//! Laws about the storage: it holds what the replica needs to start again.

use crate::effect::EffectView;
use crate::laws::events::{react, react_all, Input};
use crate::message::{LogEntry, MessageView};
use crate::model::{
    applied_effects, install_all, install_all_effects, install_effects, lemma_install_all_effects,
    Outcome, ReplicaView, Stored,
};
use crate::ReplicaID;
use std::sync::Arc;
use vstd::prelude::*;

verus! {

/// What a storage holds.
#[verifier::ext_equal]
pub struct StorageView<T> {
    pub term: usize,
    pub vote: Option<ReplicaID>,
    pub log: Seq<LogEntry<T>>,
}

impl<T> StorageView<T> {
    /// The storage after an effect was carried out.
    pub open spec fn store(self, effect: EffectView<T>) -> StorageView<T> {
        match effect {
            EffectView::StoreTerm { term } => StorageView { term, ..self },
            EffectView::StoreVote { vote } => StorageView { vote, ..self },
            EffectView::PushEntry { entry } => StorageView { log: self.log.push(entry), ..self },
            EffectView::TruncateEntries { index } => StorageView {
                log: if index <= self.log.len() {
                    self.log.take(index as int)
                } else {
                    self.log
                },
                ..self
            },
            _ => self,
        }
    }

    /// The storage after effects were carried out in order.
    pub open spec fn store_all(self, effects: Seq<EffectView<T>>) -> StorageView<T>
        decreases effects.len(),
    {
        if effects.len() == 0 {
            self
        } else {
            self.store_all(effects.drop_last()).store(effects.last())
        }
    }

    /// Carrying out effects in two parts is carrying them all out.
    pub(crate) proof fn lemma_store_all_add(self, first: Seq<EffectView<T>>, second: Seq<EffectView<T>>)
        ensures
            self.store_all(first + second) == self.store_all(first).store_all(second),
        decreases second.len(),
    {
        if second.len() == 0 {
            assert(first + second =~= first);
        } else {
            self.lemma_store_all_add(first, second.drop_last());
            assert((first + second).drop_last() =~= first + second.drop_last());
        }
    }

    /// Effects that do not concern the storage leave it as it is.
    proof fn lemma_store_all_nothing(self, effects: Seq<EffectView<T>>)
        requires
            forall|i: int|
                0 <= i < effects.len() ==> self.store(#[trigger] effects[i]) == self,
        ensures
            self.store_all(effects) == self,
        decreases effects.len(),
    {
        if effects.len() > 0 {
            self.lemma_store_all_nothing(effects.drop_last());
        }
    }

    /// What is told of installed entries makes the stored log the installed one.
    proof fn lemma_store_installed(self, entries: Seq<LogEntry<T>>)
        ensures
            self.store_all(install_all_effects(self.log, entries)) == (StorageView {
                log: install_all(self.log, entries),
                ..self
            }),
        decreases entries.len(),
    {
        if entries.len() > 0 {
            let before = entries.drop_last();
            self.lemma_store_installed(before);
            let log = install_all(self.log, before);
            let told = install_effects(log, entries.last());
            self.lemma_store_all_add(install_all_effects(self.log, before), told);
            reveal_with_fuel(StorageView::store_all, 3);
        }
    }

    /// Applying entries does not concern the storage.
    proof fn lemma_store_applied(self, log: Seq<LogEntry<T>>, low: usize, high: usize)
        ensures
            self.store_all(applied_effects(log, low, high)) == self,
        decreases high,
    {
        if low < high {
            self.lemma_store_applied(log, low, (high - 1) as usize);
            let before = applied_effects(log, low, (high - 1) as usize);
            let told = applied_effects(log, low, high);
            assert(told.drop_last().drop_last() =~= before);
            reveal_with_fuel(StorageView::store_all, 3);
        }
    }
}

/// What a storage holds that is up to date with a replica.
pub open spec fn storage_of<T>(replica: ReplicaView<T>) -> StorageView<T> {
    StorageView { term: replica.current_term, vote: replica.voted_for, log: replica.log }
}

/// Whether an outcome of a replica keeps its storage up to date.
pub open spec fn stored_by<T>(replica: ReplicaView<T>, outcome: Outcome<T>) -> bool {
    storage_of(replica).store_all(outcome.effects) == storage_of(outcome.state)
}

/// One outcome after another keeps the storage up to date if both do.
proof fn lemma_stored_in_turn<T>(replica: ReplicaView<T>, first: Outcome<T>, second: Outcome<T>)
    requires
        stored_by(replica, first),
        stored_by(first.state, second),
    ensures
        stored_by(replica, second.after(first.effects)),
{
    storage_of(replica).lemma_store_all_add(first.effects, second.effects);
}

proof fn lemma_stored_step_down<T>(replica: ReplicaView<T>, term: usize)
    ensures
        stored_by(replica, replica.step_down(term)),
{
    let effects = replica.step_down(term).effects;
    assert(effects =~= seq![
        EffectView::RegisterLeader { leader_id: None },
        EffectView::StoreTerm { term },
        EffectView::StoreVote { vote: None },
    ]);
    reveal_with_fuel(StorageView::store_all, 4);
}

proof fn lemma_stored_become_leader<T>(replica: ReplicaView<T>)
    ensures
        stored_by(replica, replica.become_leader()),
{
    reveal_with_fuel(StorageView::store_all, 4);
}

proof fn lemma_stored_election<T>(replica: ReplicaView<T>)
    ensures
        stored_by(replica, replica.become_candidate()),
{
    let started = replica.start_election();
    let told = seq![
        EffectView::StoreTerm { term: started.state.current_term },
        EffectView::StoreVote { vote: Some(replica.id) },
    ];
    let requests = started.state.broadcast(|id: ReplicaID| started.state.vote_request());
    let before = storage_of(replica);
    before.lemma_store_all_add(told, requests);
    assert(before.store_all(told) == storage_of(started.state)) by {
        reveal_with_fuel(StorageView::store_all, 3);
    }
    storage_of(started.state).lemma_store_all_nothing(requests);
    lemma_stored_become_leader(started.state);
    lemma_stored_in_turn(replica, started, started.state.become_leader());
}

proof fn lemma_stored_cast_vote<T>(
    replica: ReplicaView<T>,
    candidate: ReplicaID,
    last_log_index: usize,
    last_log_term: usize,
)
    ensures
        stored_by(replica, replica.cast_vote(candidate, last_log_index, last_log_term)),
{
    reveal_with_fuel(StorageView::store_all, 4);
}

proof fn lemma_stored_message_as_follower<T>(replica: ReplicaView<T>, message: MessageView<T>)
    ensures
        stored_by(replica, replica.message_as_follower(message)),
{
    let storage = storage_of(replica);
    match message {
        MessageView::VoteRequest { from_id, term, last_log_index, last_log_term } => {
            if replica.current_term > term {
                storage.lemma_store_all_nothing(seq![replica.answer_vote(from_id, false)]);
            } else if replica.current_term < term {
                let moved = replica.step_down(term);
                lemma_stored_step_down(replica, term);
                lemma_stored_cast_vote(moved.state, from_id, last_log_index, last_log_term);
                lemma_stored_in_turn(
                    replica,
                    moved,
                    moved.state.cast_vote(from_id, last_log_index, last_log_term),
                );
            } else {
                lemma_stored_cast_vote(replica, from_id, last_log_index, last_log_term);
            }
        },
        MessageView::AppendEntryRequest {
            from_id,
            term,
            prev_log_index,
            prev_log_term,
            entries,
            commit_index,
        } => {
            let outcome = replica.message_as_follower(message);
            if replica.current_term > term || !replica.holds(prev_log_index, prev_log_term) {
                storage.lemma_store_all_nothing(outcome.effects);
            } else {
                let told = seq![
                    EffectView::RegisterLeader { leader_id: Some(from_id) },
                    outcome.state.answer_append(from_id, true, None),
                ];
                storage.lemma_store_installed(entries);
                storage.lemma_store_all_add(install_all_effects(replica.log, entries), told);
                storage_of(outcome.state).lemma_store_all_nothing(told);
            }
        },
        _ => {},
    }
}

proof fn lemma_stored_message<T>(replica: ReplicaView<T>, message: MessageView<T>)
    ensures
        stored_by(replica, replica.message(message)),
{
    let storage = storage_of(replica);
    if replica.state is Follower {
        lemma_stored_message_as_follower(replica, message);
    } else {
        match message {
            MessageView::AppendEntryRequest { from_id, term, .. } => {
                let down = replica.step_down(term);
                lemma_stored_step_down(replica, term);
                lemma_stored_message_as_follower(down.state, message);
                lemma_stored_in_turn(replica, down, down.state.message_as_follower(message));
                storage.lemma_store_all_nothing(seq![replica.answer_append(from_id, false, None)]);
            },
            MessageView::VoteRequest { from_id, term, .. } => {
                let down = replica.step_down(term);
                lemma_stored_step_down(replica, term);
                lemma_stored_message_as_follower(down.state, message);
                lemma_stored_in_turn(replica, down, down.state.message_as_follower(message));
                storage.lemma_store_all_nothing(seq![replica.answer_vote(from_id, false)]);
            },
            MessageView::VoteResponse { term, .. } => {
                lemma_stored_step_down(replica, term);
                lemma_stored_become_leader(replica);
            },
            MessageView::AppendEntryResponse { term, .. } => {
                lemma_stored_step_down(replica, term);
            },
        }
    }
}

proof fn lemma_stored_transitions<T>(replica: ReplicaView<T>, transitions: Seq<Arc<T>>)
    ensures
        stored_by(replica, replica.load_transitions(transitions)),
    decreases transitions.len(),
{
    let outcome = replica.load_transitions(transitions);
    if replica.state is Leader && transitions.len() > 0 {
        let before = transitions.drop_last();
        lemma_stored_transitions(replica, before);
        let earlier = replica.load_transitions(before);
        assert(outcome.effects.drop_last().drop_last() =~= earlier.effects);
        assert(outcome.state.log =~= earlier.state.log.push(
            replica.queued_entry(transitions, transitions.len() - 1),
        ));
        reveal_with_fuel(StorageView::store_all, 3);
    } else {
        assert(outcome.effects =~= seq![]);
        assert(outcome.state.log =~= replica.log);
    }
}

/// Every event keeps the storage up to date: carried out on a storage that holds
/// the replica's term, vote and log, its effects leave there the term, vote and
/// log that the replica then has.
pub proof fn storage_keeps_up<T>(replica: ReplicaView<T>, input: Input<T>)
    ensures
        storage_of(replica).store_all(react(replica, input).effects) == storage_of(
            react(replica, input).state,
        ),
{
    let storage = storage_of(replica);
    match input {
        Input::Message(message) => {
            lemma_stored_message(replica, message);
        },
        Input::Election => {
            lemma_stored_election(replica);
        },
        Input::Transitions(transitions) => {
            lemma_stored_transitions(replica, transitions);
        },
        Input::Commit(commit_index) => {
            let committed = crate::model::committed_effects(
                replica.log,
                replica.commit_index,
                commit_index,
            );
            storage.lemma_store_all_nothing(committed);
            storage.lemma_store_applied(replica.log, replica.last_applied, commit_index);
            storage.lemma_store_all_add(
                committed,
                applied_effects(replica.log, replica.last_applied, commit_index),
            );
        },
        Input::Broadcast => {
            storage.lemma_store_all_nothing(replica.broadcast_append());
        },
        Input::Heartbeat(_) => {
            storage.lemma_store_all_nothing(replica.broadcast_append());
        },
        Input::PutOff(_) => {},
    }
}

/// Whether what a replica finds when it starts is what a storage holds.
pub open spec fn found_in<T>(stored: Stored<T>, storage: StorageView<T>) -> bool {
    &&& stored.term == storage.term
    &&& stored.vote == storage.vote
    &&& stored.last_index == if storage.log.len() == 0 {
        0
    } else {
        storage.log.len() - 1
    }
    &&& stored.last_index != 0 ==> stored.entries@ == storage.log
}

/// A replica that starts on what a storage holds of an earlier one follows, with the
/// term and the vote of that one and with nothing known to be committed. If the log
/// reaches beyond its first entry, it has that log too, and leaves the storage as it
/// is. A storage with the first entry alone is taken for a new one: the replica has
/// its log all the same, but the entry is stored a second time.
pub proof fn restart_restores<T>(
    replica: ReplicaView<T>,
    stored: Stored<T>,
    heartbeat_timeout: u128,
    now: u128,
)
    requires
        found_in(stored, storage_of(replica)),
    ensures
        ({
            let outcome = ReplicaView::start(
                replica.id,
                replica.peer_ids,
                replica.noop_transition,
                heartbeat_timeout,
                replica.election_timeout,
                stored,
                now,
            );
            let first = ReplicaView::first_entry(replica.noop_transition);
            let left = storage_of(replica).store_all(outcome.effects);
            &&& outcome.state.current_term == replica.current_term
            &&& outcome.state.voted_for == replica.voted_for
            &&& outcome.state.state is Follower
            &&& outcome.state.commit_index == 0
            &&& stored.last_index != 0 ==> {
                &&& storage_of(outcome.state) == storage_of(replica)
                &&& left == storage_of(replica)
            }
            &&& replica.log == seq![first] ==> {
                &&& storage_of(outcome.state) == storage_of(replica)
                &&& left == StorageView { log: seq![first, first], ..storage_of(replica) }
            }
        }),
{
    let first = ReplicaView::first_entry(replica.noop_transition);
    reveal_with_fuel(StorageView::store_all, 2);
    assert(seq![first].push(first) =~= seq![first, first]);
}

/// What effects make of the term and the vote in a storage does not depend on the log.
proof fn lemma_log_does_not_matter<T>(
    one: StorageView<T>,
    other: StorageView<T>,
    effects: Seq<EffectView<T>>,
)
    requires
        one.term == other.term,
        one.vote == other.vote,
    ensures
        one.store_all(effects).term == other.store_all(effects).term,
        one.store_all(effects).vote == other.store_all(effects).vote,
    decreases effects.len(),
{
    if effects.len() > 0 {
        lemma_log_does_not_matter(one, other, effects.drop_last());
    }
}

/// Every event keeps the stored term and vote up to date, whatever log the storage
/// holds.
pub proof fn stored_term_and_vote_keep_up<T>(
    replica: ReplicaView<T>,
    storage: StorageView<T>,
    input: Input<T>,
)
    requires
        storage.term == replica.current_term,
        storage.vote == replica.voted_for,
    ensures
        ({
            let outcome = react(replica, input);
            let left = storage.store_all(outcome.effects);
            left.term == outcome.state.current_term && left.vote == outcome.state.voted_for
        }),
{
    storage_keeps_up(replica, input);
    lemma_log_does_not_matter(storage, storage_of(replica), react(replica, input).effects);
}

/// A storage with the term and the vote of a replica has them after any inputs.
proof fn lemma_term_and_vote_are_stored<T>(
    replica: ReplicaView<T>,
    storage: StorageView<T>,
    inputs: Seq<Input<T>>,
)
    requires
        storage.term == replica.current_term,
        storage.vote == replica.voted_for,
    ensures
        ({
            let run = react_all(replica, inputs);
            let left = storage.store_all(run.effects);
            left.term == run.state.current_term && left.vote == run.state.voted_for
        }),
    decreases inputs.len(),
{
    if inputs.len() > 0 {
        let before = react_all(replica, inputs.drop_last());
        lemma_term_and_vote_are_stored(replica, storage, inputs.drop_last());
        let last = react(before.state, inputs.last());
        storage.lemma_store_all_add(before.effects, last.effects);
        stored_term_and_vote_keep_up(
            before.state,
            storage.store_all(before.effects),
            inputs.last(),
        );
    }
}

/// Term and vote survive a restart at any point: a replica that starts on a storage
/// and then another in its place, after any inputs, has the term and the vote that
/// the first one ended with. It follows, with nothing known to be committed. This
/// holds whatever log the storage holds.
pub proof fn term_and_vote_survive_restart<T>(
    replica: ReplicaView<T>,
    storage: StorageView<T>,
    stored: Stored<T>,
    inputs: Seq<Input<T>>,
    stored_later: Stored<T>,
    heartbeat_timeout: u128,
    now: u128,
    later: u128,
)
    requires
        found_in(stored, storage),
        ({
            let first = ReplicaView::start(
                replica.id,
                replica.peer_ids,
                replica.noop_transition,
                heartbeat_timeout,
                replica.election_timeout,
                stored,
                now,
            );
            let run = react_all(first.state, inputs);
            found_in(stored_later, storage.store_all(first.effects).store_all(run.effects))
        }),
    ensures
        ({
            let first = ReplicaView::start(
                replica.id,
                replica.peer_ids,
                replica.noop_transition,
                heartbeat_timeout,
                replica.election_timeout,
                stored,
                now,
            );
            let ended = react_all(first.state, inputs).state;
            let second = ReplicaView::start(
                replica.id,
                replica.peer_ids,
                replica.noop_transition,
                heartbeat_timeout,
                replica.election_timeout,
                stored_later,
                later,
            ).state;
            &&& second.current_term == ended.current_term
            &&& second.voted_for == ended.voted_for
            &&& second.state is Follower
            &&& second.commit_index == 0
        }),
{
    let first = ReplicaView::start(
        replica.id,
        replica.peer_ids,
        replica.noop_transition,
        heartbeat_timeout,
        replica.election_timeout,
        stored,
        now,
    );
    reveal_with_fuel(StorageView::store_all, 2);
    lemma_term_and_vote_are_stored(first.state, storage.store_all(first.effects), inputs);
}

/// What a follower stores on a request to append, carried out in order on a copy of
/// its log, gives the log that it then has; its term and its vote are not stored.
pub proof fn appending_is_stored<T>(
    replica: ReplicaView<T>,
    from_id: ReplicaID,
    term: usize,
    prev_log_index: usize,
    prev_log_term: usize,
    entries: Seq<LogEntry<T>>,
    commit_index: usize,
)
    ensures
        ({
            let outcome = replica.append_request_as_follower(
                from_id,
                term,
                prev_log_index,
                prev_log_term,
                entries,
                commit_index,
            );
            &&& storage_of(replica).store_all(outcome.effects) == storage_of(outcome.state)
            &&& forall|i: int|
                0 <= i < outcome.effects.len() ==> !((#[trigger] outcome.effects[i]) is StoreTerm)
                    && !(outcome.effects[i] is StoreVote)
        }),
{
    lemma_stored_message_as_follower(
        replica,
        MessageView::AppendEntryRequest {
            from_id,
            term,
            prev_log_index,
            prev_log_term,
            entries,
            commit_index,
        },
    );
    lemma_install_all_effects(replica.log, entries);
}

/// A replica that starts on an empty storage leaves its log there.
pub proof fn first_start_is_stored<T>(
    id: ReplicaID,
    peer_ids: Seq<ReplicaID>,
    noop_transition: Arc<T>,
    heartbeat_timeout: u128,
    election_timeout: (u128, u128),
    stored: Stored<T>,
    now: u128,
)
    requires
        stored.last_index == 0,
    ensures
        ({
            let outcome = ReplicaView::start(
                id,
                peer_ids,
                noop_transition,
                heartbeat_timeout,
                election_timeout,
                stored,
                now,
            );
            let empty = StorageView { term: stored.term, vote: stored.vote, log: seq![] };
            empty.store_all(outcome.effects) == storage_of(outcome.state)
        }),
{
    reveal_with_fuel(StorageView::store_all, 2);
}

} // verus!
