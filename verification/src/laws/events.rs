//! Laws about every event of a replica.

use crate::message::{LogEntry, MessageView};
use crate::model::{install_all, lemma_install_all_effects, Outcome, ReplicaView};
use crate::ReplicaID;
use std::sync::Arc;
use vstd::prelude::*;

verus! {

/// Anything that can happen to a replica.
pub enum Input<T> {
    /// A message comes in.
    Message(MessageView<T>),
    /// The election deadline has passed.
    Election,
    /// New transitions come in.
    Transitions(Seq<Arc<T>>),
    /// What is committed is applied, with this as the commit index.
    Commit(usize),
    /// The peers are sent what they lack.
    Broadcast,
    /// A heartbeat is due, at this moment: the peers are sent what they lack, and the
    /// timer is armed anew.
    Heartbeat(u128),
    /// The election is put off until this moment.
    PutOff(u128),
}

/// Whether an input can happen to a replica.
pub open spec fn possible<T>(replica: ReplicaView<T>, input: Input<T>) -> bool {
    match input {
        Input::Message(message) => replica.understands(message),
        Input::Election => !(replica.state is Leader) && replica.current_term < usize::MAX,
        Input::Transitions(_) => true,
        Input::Commit(commit_index) => replica.can_apply() && replica.moves_commit_to(
            commit_index,
        ),
        Input::Broadcast => replica.state is Leader && replica.can_send_to_all(),
        Input::Heartbeat(_) => replica.state is Leader && replica.can_send_to_all(),
        Input::PutOff(_) => true,
    }
}

/// What an input comes to.
pub open spec fn react<T>(replica: ReplicaView<T>, input: Input<T>) -> Outcome<T> {
    match input {
        Input::Message(message) => replica.message(message),
        Input::Election => replica.become_candidate(),
        Input::Transitions(transitions) => replica.load_transitions(transitions),
        Input::Commit(commit_index) => replica.apply_up_to(commit_index),
        Input::Broadcast => Outcome { state: replica, effects: replica.broadcast_append() },
        Input::Heartbeat(now) => replica.heartbeat(now),
        Input::PutOff(deadline) => replica.with_deadline(deadline).idle(),
    }
}

/// What inputs come to one after the other.
pub open spec fn react_all<T>(replica: ReplicaView<T>, inputs: Seq<Input<T>>) -> Outcome<T>
    decreases inputs.len(),
{
    if inputs.len() == 0 {
        replica.idle()
    } else {
        let before = react_all(replica, inputs.drop_last());
        react(before.state, inputs.last()).after(before.effects)
    }
}

/// Whether inputs can happen to a replica one after the other.
pub open spec fn all_possible<T>(replica: ReplicaView<T>, inputs: Seq<Input<T>>) -> bool
    decreases inputs.len(),
{
    inputs.len() > 0 ==> {
        &&& all_possible(replica, inputs.drop_last())
        &&& possible(react_all(replica, inputs.drop_last()).state, inputs.last())
    }
}

/// Whether every entry of a log is numbered by its place.
pub open spec fn numbered<T>(log: Seq<LogEntry<T>>) -> bool {
    forall|i: int| 0 <= i < log.len() ==> (#[trigger] log[i]).index == i
}

/// What holds of a replica at all times is kept by every event, as long as the
/// machine can count the log.
pub proof fn every_event_keeps_wf<T>(replica: ReplicaView<T>, input: Input<T>)
    requires
        replica.wf(),
        possible(replica, input),
        react(replica, input).state.log.len() <= usize::MAX,
    ensures
        react(replica, input).state.wf(),
{
    if let Input::Message(MessageView::AppendEntryRequest { entries, .. }) = input {
        lemma_install_all_not_empty(replica.log, entries);
    }
    lemma_peers_are_told_of(replica);
    lemma_peers_are_told_of(replica.start_election().state);
}

/// Installing entries leaves no log empty.
proof fn lemma_install_all_not_empty<T>(log: Seq<LogEntry<T>>, entries: Seq<LogEntry<T>>)
    requires
        log.len() > 0,
    ensures
        install_all(log, entries).len() > 0,
    decreases entries.len(),
{
    if entries.len() > 0 {
        lemma_install_all_not_empty(log, entries.drop_last());
    }
}

/// A new leader keeps track of finitely many replicas, its peers.
proof fn lemma_peers_are_told_of<T>(replica: ReplicaView<T>)
    ensures
        replica.become_leader().state.match_index.dom().finite(),
{
    let told = replica.become_leader().state.match_index.dom();
    assert(told =~= replica.peer_ids.to_set());
    vstd::seq_lib::seq_to_set_is_finite(replica.peer_ids);
}

/// No event takes a replica back to an earlier term.
pub proof fn term_never_goes_back<T>(replica: ReplicaView<T>, input: Input<T>)
    requires
        possible(replica, input),
    ensures
        replica.current_term <= react(replica, input).state.current_term,
{
}

/// No event changes who the replica is, who its peers are, its transition without
/// effect or its timeouts.
pub proof fn every_event_keeps_identity<T>(replica: ReplicaView<T>, input: Input<T>)
    ensures
        ({
            let after = react(replica, input).state;
            &&& after.id == replica.id
            &&& after.peer_ids == replica.peer_ids
            &&& after.noop_transition == replica.noop_transition
            &&& after.election_timeout == replica.election_timeout
            &&& after.heartbeat_timer.timeout == replica.heartbeat_timer.timeout
        }),
{
}

/// A log whose entries are numbered by their places stays so, whatever entries
/// messages bring, as long as the machine can count it.
pub proof fn log_stays_numbered<T>(replica: ReplicaView<T>, input: Input<T>)
    requires
        numbered(replica.log),
        react(replica, input).state.log.len() <= usize::MAX,
    ensures
        numbered(react(replica, input).state.log),
{
    if let Input::Message(MessageView::AppendEntryRequest { entries, .. }) = input {
        lemma_install_all_numbered(replica.log, entries);
    }
}

/// A request to append, with whatever entries, leaves a follower with a log that is
/// not empty and whose entries are numbered by their places.
pub proof fn appending_keeps_log_numbered<T>(
    replica: ReplicaView<T>,
    from_id: ReplicaID,
    term: usize,
    prev_log_index: usize,
    prev_log_term: usize,
    entries: Seq<LogEntry<T>>,
    commit_index: usize,
)
    requires
        replica.log.len() > 0,
        numbered(replica.log),
    ensures
        ({
            let after = replica.append_request_as_follower(
                from_id,
                term,
                prev_log_index,
                prev_log_term,
                entries,
                commit_index,
            ).state;
            after.log.len() > 0 && numbered(after.log)
        }),
{
    lemma_install_all_not_empty(replica.log, entries);
    lemma_install_all_numbered(replica.log, entries);
}

/// Installing entries keeps a log numbered.
proof fn lemma_install_all_numbered<T>(log: Seq<LogEntry<T>>, entries: Seq<LogEntry<T>>)
    requires
        numbered(log),
    ensures
        numbered(install_all(log, entries)),
    decreases entries.len(),
{
    if entries.len() > 0 {
        lemma_install_all_numbered(log, entries.drop_last());
    }
}

/// A leader never drops or changes an entry of its log, even as it gives up.
pub proof fn leader_only_appends<T>(replica: ReplicaView<T>, input: Input<T>)
    requires
        replica.state is Leader,
        possible(replica, input),
    ensures
        replica.log.is_prefix_of(react(replica, input).state.log),
{
}

/// Transitions come to a replica that does not lead without leaving a trace.
pub proof fn transitions_pass_by_unless_leading<T>(
    replica: ReplicaView<T>,
    transitions: Seq<Arc<T>>,
)
    requires
        !(replica.state is Leader),
    ensures
        react(replica, Input::Transitions(transitions)) == replica.idle(),
{
}

/// A message leaves the index of the highest applied entry as it is, and has nothing
/// done to the state machine.
pub proof fn messages_leave_state_machine_alone<T>(
    replica: ReplicaView<T>,
    message: MessageView<T>,
)
    ensures
        ({
            let outcome = replica.message(message);
            &&& outcome.state.last_applied == replica.last_applied
            &&& forall|i: int|
                0 <= i < outcome.effects.len() ==> !((#[trigger] outcome.effects[i])
                    is ApplyTransition) && !(outcome.effects[i] is RegisterTransitionState)
        }),
{
    if let MessageView::AppendEntryRequest { entries, .. } = message {
        lemma_install_all_effects(replica.log, entries);
    }
}

/// The commit index to move to does not depend on the election deadline.
proof fn lemma_deadline_does_not_commit<T>(
    replica: ReplicaView<T>,
    commit_index: usize,
    deadline: u128,
)
    ensures
        replica.with_deadline(deadline).moves_commit_to(commit_index) == replica.moves_commit_to(
            commit_index,
        ),
{
    let other = replica.with_deadline(deadline);
    assert forall|n: usize| #[trigger] other.committable(n) == replica.committable(n) by {}
    if replica.moves_commit_to(commit_index) && replica.state is Leader {
        assert forall|n: usize| commit_index < n < other.log.len() implies !(
        #[trigger] other.committable(n)) by {
            assert(!replica.committable(n));
        }
    }
    if other.moves_commit_to(commit_index) && replica.state is Leader {
        assert forall|n: usize| commit_index < n < replica.log.len() implies !(
        #[trigger] replica.committable(n)) by {
            assert(!other.committable(n));
        }
    }
}

/// The election deadline decides nothing: with another one, an event has the same
/// effects and comes to the same state but for the deadline. Left out is the event
/// that sets it.
pub proof fn deadline_decides_nothing<T>(
    replica: ReplicaView<T>,
    input: Input<T>,
    deadline: u128,
)
    requires
        !(input is PutOff),
    ensures
        possible(replica.with_deadline(deadline), input) == possible(replica, input),
        react(replica.with_deadline(deadline), input).effects == react(replica, input).effects,
        react(replica.with_deadline(deadline), input).state == react(
            replica,
            input,
        ).state.with_deadline(deadline),
{
    let other = replica.with_deadline(deadline);
    assert(other.broadcast_append() =~= replica.broadcast_append());
    assert(other.can_send_to_all() == replica.can_send_to_all()) by {
        assert(forall|id: ReplicaID| #[trigger] other.can_send_to(id) == replica.can_send_to(id));
    }
    if let Input::Commit(commit_index) = input {
        lemma_deadline_does_not_commit(replica, commit_index, deadline);
    }
    if input is Election {
        let started = replica.start_election().state;
        let other_started = other.start_election().state;
        assert(other_started.broadcast(|id: ReplicaID| other_started.vote_request())
            =~= started.broadcast(|id: ReplicaID| started.vote_request()));
    }
    if let Input::Transitions(transitions) = input {
        assert(other.load_transitions(transitions).state.log =~= replica.load_transitions(
            transitions,
        ).state.log);
        assert(other.load_transitions(transitions).effects =~= replica.load_transitions(
            transitions,
        ).effects);
    }
}

/// What has been applied is never taken back.
pub proof fn applied_never_goes_back<T>(replica: ReplicaView<T>, input: Input<T>)
    ensures
        replica.last_applied <= react(replica, input).state.last_applied,
{
}

} // verus!
