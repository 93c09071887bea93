//! What happens in a cluster keeps it sound: its messages fit the record too.

use crate::laws::consistency::requests_are_cut_from_log;
use crate::laws::events::{react, term_never_goes_back, Input};
use crate::laws::fitting::no_further;
use crate::laws::record::Record;
use crate::laws::world::{
    acknowledges, acts_in, casts_vote, sends_to, sent_by, World,
};
use crate::message::MessageView;
use crate::model::{
    lemma_applied_effects_kinds, lemma_install_all_effects, ReplicaView, Stored,
};
use crate::ReplicaID;
use vstd::prelude::*;

verus! {

impl<T> World<T> {
    /// The vote of a replica is for a candidate whose log is at least as far.
    proof fn lemma_vote_is_for_complete_log(self, id: ReplicaID, input: Input<T>)
        requires
            self.sound(),
            self.can_happen(id, input),
            casts_vote(self.replicas[id], input),
        ensures
            ({
                let next = react(self.replicas[id], input).state;
                let later = self.after(id, input).record;
                let candidate = next.voted_for->0;
                &&& self.ids.contains(candidate)
                &&& candidate != id
                &&& next.voted_for == Some(candidate)
                &&& !self.record.grants.contains_key((id, next.current_term)) ==> later.vote_fits(
                    id,
                    next.current_term,
                    self.replicas[candidate],
                )
            }),
    {
        let replica = self.replicas[id];
        let next = react(replica, input).state;
        assert(self.record.fits(self.ids, id, replica));
        if let Input::Message(message) = input {
            assert(self.sent.contains((id, message)));
            assert(self.record.message_fits(self.ids, self.replicas, id, message));
            if let MessageView::VoteRequest { from_id, .. } = message {
                let at = next.current_term;
                let later = self.after(id, input).record;
                assert(next.log == replica.log);
                assert(next.voted_for == Some(from_id));
                let candidate = self.replicas[from_id];
                assert(self.record.fits(self.ids, from_id, candidate));
                let last_term = candidate.log[candidate.log.len() - 1].term;
                assert(self.record.logs.contains_key(last_term));
                if self.record.voters[last_term].contains(id) && at < last_term {
                    assert(self.record.voters.contains_key(last_term));
                }
                assert(later.voters == self.record.voters);
                if !self.record.grants.contains_key((id, at)) && later.grant_logs.contains_key(
                    (id, at),
                ) {
                    if self.record.grant_logs.contains_key((id, at)) {
                        assert(self.record.grant_log_wf(id, at));
                    }
                    assert(later.grant_logs[(id, at)] == replica.log);
                }
            }
        }
    }

    /// A message that was sent fits the record as it grows.
    proof fn lemma_sent_still_fits(
        self,
        id: ReplicaID,
        input: Input<T>,
        to: ReplicaID,
        message: MessageView<T>,
    )
        requires
            self.sound(),
            self.can_happen(id, input),
            self.recorded(id, input),
            self.sent.contains((to, message)),
        ensures
            ({
                let after = self.after(id, input);
                after.record.message_fits(after.ids, after.replicas, to, message)
            }),
    {
        let replica = self.replicas[id];
        let next = react(replica, input).state;
        let record = self.record;
        let later = record.after(id, replica, input);
        let at = acts_in(replica, input);
        assert(record.fits(self.ids, id, replica));
        assert(record.message_fits(self.ids, self.replicas, to, message));
        match message {
            MessageView::VoteRequest { from_id, term, .. } => {
                if from_id == id {
                    assert(no_further(replica.log, next.log));
                }
            },
            MessageView::AppendEntryRequest {
                term,
                prev_log_index,
                entries,
                commit_index,
                ..
            } => {
                assert(record.logs.contains_key(term));
                let log = record.logs[term];
                let longer = later.logs[term];
                let end = prev_log_index + 1 + entries.len();
                assert forall|i: int| 0 <= i < log.len() implies #[trigger] longer[i] == log[i] by {
                    assert(longer.take(log.len() as int)[i] == log[i]);
                }
                assert(longer.subrange(prev_log_index + 1, end) =~= log.subrange(
                    prev_log_index + 1,
                    end,
                ));
                record.lemma_safe_grows(
                    later,
                    id,
                    at,
                    self.ids,
                    log,
                    commit_index,
                    term,
                    term,
                );
                assert(longer.take(commit_index + 1) =~= log.take(commit_index + 1));
                later.lemma_safe_other_log(self.ids, log, longer, commit_index, term);
            },
            MessageView::AppendEntryResponse { from_id, term, success, last_index, .. } => {
                if success {
                    let led = choose|led: usize|
                        term <= led && record.leaders.contains_key(led) && record.leaders[led]
                            == to && #[trigger] record.acks.contains((from_id, led, last_index));
                    assert(later.acks.contains((from_id, led, last_index)));
                }
            },
            _ => {},
        }
    }
}

/// A request for a vote is answered to the candidate, in the
/// term the replica is then in, and with a grant only if the vote is cast.
proof fn lemma_vote_answers<T>(
    replica: ReplicaView<T>,
    received: MessageView<T>,
    to: ReplicaID,
    message: MessageView<T>,
)
    requires
        received is VoteRequest,
        sent_by(replica.message(received).effects).contains((to, message)),
    ensures
        received matches MessageView::VoteRequest { from_id, .. } && to == from_id,
        message matches MessageView::VoteResponse { from_id, term, vote_granted } && {
            let next = replica.message(received).state;
            &&& from_id == replica.id
            &&& term == next.current_term
            &&& vote_granted ==> casts_vote(replica, Input::Message(received)) && next.voted_for
                == Some(to)
        },
{
    let effects = replica.message(received).effects;
    let i = choose|i: int|
        0 <= i < effects.len() && sends_to(#[trigger] effects[i], to, message);
    assert(sends_to(effects[i], to, message));
}

/// A request to append is answered to the leader, and with a
/// success only if it is acknowledged, up to the last entry of the log.
proof fn lemma_append_answers<T>(
    replica: ReplicaView<T>,
    received: MessageView<T>,
    to: ReplicaID,
    message: MessageView<T>,
)
    requires
        received is AppendEntryRequest,
        sent_by(replica.message(received).effects).contains((to, message)),
    ensures
        received matches MessageView::AppendEntryRequest { from_id, .. } && to == from_id,
        message matches MessageView::AppendEntryResponse {
            from_id,
            term,
            success,
            last_index,
            ..
        } && {
            let next = replica.message(received).state;
            &&& from_id == replica.id
            &&& success ==> {
                &&& acknowledges(replica, Input::Message(received))
                &&& term == next.current_term
                &&& last_index == next.last_index()
            }
        },
{
    let effects = replica.message(received).effects;
    let i = choose|i: int|
        0 <= i < effects.len() && sends_to(#[trigger] effects[i], to, message);
    assert(sends_to(effects[i], to, message));
    lemma_install_all_effects(replica.log, received->entries);
}

/// A replica that starts an election sends its peers requests for their votes.
proof fn lemma_election_sends<T>(
    replica: ReplicaView<T>,
    to: ReplicaID,
    message: MessageView<T>,
)
    requires
        sent_by(replica.become_candidate().effects).contains((to, message)),
    ensures
        replica.peer_ids.contains(to),
        message == replica.start_election().state.vote_request(),
        replica.become_candidate() == replica.start_election(),
{
    let effects = replica.become_candidate().effects;
    let i = choose|i: int|
        0 <= i < effects.len() && sends_to(#[trigger] effects[i], to, message);
    assert(sends_to(effects[i], to, message));
    let started = replica.start_election();
    if replica.peer_ids.len() == 0 {
        assert(started.effects.len() == 2);
        assert(false);
    }
    assert(replica.peer_ids[i - 2] == to);
}

/// What goes to the peers of what they lack are requests to append.
proof fn lemma_broadcast_sends<T>(
    replica: ReplicaView<T>,
    to: ReplicaID,
    message: MessageView<T>,
)
    requires
        replica.can_send_to_all(),
        sent_by(replica.broadcast_append()).contains((to, message)),
    ensures
        replica.peer_ids.contains(to),
        replica.can_send_to(to),
        message == replica.append_request(to),
{
    let effects = replica.broadcast_append();
    let i = choose|i: int|
        0 <= i < effects.len() && sends_to(#[trigger] effects[i], to, message);
    assert(sends_to(effects[i], to, message));
    assert(replica.peer_ids[i] == to);
}

/// Nothing is sent on answers, on transitions, when entries are applied and when the
/// election is put off.
proof fn lemma_sends_nothing<T>(
    replica: ReplicaView<T>,
    input: Input<T>,
    to: ReplicaID,
    message: MessageView<T>,
)
    requires
        match input {
            Input::Message(received) => received is VoteResponse || received
                is AppendEntryResponse,
            Input::Transitions(_) => true,
            Input::Commit(_) => true,
            Input::PutOff(_) => true,
            _ => false,
        },
    ensures
        !sent_by(react(replica, input).effects).contains((to, message)),
{
    let effects = react(replica, input).effects;
    if let Input::Commit(commit_index) = input {
        lemma_applied_effects_kinds(replica.log, replica.last_applied, commit_index);
    }
    assert forall|i: int| 0 <= i < effects.len() implies !sends_to(
        #[trigger] effects[i],
        to,
        message,
    ) by {
        assert(!(effects[i] is SendMessage));
    }
}

impl<T> Record<T> {
    /// What a leader asks a peer to append fits the record.
    proof fn lemma_append_request_fits(
        self,
        ids: Set<ReplicaID>,
        replicas: Map<ReplicaID, ReplicaView<T>>,
        id: ReplicaID,
        replica: ReplicaView<T>,
        to: ReplicaID,
    )
        requires
            self.wf(ids),
            self.fits(ids, id, replica),
            replica.state is Leader,
            replica.peer_ids.contains(to),
            replica.can_send_to(to),
        ensures
            self.message_fits(ids, replicas, to, replica.append_request(to)),
    {
        let term = replica.current_term;
        assert(self.logs.contains_key(term));
        assert(self.log_wf(term));
        requests_are_cut_from_log(replica, to, replica.log);
    }
}

impl<T> World<T> {
    /// Sending the peers what they lack leaves the record as it is.
    proof fn lemma_broadcast_record(self, id: ReplicaID, input: Input<T>)
        requires
            self.sound(),
            self.ids.contains(id),
            self.replicas[id].state is Leader,
            input is Broadcast || input is Heartbeat,
        ensures
            self.after(id, input).record == self.record,
    {
        let replica = self.replicas[id];
        let record = self.record;
        let term = replica.current_term;
        assert(record.fits(self.ids, id, replica));
        assert(record.logs.contains_key(term));
        assert(record.logs.insert(term, replica.log) =~= record.logs);
    }

    /// Whatever a replica sends fits the record.
    proof fn lemma_sent_fits(
        self,
        id: ReplicaID,
        input: Input<T>,
        to: ReplicaID,
        message: MessageView<T>,
    )
        requires
            self.sound(),
            self.can_happen(id, input),
            self.recorded(id, input),
            sent_by(react(self.replicas[id], input).effects).contains((to, message)),
        ensures
            ({
                let after = self.after(id, input);
                after.record.message_fits(after.ids, after.replicas, to, message)
            }),
    {
        let replica = self.replicas[id];
        let record = self.record;
        let next = react(replica, input).state;
        let later = record.after(id, replica, input);
        assert(record.fits(self.ids, id, replica));
        match input {
            Input::Message(received) => {
                assert(self.sent.contains((id, received)));
                assert(record.message_fits(self.ids, self.replicas, id, received));
                if received is VoteRequest {
                    lemma_vote_answers(replica, received, to, message);
                    assert(later.votes_fit(id, next));
                } else if received is AppendEntryRequest {
                    lemma_append_answers(replica, received, to, message);
                    if message->success {
                        let led = received->AppendEntryRequest_term;
                        assert(later.acks.contains((id, led, message->last_index)));
                        assert(later.leaders.contains_key(led));
                    }
                } else {
                    lemma_sends_nothing(replica, input, to, message);
                }
            },
            Input::Election => {
                lemma_election_sends(replica, to, message);
            },
            Input::Broadcast | Input::Heartbeat(_) => {
                lemma_broadcast_sends(replica, to, message);
                self.lemma_broadcast_record(id, input);
                record.lemma_append_request_fits(
                    self.ids,
                    self.after(id, input).replicas,
                    id,
                    replica,
                    to,
                );
            },
            _ => {
                lemma_sends_nothing(replica, input, to, message);
            },
        }
    }

    /// What holds of a cluster at all times is kept by every event of a replica.
    pub proof fn every_event_keeps_sound(self, id: ReplicaID, input: Input<T>)
        requires
            self.sound(),
            self.can_happen(id, input),
        ensures
            self.after(id, input).sound(),
    {
        let after = self.after(id, input);
        let replica = self.replicas[id];
        let next = react(replica, input).state;
        let at = acts_in(replica, input);
        let record = self.record;
        let later = after.record;
        assert(record.fits(self.ids, id, replica));
        self.lemma_recorded(id, input);
        term_never_goes_back(replica, input);
        record.lemma_wf_grows(later, self.ids, id, at);
        assert forall|other: ReplicaID| #[trigger] after.ids.contains(other) implies later.fits(
            after.ids,
            other,
            after.replicas[other],
        ) by {
            if other != id {
                assert(record.fits(self.ids, other, self.replicas[other]));
                if later.grants.contains_key((id, at)) && !record.grants.contains_key((id, at)) {
                    assert(casts_vote(replica, input));
                    self.lemma_vote_is_for_complete_log(id, input);
                }
                record.lemma_fits_grows(later, self.ids, id, at, other, self.replicas[other]);
            }
        }
        assert forall|to: ReplicaID, message: MessageView<T>| #[trigger]
            after.sent.contains((to, message)) implies later.message_fits(
            after.ids,
            after.replicas,
            to,
            message,
        ) by {
            if self.sent.contains((to, message)) {
                self.lemma_sent_still_fits(id, input, to, message);
            } else {
                self.lemma_sent_fits(id, input, to, message);
            }
        }
    }
}

impl<T> World<T> {
    /// What holds of a cluster at all times is kept when a replica starts again.
    pub proof fn restart_keeps_sound(
        self,
        id: ReplicaID,
        stored: Stored<T>,
        heartbeat_timeout: u128,
        election_timeout: (u128, u128),
        now: u128,
    )
        requires
            self.sound(),
            self.can_restart(id, stored),
        ensures
            self.restarted(id, stored, heartbeat_timeout, election_timeout, now).sound(),
    {
        let after = self.restarted(id, stored, heartbeat_timeout, election_timeout, now);
        let record = self.record;
        assert(record.fits(self.ids, id, self.replicas[id]));
        assert(after.replicas[id].log =~= self.replicas[id].log);
        record.lemma_restart_fits(self.ids, id, self.replicas[id], after.replicas[id]);
        assert forall|other: ReplicaID| #[trigger] after.ids.contains(other) implies record.fits(
            after.ids,
            other,
            after.replicas[other],
        ) by {
            assert(other != id ==> record.fits(self.ids, other, self.replicas[other]));
        }
        assert forall|to: ReplicaID, message: MessageView<T>| #[trigger]
            after.sent.contains((to, message)) implies record.message_fits(
            after.ids,
            after.replicas,
            to,
            message,
        ) by {
            assert(self.sent.contains((to, message)));
            assert(record.message_fits(self.ids, self.replicas, to, message));
        }
    }
}

} // verus!
