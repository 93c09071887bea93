//! What happens to a replica of a cluster is recorded, and the replica fits the record.

use crate::laws::events::{every_event_keeps_wf, log_stays_numbered, react, Input};
use crate::laws::fitting::no_further;
use crate::laws::record::{majority, Record};
use crate::laws::steps::lemma_cluster_size;
use crate::laws::world::{acknowledges, acts_in, casts_vote, moved, World};
use crate::message::MessageView;
use crate::model::ReplicaView;
use crate::ReplicaID;
use vstd::prelude::*;

verus! {

impl<T> Record<T> {
    /// The vote that makes a candidate win is recorded as it should be.
    proof fn lemma_win_recorded(
        self,
        ids: Set<ReplicaID>,
        id: ReplicaID,
        replica: ReplicaView<T>,
        from_id: ReplicaID,
        term: usize,
    )
        requires
            ids.finite(),
            self.wf(ids),
            self.fits(ids, id, replica),
            replica.state is Candidate,
            term <= replica.current_term,
            replica.wins_with(replica.current_votes->0.insert(from_id)),
            replica.become_leader().state.log.len() < usize::MAX,
            forall|voter: ReplicaID| #[trigger]
                replica.current_votes->0.insert(from_id).contains(voter) ==> self.counts(
                    ids,
                    replica,
                    voter,
                ),
        ensures
            ({
                let input = Input::Message(
                    MessageView::VoteResponse { from_id, term, vote_granted: true },
                );
                let next = react(replica, input).state;
                let later = self.after(id, replica, input);
                &&& self.grows_into(later, id, replica.current_term)
                &&& self.new_wf(later, ids, id, replica.current_term)
                &&& later.fits(ids, id, next)
                &&& next.current_term == replica.current_term
                &&& no_further(replica.log, next.log)
            }),
    {
        let input = Input::Message(
            MessageView::<T>::VoteResponse { from_id, term, vote_granted: true },
        );
        let votes = replica.current_votes->0.insert(from_id);
        let next = react(replica, input).state;
        assert(react(replica, input) == replica.become_leader());
        every_event_keeps_wf(replica, input);
        lemma_cluster_size(ids, id, replica);
        assert(majority(ids, votes)) by {
            assert forall|voter: ReplicaID| #[trigger] votes.contains(voter) implies ids.contains(
                voter,
            ) by {
                assert(self.counts(ids, replica, voter));
            }
        }
        let later = self.after(id, replica, input);
        assert(later == Record {
            leaders: self.leaders.insert(replica.current_term, id),
            voters: self.voters.insert(replica.current_term, votes),
            logs: self.logs.insert(replica.current_term, next.log),
            ..self
        });
        self.lemma_elect_fits(later, ids, id, replica, votes);
    }
}

impl<T> World<T> {
    /// Whether the record of what happens to a replica is as it should be, and the
    /// replica fits it.
    pub open spec fn recorded(self, id: ReplicaID, input: Input<T>) -> bool {
        let next = react(self.replicas[id], input).state;
        let later = self.record.after(id, self.replicas[id], input);
        let term = acts_in(self.replicas[id], input);
        &&& self.record.grows_into(later, id, term)
        &&& self.record.new_wf(later, self.ids, id, term)
        &&& later.fits(self.ids, id, next)
        &&& no_further(self.replicas[id].log, next.log)
        &&& self.replicas[id].commit_index <= next.commit_index
    }

    /// What leaves the record as it is is recorded if the replica fits it.
    proof fn lemma_recorded_as_is(self, id: ReplicaID, input: Input<T>)
        requires
            self.sound(),
            self.can_happen(id, input),
            self.record.fits(self.ids, id, react(self.replicas[id], input).state),
            react(self.replicas[id], input).state.log == self.replicas[id].log,
            !casts_vote(self.replicas[id], input),
            !acknowledges(self.replicas[id], input),
            react(self.replicas[id], input).state.state is Leader ==> self.replicas[id].state
                is Leader,
        ensures
            self.recorded(id, input),
    {
        let replica = self.replicas[id];
        let next = react(replica, input).state;
        let term = next.current_term;
        if next.state is Leader {
            assert(self.record.logs[term] == next.log);
            assert(self.record.logs.contains_key(term));
            assert(self.record.logs.insert(term, next.log) =~= self.record.logs);
        }
        assert(self.record.after(id, replica, input) == self.record);
        self.record.lemma_stays(self.ids, id, term);
    }

    /// A replica fits that changes what it knows of its peers, or its timer.
    proof fn lemma_tracking_fits(self, id: ReplicaID, next: ReplicaView<T>)
        requires
            self.sound(),
            self.ids.contains(id),
            next == (ReplicaView {
                next_index: next.next_index,
                match_index: next.match_index,
                heartbeat_timer: next.heartbeat_timer,
                ..self.replicas[id]
            }),
            next.wf(),
            next.state is Leader,
            forall|peer_id: ReplicaID| #[trigger]
                next.match_index.contains_key(peer_id) ==> self.ids.contains(peer_id) && peer_id
                    != id && (next.match_index[peer_id] == 0 || self.record.acks.contains(
                    (peer_id, next.current_term, next.match_index[peer_id]),
                )),
        ensures
            self.record.fits(self.ids, id, next),
    {
        let replica = self.replicas[id];
        let record = self.record;
        assert(record.fits(self.ids, id, replica));
        assert(record.candidacy_fits(self.ids, id, next)) by {
            assert forall|voter: ReplicaID, t: usize| #[trigger]
                record.grants.contains_key((voter, t)) && record.grants[(voter, t)]
                    == id implies record.vote_fits(voter, t, next) by {
                assert(record.vote_fits(voter, t, replica));
            }
        }
        assert(record.acks_fit(id, next));
    }

    proof fn lemma_transitions_recorded(self, id: ReplicaID, input: Input<T>)
        requires
            self.sound(),
            self.can_happen(id, input),
            input is Transitions,
        ensures
            self.recorded(id, input),
    {
        let replica = self.replicas[id];
        let next = react(replica, input).state;
        assert(self.record.fits(self.ids, id, replica));
        if replica.state is Leader {
            if let Input::Transitions(transitions) = input {
                assert(next.log.len() == replica.log.len() + transitions.len());
                assert(next.log.take(replica.log.len() as int) =~= replica.log);
            }
            log_stays_numbered(replica, input);
            self.record.lemma_append_fits(
                self.record.after(id, replica, input),
                self.ids,
                id,
                replica,
                next,
            );
        } else {
            self.lemma_recorded_as_is(id, input);
        }
    }

    proof fn lemma_election_recorded(self, id: ReplicaID, input: Input<T>)
        requires
            self.sound(),
            self.can_happen(id, input),
            input is Election,
        ensures
            self.recorded(id, input),
    {
        let replica = self.replicas[id];
        assert(self.record.fits(self.ids, id, replica));
        let started = replica.start_election().state;
        self.record.lemma_start_election_fits(self.ids, id, replica);
        lemma_cluster_size(self.ids, id, replica);
        if replica.peer_ids.len() == 0 {
            every_event_keeps_wf(replica, input);
            let votes = set![id];
            assert(majority(self.ids, votes));
            assert(self.record.counts(self.ids, started, id));
            self.record.lemma_elect_fits(
                self.record.after(id, replica, input),
                self.ids,
                id,
                started,
                votes,
            );
        } else {
            self.lemma_recorded_as_is(id, input);
        }
    }

    proof fn lemma_vote_request_recorded(self, id: ReplicaID, input: Input<T>)
        requires
            self.sound(),
            self.can_happen(id, input),
            input matches Input::Message(message) && message is VoteRequest,
        ensures
            self.recorded(id, input),
    {
        let replica = self.replicas[id];
        assert(self.record.fits(self.ids, id, replica));
        if let Input::Message(MessageView::VoteRequest {
            from_id,
            term,
            last_log_index,
            last_log_term,
        }) = input {
            let message = input->Message_0;
            assert(self.sent.contains((id, message)));
            assert(self.record.message_fits(self.ids, self.replicas, id, message));
            if replica.current_term < term {
                self.record.lemma_step_down_fits(self.ids, id, replica, term);
            }
            if casts_vote(replica, input) {
                let base = moved(replica, term);
                self.record.lemma_vote_fits(
                    self.record.after(id, replica, input),
                    self.ids,
                    id,
                    base,
                    from_id,
                    last_log_index,
                    last_log_term,
                );
            } else {
                self.lemma_recorded_as_is(id, input);
            }
        }
    }

    /// A candidate counts what may be counted.
    proof fn lemma_counted_votes(self, id: ReplicaID, from_id: ReplicaID, term: usize)
        requires
            self.sound(),
            ({
                let input = Input::Message(
                    MessageView::VoteResponse { from_id, term, vote_granted: true },
                );
                self.can_happen(id, input)
            }),
            self.replicas[id].state is Candidate,
            term <= self.replicas[id].current_term,
        ensures
            forall|voter: ReplicaID| #[trigger]
                self.replicas[id].current_votes->0.insert(from_id).contains(voter)
                    ==> self.record.counts(self.ids, self.replicas[id], voter),
    {
        let replica = self.replicas[id];
        let record = self.record;
        let message = MessageView::VoteResponse { from_id, term, vote_granted: true };
        assert(record.fits(self.ids, id, replica));
        assert(self.sent.contains((id, message)));
        assert(record.message_fits(self.ids, self.replicas, id, message));
        assert forall|voter: ReplicaID| #[trigger]
            replica.current_votes->0.insert(from_id).contains(voter) implies record.counts(
            self.ids,
            replica,
            voter,
        ) by {
            if voter != from_id {
                assert(replica.current_votes->0.contains(voter));
            }
            if voter != id {
                assert(record.grants.contains_key((voter, replica.current_term)));
                assert(record.grant_wf(self.ids, voter, replica.current_term));
            }
        }
    }

    proof fn lemma_vote_response_recorded(self, id: ReplicaID, input: Input<T>)
        requires
            self.sound(),
            self.can_happen(id, input),
            input matches Input::Message(message) && message is VoteResponse,
        ensures
            self.recorded(id, input),
    {
        let replica = self.replicas[id];
        let next = react(replica, input).state;
        assert(self.record.fits(self.ids, id, replica));
        if let Input::Message(MessageView::VoteResponse { from_id, term, vote_granted }) = input {
            if !(replica.state is Candidate) || term <= replica.current_term && !vote_granted {
                assert(next == replica);
                self.lemma_recorded_as_is(id, input);
            } else if term > replica.current_term {
                self.record.lemma_step_down_fits(self.ids, id, replica, term);
                self.lemma_recorded_as_is(id, input);
            } else if replica.wins_with(replica.current_votes->0.insert(from_id)) {
                self.lemma_counted_votes(id, from_id, term);
                self.record.lemma_win_recorded(self.ids, id, replica, from_id, term);
            } else {
                self.lemma_counted_votes(id, from_id, term);
                every_event_keeps_wf(replica, input);
                self.record.lemma_count_fits(self.ids, id, replica, next);
                self.lemma_recorded_as_is(id, input);
            }
        }
    }

    proof fn lemma_append_request_recorded(self, id: ReplicaID, input: Input<T>)
        requires
            self.sound(),
            self.can_happen(id, input),
            input matches Input::Message(message) && message is AppendEntryRequest,
        ensures
            self.recorded(id, input),
    {
        let replica = self.replicas[id];
        let record = self.record;
        assert(record.fits(self.ids, id, replica));
        let next = react(replica, input).state;
        if let Input::Message(MessageView::AppendEntryRequest {
            term,
            prev_log_index,
            prev_log_term,
            ..
        }) = input {
            let message = input->Message_0;
            assert(self.sent.contains((id, message)));
            assert(record.message_fits(self.ids, self.replicas, id, message));
            let base = if replica.state is Candidate && replica.current_term <= term {
                replica.step_down(term).state
            } else {
                replica
            };
            if replica.state is Candidate && replica.current_term <= term {
                record.lemma_step_down_fits(self.ids, id, replica, term);
            }
            if acknowledges(replica, input) {
                every_event_keeps_wf(replica, input);
                assert(record.message_fits(self.ids, map![], id, message));
                assert(base.message(message).state == next);
                record.lemma_accept_fits(
                    record.after(id, replica, input),
                    self.ids,
                    id,
                    base,
                    message,
                );
            } else {
                assert(next == base);
                self.lemma_recorded_as_is(id, input);
            }
        }
    }

    proof fn lemma_append_response_recorded(self, id: ReplicaID, input: Input<T>)
        requires
            self.sound(),
            self.can_happen(id, input),
            input matches Input::Message(message) && message is AppendEntryResponse,
        ensures
            self.recorded(id, input),
    {
        let replica = self.replicas[id];
        let record = self.record;
        assert(record.fits(self.ids, id, replica));
        let next = react(replica, input).state;
        if let Input::Message(MessageView::AppendEntryResponse {
            from_id,
            term,
            success,
            last_index,
            ..
        }) = input {
            let message = input->Message_0;
            assert(self.sent.contains((id, message)));
            assert(record.message_fits(self.ids, self.replicas, id, message));
            if !(replica.state is Leader) {
                assert(next == replica);
            } else if term > replica.current_term {
                record.lemma_step_down_fits(self.ids, id, replica, term);
            } else {
                every_event_keeps_wf(replica, input);
                assert forall|peer_id: ReplicaID| #[trigger]
                    next.match_index.contains_key(peer_id) implies self.ids.contains(peer_id)
                    && peer_id != id && (next.match_index[peer_id] == 0 || record.acks.contains(
                    (peer_id, next.current_term, next.match_index[peer_id]),
                )) by {
                    if success && peer_id == from_id {
                    } else {
                        assert(replica.match_index.contains_key(peer_id));
                    }
                }
                self.lemma_tracking_fits(id, next);
            }
            self.lemma_recorded_as_is(id, input);
        }
    }

    /// Whatever happens is recorded as it should be.
    pub(crate) proof fn lemma_recorded(self, id: ReplicaID, input: Input<T>)
        requires
            self.sound(),
            self.can_happen(id, input),
        ensures
            self.recorded(id, input),
    {
        let replica = self.replicas[id];
        assert(self.record.fits(self.ids, id, replica));
        match input {
            Input::Message(message) => match message {
                MessageView::VoteRequest { .. } => self.lemma_vote_request_recorded(id, input),
                MessageView::VoteResponse { .. } => self.lemma_vote_response_recorded(id, input),
                MessageView::AppendEntryRequest { .. } => self.lemma_append_request_recorded(
                    id,
                    input,
                ),
                MessageView::AppendEntryResponse { .. } => self.lemma_append_response_recorded(
                    id,
                    input,
                ),
            },
            Input::Election => self.lemma_election_recorded(id, input),
            Input::Transitions(_) => self.lemma_transitions_recorded(id, input),
            Input::Commit(commit_index) => {
                self.record.lemma_commit_fits(self.ids, id, replica, commit_index);
                self.lemma_recorded_as_is(id, input);
            },
            Input::Broadcast => {
                self.lemma_recorded_as_is(id, input);
            },
            Input::PutOff(_) => {
                self.record.lemma_put_off_fits(
                    self.ids,
                    id,
                    replica,
                    react(replica, input).state,
                );
                self.lemma_recorded_as_is(id, input);
            },
            Input::Heartbeat(_) => {
                self.lemma_tracking_fits(id, react(replica, input).state);
                self.lemma_recorded_as_is(id, input);
            },
        }
    }
}

} // verus!
