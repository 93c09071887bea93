//! A cluster of replicas that send each other messages.

use crate::effect::EffectView;
use crate::laws::consistency::cut_from;
use crate::laws::events::{possible, react, Input};
use crate::laws::fitting::member;
use crate::laws::record::Record;
use crate::laws::storage::{found_in, storage_of, StorageView};
use crate::message::MessageView;
use crate::model::{ReplicaView, Stored};
use crate::ReplicaID;
use vstd::prelude::*;

verus! {

/// A cluster: its replicas and their storages, every message that was ever sent and
/// to whom, and a record of what has happened, which nothing depends on.
#[verifier::reject_recursive_types(T)]
pub struct World<T> {
    pub ids: Set<ReplicaID>,
    pub replicas: Map<ReplicaID, ReplicaView<T>>,
    pub storages: Map<ReplicaID, StorageView<T>>,
    pub sent: Set<(ReplicaID, MessageView<T>)>,
    pub record: Record<T>,
}

/// Whether an effect sends a message to a replica.
pub open spec fn sends_to<T>(
    effect: EffectView<T>,
    to: ReplicaID,
    message: MessageView<T>,
) -> bool {
    effect == (EffectView::SendMessage { to_id: to, message })
}

/// What effects send, and to whom.
pub open spec fn sent_by<T>(effects: Seq<EffectView<T>>) -> Set<(ReplicaID, MessageView<T>)> {
    Set::new(
        |mail: (ReplicaID, MessageView<T>)|
            exists|i: int|
                0 <= i < effects.len() && sends_to(#[trigger] effects[i], mail.0, mail.1),
    )
}

/// The replica as it decides on a request: moved to the term of the request where
/// it moves there first.
pub open spec fn moved<T>(replica: ReplicaView<T>, term: usize) -> ReplicaView<T> {
    if replica.current_term < term || replica.state is Candidate {
        replica.step_down(term).state
    } else {
        replica
    }
}

/// Whether a replica answers a request with its vote.
pub open spec fn casts_vote<T>(replica: ReplicaView<T>, input: Input<T>) -> bool {
    input matches Input::Message(MessageView::VoteRequest {
        from_id,
        term,
        last_log_index,
        last_log_term,
    }) && {
        &&& replica.state is Follower && term >= replica.current_term || replica.state
            is Candidate && term > replica.current_term
        &&& moved(replica, term).may_vote_for(from_id, last_log_index, last_log_term)
    }
}

/// Whether a replica acknowledges a request to append.
pub open spec fn acknowledges<T>(replica: ReplicaView<T>, input: Input<T>) -> bool {
    input matches Input::Message(MessageView::AppendEntryRequest {
        term,
        prev_log_index,
        prev_log_term,
        ..
    }) && {
        &&& !(replica.state is Leader)
        &&& replica.current_term <= term
        &&& replica.holds(prev_log_index, prev_log_term)
    }
}

/// The term in which a replica acts: that of the leader whose request it
/// acknowledges, and else its own.
pub open spec fn acts_in<T>(replica: ReplicaView<T>, input: Input<T>) -> usize {
    if acknowledges(replica, input) {
        input->Message_0->AppendEntryRequest_term
    } else {
        react(replica, input).state.current_term
    }
}

/// The votes by which an input makes a leader.
pub open spec fn winning_votes<T>(replica: ReplicaView<T>, input: Input<T>) -> Set<ReplicaID> {
    match input {
        Input::Message(MessageView::VoteResponse { from_id, .. }) =>
            replica.current_votes->0.insert(from_id),
        _ => set![replica.id],
    }
}

impl<T> Record<T> {
    /// Whether a replica has led in a term.
    pub open spec fn led(self, id: ReplicaID, term: usize) -> bool {
        self.leaders.contains_key(term) && self.leaders[term] == id
    }

    /// Whether a message comes to a replica in time. A candidate must not count a
    /// vote that was cast in an earlier term. A leader must not count what was
    /// acknowledged to it in an earlier term. What an earlier leader than
    /// that of its last entry asks it to append a replica must not append. And it
    /// must not vote in a term that it has led, as it could after a restart.
    pub open spec fn in_time(self, replica: ReplicaView<T>, message: MessageView<T>) -> bool {
        let own_term = replica.current_term;
        match message {
            MessageView::VoteRequest { .. } => casts_vote(replica, Input::Message(message))
                ==> !self.led(replica.id, acts_in(replica, Input::Message(message))),
            MessageView::VoteResponse { from_id, term, vote_granted } => replica.state is Candidate
                && vote_granted && term < own_term ==> self.grants.contains_key((from_id, own_term))
                && self.grants[(from_id, own_term)] == replica.id,
            MessageView::AppendEntryRequest { term, .. } => acknowledges(
                replica,
                Input::Message(message),
            ) ==> replica.log.last().term <= term,
            MessageView::AppendEntryResponse { from_id, term, success, last_index, .. } =>
                replica.state is Leader && success && term < own_term ==> self.acks.contains(
                (from_id, own_term, last_index),
            ),
        }
    }

    /// The record after something has happened to a replica.
    pub open spec fn after(self, id: ReplicaID, replica: ReplicaView<T>, input: Input<T>) -> Record<
        T,
    > {
        let next = react(replica, input).state;
        let term = next.current_term;
        let elected = next.state is Leader && !(replica.state is Leader);
        let votes = casts_vote(replica, input) && !self.grants.contains_key((id, term));
        Record {
            leaders: if elected {
                self.leaders.insert(term, id)
            } else {
                self.leaders
            },
            voters: if elected {
                self.voters.insert(term, winning_votes(replica, input))
            } else {
                self.voters
            },
            logs: if next.state is Leader {
                self.logs.insert(term, next.log)
            } else {
                self.logs
            },
            grants: if votes {
                self.grants.insert((id, term), next.voted_for->0)
            } else {
                self.grants
            },
            grant_logs: if votes && !self.logs.contains_key(term) {
                self.grant_logs.insert((id, term), next.log)
            } else {
                self.grant_logs
            },
            acks: if acknowledges(replica, input) {
                self.acks.insert((id, acts_in(replica, input), next.last_index()))
            } else {
                self.acks
            },
        }
    }

    /// A request for a vote names a term that the candidate has reached, and an end
    /// of the log that the candidate's log has not fallen behind since.
    pub open spec fn vote_request_fits(
        self,
        replica: ReplicaView<T>,
        term: usize,
        last_log_index: usize,
        last_log_term: usize,
    ) -> bool {
        &&& 0 < term <= replica.current_term
        &&& last_log_term < replica.log.last().term || last_log_term == replica.log.last().term
            && last_log_index < replica.log.len()
    }

    /// What holds of every message that was sent.
    pub open spec fn message_fits(
        self,
        ids: Set<ReplicaID>,
        replicas: Map<ReplicaID, ReplicaView<T>>,
        to: ReplicaID,
        message: MessageView<T>,
    ) -> bool {
        match message {
            MessageView::VoteRequest { from_id, term, last_log_index, last_log_term } => {
                &&& ids.contains(from_id)
                &&& ids.contains(to)
                &&& from_id != to
                &&& self.vote_request_fits(
                    replicas[from_id],
                    term,
                    last_log_index,
                    last_log_term,
                )
            },
            MessageView::VoteResponse { from_id, term, vote_granted } => {
                &&& ids.contains(from_id)
                &&& from_id != to
                &&& vote_granted ==> self.grants.contains_key((from_id, term)) && self.grants[(
                    from_id,
                    term,
                )] == to
            },
            MessageView::AppendEntryRequest {
                from_id,
                term,
                prev_log_index,
                entries,
                commit_index,
                ..
            } => {
                &&& ids.contains(to)
                &&& from_id != to
                &&& self.leaders.contains_key(term)
                &&& self.leaders[term] == from_id
                &&& cut_from(message, self.logs[term])
                &&& self.logs[term][prev_log_index + entries.len()].term == term
                &&& self.safe(ids, self.logs[term], commit_index, term)
            },
            MessageView::AppendEntryResponse { from_id, term, success, last_index, .. } => {
                &&& ids.contains(from_id)
                &&& from_id != to
                &&& success ==> exists|led: usize|
                    term <= led && self.leaders.contains_key(led) && self.leaders[led] == to
                        && #[trigger] self.acks.contains((from_id, led, last_index))
            },
        }
    }
}

impl<T> World<T> {
    /// Whether something can happen to a replica: a message must have been sent
    /// to it, and must come in time.
    pub open spec fn can_happen(self, id: ReplicaID, input: Input<T>) -> bool {
        &&& self.ids.contains(id)
        &&& possible(self.replicas[id], input)
        &&& react(self.replicas[id], input).state.log.len() < usize::MAX
        &&& input matches Input::Message(message) ==> {
            &&& self.sent.contains((id, message))
            &&& self.record.in_time(self.replicas[id], message)
        }
    }

    /// The cluster after something has happened to a replica.
    pub open spec fn after(self, id: ReplicaID, input: Input<T>) -> World<T> {
        let replica = self.replicas[id];
        let outcome = react(replica, input);
        World {
            ids: self.ids,
            replicas: self.replicas.insert(id, outcome.state),
            storages: self.storages.insert(id, self.storages[id].store_all(outcome.effects)),
            sent: self.sent.union(sent_by(outcome.effects)),
            record: self.record.after(id, replica, input),
        }
    }

    /// What holds of a cluster at all times.
    pub open spec fn sound(self) -> bool {
        &&& self.ids.finite()
        &&& self.record.wf(self.ids)
        &&& forall|id: ReplicaID| #[trigger]
            self.ids.contains(id) ==> self.record.fits(self.ids, id, self.replicas[id])
        &&& forall|to: ReplicaID, message: MessageView<T>| #[trigger]
            self.sent.contains((to, message)) ==> self.record.message_fits(
                self.ids,
                self.replicas,
                to,
                message,
            )
    }
}

/// What can happen in a cluster.
pub enum Happening<T> {
    /// Something happens to a replica.
    Event { id: ReplicaID, input: Input<T> },
    /// A replica starts again on what its storage holds.
    Restart {
        id: ReplicaID,
        stored: Stored<T>,
        heartbeat_timeout: u128,
        election_timeout: (u128, u128),
        now: u128,
    },
}

impl<T> World<T> {
    /// The cluster after a replica has started again.
    pub open spec fn restarted(
        self,
        id: ReplicaID,
        stored: Stored<T>,
        heartbeat_timeout: u128,
        election_timeout: (u128, u128),
        now: u128,
    ) -> World<T> {
        let replica = self.replicas[id];
        let started = ReplicaView::start(
            id,
            replica.peer_ids,
            replica.noop_transition,
            heartbeat_timeout,
            election_timeout,
            stored,
            now,
        );
        World {
            replicas: self.replicas.insert(id, started.state),
            storages: self.storages.insert(id, self.storages[id].store_all(started.effects)),
            ..self
        }
    }

    /// Whether a replica can start again: its storage must hold what the replica
    /// leaves. It does, unless the replica has started again before on a storage
    /// with the first entry of its log alone, which then holds that entry twice.
    pub open spec fn can_restart(self, id: ReplicaID, stored: Stored<T>) -> bool {
        &&& self.ids.contains(id)
        &&& self.storages[id] == storage_of(self.replicas[id])
        &&& found_in(stored, self.storages[id])
    }

    /// Whether something can happen in the cluster.
    pub open spec fn admits(self, happening: Happening<T>) -> bool {
        match happening {
            Happening::Event { id, input } => self.can_happen(id, input),
            Happening::Restart { id, stored, .. } => self.can_restart(id, stored),
        }
    }

    /// The cluster after something has happened in it.
    pub open spec fn follow(self, happening: Happening<T>) -> World<T> {
        match happening {
            Happening::Event { id, input } => self.after(id, input),
            Happening::Restart { id, stored, heartbeat_timeout, election_timeout, now } =>
                self.restarted(id, stored, heartbeat_timeout, election_timeout, now),
        }
    }

    /// The cluster after things have happened one after the other.
    pub open spec fn after_all(self, happenings: Seq<Happening<T>>) -> World<T>
        decreases happenings.len(),
    {
        if happenings.len() == 0 {
            self
        } else {
            self.after_all(happenings.drop_last()).follow(happenings.last())
        }
    }

    /// Whether things can happen one after the other.
    pub open spec fn can_all_happen(self, happenings: Seq<Happening<T>>) -> bool
        decreases happenings.len(),
    {
        happenings.len() > 0 ==> {
            &&& self.can_all_happen(happenings.drop_last())
            &&& self.after_all(happenings.drop_last()).admits(happenings.last())
        }
    }

    /// Whether a cluster is new: it has replicas, they all follow, with the same new log, stored,
    /// and nothing committed, no message has been sent and nothing recorded.
    pub open spec fn is_new(self) -> bool {
        &&& self.ids.finite()
        &&& 0 < self.ids.len()
        &&& self.record.logs.dom() == set![0usize]
        &&& self.record.leaders == Map::<usize, ReplicaID>::empty()
        &&& self.record.voters == Map::<usize, Set<ReplicaID>>::empty()
        &&& self.record.grants == Map::<(ReplicaID, usize), ReplicaID>::empty()
        &&& self.record.grant_logs.dom() == Set::<(ReplicaID, usize)>::empty()
        &&& self.record.acks == Set::<(ReplicaID, usize, usize)>::empty()
        &&& self.sent == Set::<(ReplicaID, MessageView<T>)>::empty()
        &&& forall|id: ReplicaID| #[trigger]
            self.ids.contains(id) ==> {
                let replica = self.replicas[id];
                &&& member(self.ids, id, replica)
                &&& replica.state is Follower
                &&& replica.log == self.record.logs[0]
                &&& replica.log == seq![ReplicaView::first_entry(replica.noop_transition)]
                &&& replica.commit_index == 0
                &&& replica.last_applied == 0
                &&& self.storages[id] == storage_of(replica)
            }
    }
}

} // verus!
