//! Laws about requests for votes and their answers, effect by effect.

use crate::effect::EffectView;
use crate::message::MessageView;
use crate::model::{ReplicaView, State};
use crate::ReplicaID;
use vstd::prelude::*;

verus! {

/// A request for a vote in the replica's own term is answered once, in that term. It is
/// granted if the replica has voted for nobody else and neither index nor term of its
/// last entry is above what the candidate names; the vote is then kept and stored, and
/// no leader is known. All else stays.
pub proof fn request_in_own_term_is_answered<T>(
    replica: ReplicaView<T>,
    from_id: ReplicaID,
    last_log_index: usize,
    last_log_term: usize,
)
    requires
        replica.log.len() > 0,
    ensures
        ({
            let outcome = replica.vote_request_as_follower(
                from_id,
                replica.current_term,
                last_log_index,
                last_log_term,
            );
            let last = replica.log[replica.log.len() - 1];
            if (replica.voted_for is None || replica.voted_for == Some(from_id)) && last.index
                <= last_log_index && last.term <= last_log_term {
                &&& outcome.state == (ReplicaView { voted_for: Some(from_id), ..replica })
                &&& outcome.effects == seq![
                    EffectView::<T>::RegisterLeader { leader_id: None },
                    EffectView::<T>::SendMessage {
                        to_id: from_id,
                        message: MessageView::VoteResponse {
                            from_id: replica.id,
                            term: replica.current_term,
                            vote_granted: true,
                        },
                    },
                    EffectView::<T>::StoreVote { vote: Some(from_id) },
                ]
            } else {
                &&& outcome.state == replica
                &&& outcome.effects == seq![
                    EffectView::<T>::SendMessage {
                        to_id: from_id,
                        message: MessageView::VoteResponse {
                            from_id: replica.id,
                            term: replica.current_term,
                            vote_granted: false,
                        },
                    },
                ]
            }
        }),
{
}

/// A request for a vote in a later term makes the replica a follower in that term, with
/// no vote cast, which it stores; then it is answered as one in the replica's own term.
pub proof fn request_in_later_term_is_answered_there<T>(
    replica: ReplicaView<T>,
    from_id: ReplicaID,
    term: usize,
    last_log_index: usize,
    last_log_term: usize,
)
    requires
        replica.current_term < term,
    ensures
        ({
            let there = ReplicaView {
                current_term: term,
                state: State::Follower,
                current_votes: None,
                voted_for: None,
                next_index: Map::empty(),
                match_index: Map::empty(),
                ..replica
            };
            let answered = there.vote_request_as_follower(
                from_id,
                term,
                last_log_index,
                last_log_term,
            );
            let outcome = replica.vote_request_as_follower(
                from_id,
                term,
                last_log_index,
                last_log_term,
            );
            &&& outcome.state == answered.state
            &&& outcome.effects == seq![
                EffectView::<T>::RegisterLeader { leader_id: None },
                EffectView::<T>::StoreTerm { term },
                EffectView::<T>::StoreVote { vote: None },
            ] + answered.effects
        }),
{
    assert(replica.step_down(term).effects =~= seq![
        EffectView::<T>::RegisterLeader { leader_id: None },
        EffectView::<T>::StoreTerm { term },
        EffectView::<T>::StoreVote { vote: None },
    ]);
}

/// An answer of a later term makes a replica that asked for votes a follower in that
/// term. A refusal changes nothing. A vote is counted once, whoever gave it before: with
/// the votes of more than half of the cluster, the replica counted, it comes to lead;
/// otherwise nothing but the count changes.
pub proof fn vote_response_is_counted<T>(
    replica: ReplicaView<T>,
    from_id: ReplicaID,
    term: usize,
    vote_granted: bool,
)
    ensures
        ({
            let outcome = replica.vote_response_as_candidate(from_id, term, vote_granted);
            if term > replica.current_term {
                &&& outcome.state == (ReplicaView {
                    current_term: term,
                    state: State::Follower,
                    current_votes: None,
                    voted_for: None,
                    next_index: Map::empty(),
                    match_index: Map::empty(),
                    ..replica
                })
                &&& outcome.effects == seq![
                    EffectView::<T>::RegisterLeader { leader_id: None },
                    EffectView::<T>::StoreTerm { term },
                    EffectView::<T>::StoreVote { vote: None },
                ]
            } else if vote_granted && replica.current_votes is Some {
                let votes = replica.current_votes->0.insert(from_id);
                if votes.len() * 2 > replica.peer_ids.len() + 1 {
                    outcome == replica.become_leader()
                } else {
                    &&& outcome.state == (ReplicaView { current_votes: Some(votes), ..replica })
                    &&& outcome.effects.len() == 0
                }
            } else {
                &&& outcome.state == replica
                &&& outcome.effects.len() == 0
            }
        }),
{
    assert(replica.step_down(term).effects =~= seq![
        EffectView::<T>::RegisterLeader { leader_id: None },
        EffectView::<T>::StoreTerm { term },
        EffectView::<T>::StoreVote { vote: None },
    ]);
}

} // verus!
