//! Laws about taking a part: how a replica starts, follows, stands for election and
//! leads, field by field and effect by effect.

use crate::effect::EffectView;
use crate::message::MessageView;
use crate::model::{ReplicaView, State, Stored};
use crate::ReplicaID;
use std::sync::Arc;
use vstd::prelude::*;

verus! {

/// A replica starts as a follower with the stored term and vote, nothing committed or
/// applied, nobody kept track of, an election due at once and a heartbeat after its
/// timeout. A stored log is taken over and nothing is done to the storage; a new log
/// has one entry, the first, without effect and in term zero, which is stored.
pub proof fn start_takes_what_is_stored<T>(
    id: ReplicaID,
    peer_ids: Seq<ReplicaID>,
    noop_transition: Arc<T>,
    heartbeat_timeout: u128,
    election_timeout: (u128, u128),
    stored: Stored<T>,
    now: u128,
)
    ensures
        ({
            let outcome = ReplicaView::start(
                id,
                peer_ids,
                noop_transition,
                heartbeat_timeout,
                election_timeout,
                stored,
                now,
            );
            let replica = outcome.state;
            &&& replica.id == id
            &&& replica.peer_ids == peer_ids
            &&& replica.noop_transition == noop_transition
            &&& replica.current_term == stored.term
            &&& replica.voted_for == stored.vote
            &&& replica.state == State::Follower
            &&& replica.current_votes is None
            &&& replica.commit_index == 0
            &&& replica.last_applied == 0
            &&& replica.next_index == Map::<ReplicaID, usize>::empty()
            &&& replica.match_index == Map::<ReplicaID, usize>::empty()
            &&& replica.election_timeout == election_timeout
            &&& replica.next_election_deadline == now
            &&& replica.heartbeat_timer.timeout == heartbeat_timeout
            &&& now + heartbeat_timeout <= u128::MAX ==> replica.heartbeat_timer.deadline == now
                + heartbeat_timeout
            &&& stored.last_index != 0 ==> {
                &&& replica.log == stored.entries@
                &&& outcome.effects.len() == 0
            }
            &&& stored.last_index == 0 ==> {
                &&& replica.log.len() == 1
                &&& replica.log[0].index == 0
                &&& replica.log[0].term == 0
                &&& replica.log[0].transition == noop_transition
                &&& outcome.effects.len() == 1
                &&& outcome.effects[0] == (EffectView::PushEntry { entry: replica.log[0] })
            }
        }),
{
}

/// A replica that becomes a follower is in the term it follows in, with no vote cast or
/// counted and nobody kept track of; term and vote are stored. All else stays.
pub proof fn follower_starts_without_vote<T>(replica: ReplicaView<T>, term: usize)
    ensures
        replica.become_follower(term).state == (ReplicaView {
            current_term: term,
            state: State::Follower,
            current_votes: None,
            voted_for: None,
            next_index: Map::empty(),
            match_index: Map::empty(),
            ..replica
        }),
        replica.become_follower(term).effects == seq![
            EffectView::<T>::StoreTerm { term },
            EffectView::<T>::StoreVote { vote: None },
        ],
        replica.step_down(term).state == replica.become_follower(term).state,
        replica.step_down(term).effects == seq![
            EffectView::<T>::RegisterLeader { leader_id: None },
            EffectView::<T>::StoreTerm { term },
            EffectView::<T>::StoreVote { vote: None },
        ],
{
    assert(replica.step_down(term).effects =~= seq![
        EffectView::<T>::RegisterLeader { leader_id: None },
        EffectView::<T>::StoreTerm { term },
        EffectView::<T>::StoreVote { vote: None },
    ]);
}

/// A replica that comes to lead appends one entry of its term, without effect, registers
/// itself, gives up its vote, stores both, and takes every peer to hold the log before
/// that entry and none of it to be known. All else stays.
pub proof fn leader_starts_with_an_entry<T>(replica: ReplicaView<T>)
    ensures
        ({
            let outcome = replica.become_leader();
            let after = outcome.state;
            let entry = after.log[replica.log.len() as int];
            &&& after == (ReplicaView {
                state: State::Leader,
                current_votes: None,
                voted_for: None,
                log: after.log,
                next_index: after.next_index,
                match_index: after.match_index,
                ..replica
            })
            &&& after.log.len() == replica.log.len() + 1
            &&& after.log.take(replica.log.len() as int) == replica.log
            &&& replica.log.len() <= usize::MAX ==> entry.index == replica.log.len()
            &&& entry.term == replica.current_term
            &&& entry.transition == replica.noop_transition
            &&& forall|id: ReplicaID|
                {
                    &&& #[trigger] after.next_index.contains_key(id) <==> replica.peer_ids.contains(id)
                    &&& after.match_index.contains_key(id) <==> replica.peer_ids.contains(id)
                    &&& replica.peer_ids.contains(id) && replica.log.len() <= usize::MAX
                        ==> after.next_index[id] == replica.log.len()
                    &&& replica.peer_ids.contains(id) ==> after.match_index[id] == 0
                }
            &&& outcome.effects == seq![
                EffectView::RegisterLeader { leader_id: Some(replica.id) },
                EffectView::StoreVote { vote: None },
                EffectView::PushEntry { entry },
            ]
        }),
{
    let after = replica.become_leader().state;
    assert(after.log.take(replica.log.len() as int) =~= replica.log);
}

/// A replica that stands for election is a candidate in the next term, with its own vote
/// and no other; term and vote are stored, and every peer is sent one request that names
/// the replica, that term, and index and term of its last entry. All else stays.
pub proof fn candidate_asks_each_peer_once<T>(replica: ReplicaView<T>)
    requires
        0 < replica.log.len() <= usize::MAX,
        replica.current_term < usize::MAX,
        replica.peer_ids.len() > 0,
    ensures
        ({
            let outcome = replica.become_candidate();
            &&& outcome.state == (ReplicaView {
                current_term: (replica.current_term + 1) as usize,
                state: State::Candidate,
                current_votes: Some(Set::empty().insert(replica.id)),
                voted_for: Some(replica.id),
                ..replica
            })
            &&& outcome.effects.len() == replica.peer_ids.len() + 2
            &&& outcome.effects[0] == (EffectView::<T>::StoreTerm {
                term: (replica.current_term + 1) as usize,
            })
            &&& outcome.effects[1] == (EffectView::<T>::StoreVote { vote: Some(replica.id) })
            &&& forall|i: int|
                0 <= i < replica.peer_ids.len() ==> outcome.effects[i + 2]
                    == (EffectView::<T>::SendMessage {
                    to_id: #[trigger] replica.peer_ids[i],
                    message: MessageView::VoteRequest {
                        from_id: replica.id,
                        term: (replica.current_term + 1) as usize,
                        last_log_index: (replica.log.len() - 1) as usize,
                        last_log_term: replica.log[replica.log.len() - 1].term,
                    },
                })
        }),
{
}

/// A replica without peers that stands for election leads in the next term at once: it
/// stores the term and its vote, and comes to lead as any candidate does.
pub proof fn lone_candidate_leads<T>(replica: ReplicaView<T>)
    requires
        replica.current_term < usize::MAX,
        replica.peer_ids.len() == 0,
    ensures
        ({
            let candidate = ReplicaView {
                current_term: (replica.current_term + 1) as usize,
                state: State::Candidate,
                current_votes: Some(Set::empty().insert(replica.id)),
                voted_for: Some(replica.id),
                ..replica
            };
            let outcome = replica.become_candidate();
            &&& outcome.state == candidate.become_leader().state
            &&& outcome.state.current_term == replica.current_term + 1
            &&& outcome.effects == seq![
                EffectView::StoreTerm { term: (replica.current_term + 1) as usize },
                EffectView::StoreVote { vote: Some(replica.id) },
            ] + candidate.become_leader().effects
        }),
{
    let candidate = replica.start_election();
    assert(candidate.effects =~= seq![
        EffectView::StoreTerm { term: (replica.current_term + 1) as usize },
        EffectView::StoreVote { vote: Some(replica.id) },
    ]);
}

} // verus!
