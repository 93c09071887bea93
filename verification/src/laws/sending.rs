//! Laws about what a leader takes into its log and what it sends its peers.

use crate::effect::{EffectView, TransitionState};
use crate::laws::consistency::{lemma_installed_terms, numbered_from};
use crate::laws::events::{appending_keeps_log_numbered, numbered};
use crate::message::MessageView;
use crate::model::{ReplicaView, State};
use crate::timer::Timer;
use crate::ReplicaID;
use std::sync::Arc;
use vstd::prelude::*;

verus! {

/// The request to append that is made for a peer is in the replica's own name and term,
/// with its own commit index: it names the entry before the next one to send and its term,
/// and holds the log from there to its end.
pub proof fn request_speaks_for_the_replica<T>(replica: ReplicaView<T>, peer_id: ReplicaID)
    requires
        replica.next_index.contains_key(peer_id),
        1 <= replica.next_index[peer_id] <= replica.log.len(),
    ensures
        ({
            let next = replica.next_index[peer_id] as int;
            let message = replica.append_request(peer_id);
            &&& message matches MessageView::AppendEntryRequest {
                from_id,
                term,
                prev_log_index,
                prev_log_term,
                entries,
                commit_index,
            }
            &&& from_id == replica.id
            &&& term == replica.current_term
            &&& prev_log_index == next - 1
            &&& prev_log_term == replica.log[next - 1].term
            &&& entries.len() == replica.log.len() - next
            &&& forall|i: int|
                0 <= i < entries.len() ==> #[trigger] entries[i] == replica.log[next + i]
            &&& commit_index == replica.commit_index
        }),
{
}

/// A broadcast sends every peer, in the order of the peers, one request to append, and does
/// nothing else. Each is in the replica's own name and term, with its own commit index and
/// the log from the next entry to send to that peer on.
pub proof fn broadcast_reaches_every_peer<T>(replica: ReplicaView<T>)
    requires
        forall|i: int|
            0 <= i < replica.peer_ids.len() ==> {
                &&& replica.next_index.contains_key(#[trigger] replica.peer_ids[i])
                &&& 1 <= replica.next_index[replica.peer_ids[i]] <= replica.log.len()
            },
    ensures
        replica.broadcast_append().len() == replica.peer_ids.len(),
        forall|i: int|
            0 <= i < replica.peer_ids.len() ==> #[trigger] replica.broadcast_append()[i]
                == (EffectView::<T>::SendMessage {
                to_id: replica.peer_ids[i],
                message: MessageView::AppendEntryRequest {
                    from_id: replica.id,
                    term: replica.current_term,
                    prev_log_index: (replica.next_index[replica.peer_ids[i]] - 1) as usize,
                    prev_log_term: replica.log[replica.next_index[replica.peer_ids[i]] - 1].term,
                    entries: replica.log.subrange(
                        replica.next_index[replica.peer_ids[i]] as int,
                        replica.log.len() as int,
                    ),
                    commit_index: replica.commit_index,
                },
            }),
{
    assert forall|i: int| 0 <= i < replica.peer_ids.len() implies #[trigger] replica.broadcast_append()[i]
        == (EffectView::<T>::SendMessage {
        to_id: replica.peer_ids[i],
        message: MessageView::AppendEntryRequest {
            from_id: replica.id,
            term: replica.current_term,
            prev_log_index: (replica.next_index[replica.peer_ids[i]] - 1) as usize,
            prev_log_term: replica.log[replica.next_index[replica.peer_ids[i]] - 1].term,
            entries: replica.log.subrange(
                replica.next_index[replica.peer_ids[i]] as int,
                replica.log.len() as int,
            ),
            commit_index: replica.commit_index,
        },
    }) by {
        let next = replica.next_index[replica.peer_ids[i]] as int;
        assert(replica.log.skip(next) =~= replica.log.subrange(next, replica.log.len() as int));
    }
}

/// A heartbeat sends every peer, in the order of the peers, one request to append, in the
/// replica's own name and term, with its own commit index and the log from the next entry
/// to send to that peer on; and it arms the timer again for its timeout from now. All else
/// stays.
pub proof fn heartbeat_reaches_every_peer<T>(replica: ReplicaView<T>, now: u128)
    requires
        forall|i: int|
            0 <= i < replica.peer_ids.len() ==> {
                &&& replica.next_index.contains_key(#[trigger] replica.peer_ids[i])
                &&& 1 <= replica.next_index[replica.peer_ids[i]] <= replica.log.len()
            },
    ensures
        ({
            let outcome = replica.heartbeat(now);
            let timeout = replica.heartbeat_timer.timeout;
            let deadline = outcome.state.heartbeat_timer.deadline;
            &&& outcome.effects.len() == replica.peer_ids.len()
            &&& forall|i: int|
                0 <= i < replica.peer_ids.len() ==> #[trigger] outcome.effects[i]
                    == (EffectView::<T>::SendMessage {
                    to_id: replica.peer_ids[i],
                    message: MessageView::AppendEntryRequest {
                        from_id: replica.id,
                        term: replica.current_term,
                        prev_log_index: (replica.next_index[replica.peer_ids[i]] - 1) as usize,
                        prev_log_term: replica.log[replica.next_index[replica.peer_ids[i]] - 1].term,
                        entries: replica.log.subrange(
                            replica.next_index[replica.peer_ids[i]] as int,
                            replica.log.len() as int,
                        ),
                        commit_index: replica.commit_index,
                    },
                })
            &&& outcome.state == (ReplicaView {
                heartbeat_timer: Timer { timeout, deadline },
                ..replica
            })
            &&& now + timeout <= u128::MAX ==> deadline == now + timeout
        }),
{
    broadcast_reaches_every_peer(replica);
    let outcome = replica.heartbeat(now);
    assert forall|i: int| 0 <= i < replica.peer_ids.len() implies #[trigger] outcome.effects[i]
        == replica.broadcast_append()[i] by {}
}

/// A follower that takes the request to append of a leader ends with a commit index
/// no lower than the leader's, and with a log no shorter.
pub proof fn follower_learns_what_is_committed<T>(leader: ReplicaView<T>, follower: ReplicaView<T>)
    requires
        leader.next_index.contains_key(follower.id),
        1 <= leader.next_index[follower.id] <= leader.log.len(),
        leader.commit_index < leader.log.len(),
        numbered(leader.log),
        numbered(follower.log),
        follower.state == State::Follower,
        follower.current_term <= leader.current_term,
        leader.next_index[follower.id] <= follower.log.len(),
        follower.log[leader.next_index[follower.id] - 1].term == leader.log[leader.next_index[follower.id]
            - 1].term,
    ensures
        ({
            let after = follower.message(leader.append_request(follower.id)).state;
            &&& leader.commit_index <= after.commit_index
            &&& leader.log.len() <= after.log.len()
        }),
{
    let next = leader.next_index[follower.id] as int;
    let entries = leader.entries_for(follower.id);
    let after = follower.message(leader.append_request(follower.id)).state;
    assert(numbered_from(entries, next)) by {
        assert forall|k: int| 0 <= k < entries.len() implies (#[trigger] entries[k]).index == next
            + k by {
            assert(entries[k] == leader.log[next + k]);
        }
    }
    lemma_installed_terms(follower.log, entries, next);
    appending_keeps_log_numbered(
        follower,
        leader.id,
        leader.current_term,
        (next - 1) as usize,
        leader.log[next - 1].term,
        entries,
        leader.commit_index,
    );
    assert(after.log[after.log.len() - 1].index == after.log.len() - 1);
}

/// A leader that takes transitions has a log that is longer by as many entries: all that
/// it had, and then the transitions, each in its turn, in the leader's term and numbered
/// by its place. Each entry is stored and its transition registered as queued, in that
/// order, and nothing else is done. All else stays.
pub proof fn leader_takes_every_transition<T>(replica: ReplicaView<T>, transitions: Seq<Arc<T>>)
    requires
        replica.state == State::Leader,
    ensures
        ({
            let outcome = replica.load_transitions(transitions);
            let after = outcome.state;
            let old_len = replica.log.len();
            &&& after == (ReplicaView { log: after.log, ..replica })
            &&& after.log.len() == old_len + transitions.len()
            &&& after.log.take(old_len as int) == replica.log
            &&& outcome.effects.len() == 2 * transitions.len()
            &&& forall|i: int|
                #![trigger transitions[i]]
                0 <= i < transitions.len() ==> {
                    let entry = after.log[old_len + i];
                    &&& entry.transition == transitions[i]
                    &&& entry.term == replica.current_term
                    &&& old_len + i <= usize::MAX ==> entry.index == old_len + i
                    &&& outcome.effects[2 * i] == (EffectView::PushEntry { entry })
                    &&& outcome.effects[2 * i + 1] == (EffectView::RegisterTransitionState {
                        transition: transitions[i],
                        state: TransitionState::Queued,
                    })
                }
        }),
{
    let outcome = replica.load_transitions(transitions);
    let old_len = replica.log.len();
    assert(outcome.state.log.take(old_len as int) =~= replica.log);
    assert forall|i: int| #![trigger transitions[i]] 0 <= i < transitions.len() implies {
        let entry = outcome.state.log[old_len + i];
        &&& entry.transition == transitions[i]
        &&& entry.term == replica.current_term
        &&& old_len + i <= usize::MAX ==> entry.index == old_len + i
        &&& outcome.effects[2 * i] == (EffectView::PushEntry { entry })
        &&& outcome.effects[2 * i + 1] == (EffectView::RegisterTransitionState {
            transition: transitions[i],
            state: TransitionState::Queued,
        })
    } by {
        assert((2 * i) / 2 == i && (2 * i) % 2 == 0);
        assert((2 * i + 1) / 2 == i && (2 * i + 1) % 2 == 1);
    }
}

/// A replica that does not lead lets transitions pass: nothing changes, nothing is done.
pub proof fn others_take_no_transition<T>(replica: ReplicaView<T>, transitions: Seq<Arc<T>>)
    requires
        replica.state != State::Leader,
    ensures
        replica.load_transitions(transitions).state == replica,
        replica.load_transitions(transitions).effects.len() == 0,
{
}

} // verus!
