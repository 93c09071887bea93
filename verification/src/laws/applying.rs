//! Laws about which entries are committed, and what is done with them.

use crate::effect::{EffectView, TransitionState};
use crate::message::LogEntry;
use crate::model::{applied_effects, replicated_on, ReplicaView, State};
use crate::ReplicaID;
use vstd::prelude::*;

verus! {

/// The commit index moves to no entry but one of the leader's own term that is known to be
/// held by some replicas which make, with the leader, more than half of the cluster; it never goes back, and it moves for a leader only.
pub proof fn what_is_committed_a_majority_holds<T>(
    replica: ReplicaView<T>,
    commit_index: usize,
) -> (some: Set<ReplicaID>)
    requires
        replica.moves_commit_to(commit_index),
        replica.match_index.dom().finite(),
    ensures
        replica.commit_index <= commit_index,
        replica.commit_index < commit_index ==> {
            &&& replica.state == State::Leader
            &&& commit_index < replica.log.len()
            &&& replica.log[commit_index as int].term == replica.current_term
            &&& some.finite()
            &&& (some.len() + 1) * 2 > replica.peer_ids.len() + 1
            &&& forall|id: ReplicaID| #[trigger]
                some.contains(id) ==> replica.match_index.contains_key(id)
                    && replica.match_index[id] >= commit_index
        },
{
    let some = replicated_on(replica.match_index, commit_index);
    vstd::set_lib::lemma_len_subset(some, replica.match_index.dom());
    some
}

/// The commit index of a leader moves at least to every entry of the leader's own term
/// that is known to be held by replicas which make, with the
/// leader, more than half of the cluster.
pub proof fn what_a_majority_holds_is_committed<T>(
    replica: ReplicaView<T>,
    commit_index: usize,
    index: usize,
    some: Set<ReplicaID>,
)
    requires
        replica.moves_commit_to(commit_index),
        replica.match_index.dom().finite(),
        replica.state == State::Leader,
        index < replica.log.len(),
        replica.log[index as int].term == replica.current_term,
        some.finite(),
        (some.len() + 1) * 2 > replica.peer_ids.len() + 1,
        forall|id: ReplicaID| #[trigger]
            some.contains(id) ==> replica.match_index.contains_key(id) && replica.match_index[id]
                >= index,
    ensures
        index <= commit_index,
{
    let all = replicated_on(replica.match_index, index);
    vstd::set_lib::lemma_len_subset(all, replica.match_index.dom());
    assert(some.subset_of(all));
    vstd::set_lib::lemma_len_subset(some, all);
    if commit_index < index {
        assert(replica.committable(index));
    }
}

/// Applying entries applies each in order and tells the state machine after each.
proof fn lemma_applied_in_order<T>(log: Seq<LogEntry<T>>, low: usize, high: usize)
    requires
        low <= high,
    ensures
        ({
            let effects = applied_effects(log, low, high);
            &&& effects.len() == 2 * (high - low)
            &&& forall|i: int|
                #![trigger log[low + 1 + i]]
                0 <= i < high - low ==> {
                    &&& effects[2 * i] == (EffectView::ApplyTransition {
                        transition: log[low + 1 + i].transition,
                    })
                    &&& effects[2 * i + 1] == (EffectView::RegisterTransitionState {
                        transition: log[low + 1 + i].transition,
                        state: TransitionState::Applied,
                    })
                }
        }),
    decreases high,
{
    if low < high {
        lemma_applied_in_order(log, low, (high - 1) as usize);
        let before = applied_effects(log, low, (high - 1) as usize);
        let effects = applied_effects(log, low, high);
        assert forall|i: int| #![trigger log[low + 1 + i]] 0 <= i < high - low implies {
            &&& effects[2 * i] == (EffectView::ApplyTransition {
                transition: log[low + 1 + i].transition,
            })
            &&& effects[2 * i + 1] == (EffectView::RegisterTransitionState {
                transition: log[low + 1 + i].transition,
                state: TransitionState::Applied,
            })
        } by {
            if i < high - 1 - low {
                assert(effects[2 * i] == before[2 * i]);
                assert(effects[2 * i + 1] == before[2 * i + 1]);
            }
        }
    }
}

/// Moving the commit index up registers every entry that becomes committed, in order; then
/// every entry up to it that has not been applied is applied, in order, and registered as
/// applied right after. Nothing is left out and nothing else is done. The two indices end
/// at the commit index, or where they were if that is higher; all else stays.
pub proof fn every_committed_entry_is_applied<T>(replica: ReplicaView<T>, commit_index: usize)
    requires
        replica.commit_index <= commit_index,
    ensures
        ({
            let outcome = replica.apply_up_to(commit_index);
            let old_commit = replica.commit_index;
            let old_applied = replica.last_applied;
            let committed = commit_index - old_commit;
            let applied = if old_applied < commit_index {
                commit_index - old_applied
            } else {
                0
            };
            &&& outcome.state == (ReplicaView {
                commit_index,
                last_applied: (old_applied + applied) as usize,
                ..replica
            })
            &&& outcome.effects.len() == committed + 2 * applied
            &&& forall|i: int|
                #![trigger replica.log[old_commit + 1 + i]]
                0 <= i < committed ==> outcome.effects[i] == (EffectView::RegisterTransitionState {
                    transition: replica.log[old_commit + 1 + i].transition,
                    state: TransitionState::Committed,
                })
            &&& forall|i: int|
                #![trigger replica.log[old_applied + 1 + i]]
                0 <= i < applied ==> {
                    &&& outcome.effects[committed + 2 * i] == (EffectView::ApplyTransition {
                        transition: replica.log[old_applied + 1 + i].transition,
                    })
                    &&& outcome.effects[committed + 2 * i + 1] == (
                    EffectView::RegisterTransitionState {
                        transition: replica.log[old_applied + 1 + i].transition,
                        state: TransitionState::Applied,
                    })
                }
        }),
{
    let outcome = replica.apply_up_to(commit_index);
    let old_applied = replica.last_applied;
    let committed = commit_index - replica.commit_index;
    if old_applied < commit_index {
        lemma_applied_in_order(replica.log, old_applied, commit_index);
        let told = applied_effects(replica.log, old_applied, commit_index);
        assert forall|i: int|
            #![trigger replica.log[old_applied + 1 + i]]
            0 <= i < commit_index - old_applied implies {
            &&& outcome.effects[committed + 2 * i] == (EffectView::ApplyTransition {
                transition: replica.log[old_applied + 1 + i].transition,
            })
            &&& outcome.effects[committed + 2 * i + 1] == (EffectView::RegisterTransitionState {
                transition: replica.log[old_applied + 1 + i].transition,
                state: TransitionState::Applied,
            })
        } by {
            assert(outcome.effects[committed + 2 * i] == told[2 * i]);
            assert(outcome.effects[committed + 2 * i + 1] == told[2 * i + 1]);
        }
    }
}

/// Entries can be applied exactly if the last that is committed and not applied, where
/// there is one, stands in the log.
pub proof fn only_entries_of_the_log_are_applied<T>(replica: ReplicaView<T>)
    ensures
        replica.can_apply() <==> (replica.last_applied < replica.commit_index
            ==> replica.commit_index < replica.log.len()),
{
}

} // verus!
