//! Laws about committing, applying and keeping track of the peers.

use crate::effect::EffectView;
use crate::laws::events::{possible, react, Input};
use crate::message::{LogEntry, MessageView};
use crate::model::{
    applied_effects, committed_effects, lemma_install_all_effects, replicated_on, ReplicaView,
};
use crate::ReplicaID;
use std::sync::Arc;
use vstd::prelude::*;

verus! {

/// There is one commit index to move to.
pub proof fn commit_index_is_determined<T>(replica: ReplicaView<T>, one: usize, other: usize)
    requires
        replica.moves_commit_to(one),
        replica.moves_commit_to(other),
    ensures
        one == other,
{
    if one < other {
        assert(replica.committable(other));
    } else if other < one {
        assert(replica.committable(one));
    }
}

/// The commit index only moves forward, and only to an entry of the current term
/// that the majority of the replicas hold, the leader itself counted. What
/// earlier leaders left waits for such an entry.
pub proof fn commit_needs_majority<T>(replica: ReplicaView<T>, commit_index: usize)
    requires
        replica.moves_commit_to(commit_index),
    ensures
        replica.commit_index <= commit_index,
        replica.commit_index < commit_index ==> {
            &&& replica.state is Leader
            &&& commit_index < replica.log.len()
            &&& replica.log[commit_index as int].term == replica.current_term
            &&& (replicated_on(replica.match_index, commit_index).len() + 1) * 2
                > replica.peer_ids.len() + 1
        },
{
}

/// The commit index of a leader reaches every entry of the current term that the
/// majority of the replicas hold.
pub proof fn commit_reaches_majority<T>(
    replica: ReplicaView<T>,
    commit_index: usize,
    index: usize,
)
    requires
        replica.state is Leader,
        replica.moves_commit_to(commit_index),
        index < replica.log.len(),
        replica.log[index as int].term == replica.current_term,
        (replicated_on(replica.match_index, index).len() + 1) * 2 > replica.peer_ids.len() + 1,
    ensures
        index <= commit_index,
{
    assert(replica.committable(index));
}

/// What effects apply to the state machine, in order.
pub open spec fn applied_by<T>(effects: Seq<EffectView<T>>) -> Seq<Arc<T>>
    decreases effects.len(),
{
    if effects.len() == 0 {
        seq![]
    } else {
        let before = applied_by(effects.drop_last());
        match effects.last() {
            EffectView::ApplyTransition { transition } => before.push(transition),
            _ => before,
        }
    }
}

/// The transitions of the entries above `low` up to `high`.
pub open spec fn transitions_between<T>(log: Seq<LogEntry<T>>, low: usize, high: usize) -> Seq<
    Arc<T>,
> {
    Seq::new(
        (if low < high { high - low } else { 0 }) as nat,
        |i: int| log[low + 1 + i].transition,
    )
}

/// Effects without an application apply nothing.
proof fn lemma_applied_by_nothing<T>(effects: Seq<EffectView<T>>)
    requires
        forall|i: int| 0 <= i < effects.len() ==> !((#[trigger] effects[i]) is ApplyTransition),
    ensures
        applied_by(effects) == Seq::<Arc<T>>::empty(),
    decreases effects.len(),
{
    if effects.len() > 0 {
        lemma_applied_by_nothing(effects.drop_last());
    }
}

/// Effects that come after others apply after them.
proof fn lemma_applied_by_add<T>(first: Seq<EffectView<T>>, second: Seq<EffectView<T>>)
    ensures
        applied_by(first + second) == applied_by(first) + applied_by(second),
    decreases second.len(),
{
    if second.len() == 0 {
        assert(first + second =~= first);
        assert(applied_by(first) + applied_by(second) =~= applied_by(first));
    } else {
        lemma_applied_by_add(first, second.drop_last());
        assert((first + second).drop_last() =~= first + second.drop_last());
        assert(applied_by(first + second) =~= applied_by(first) + applied_by(second));
    }
}

/// Applying entries applies their transitions.
proof fn lemma_applied_effects<T>(log: Seq<LogEntry<T>>, low: usize, high: usize)
    ensures
        applied_by(applied_effects(log, low, high)) == transitions_between(log, low, high),
    decreases high,
{
    if low < high {
        let before = applied_effects(log, low, (high - 1) as usize);
        let effects = applied_effects(log, low, high);
        lemma_applied_effects(log, low, (high - 1) as usize);
        assert(effects.drop_last().drop_last() =~= before);
        reveal_with_fuel(applied_by, 3);
        assert(applied_by(effects) =~= transitions_between(log, low, high));
    } else {
        assert(transitions_between(log, low, high) =~= Seq::<Arc<T>>::empty());
    }
}

/// Every event applies to the state machine exactly the entries by which the
/// index of the highest applied entry grows, each once and in the order of the
/// log; an event that leaves that index as it is applies nothing.
pub proof fn state_machine_keeps_up<T>(replica: ReplicaView<T>, input: Input<T>)
    requires
        possible(replica, input),
    ensures
        ({
            let outcome = react(replica, input);
            applied_by(outcome.effects) == transitions_between(
                outcome.state.log,
                replica.last_applied,
                outcome.state.last_applied,
            )
        }),
{
    let outcome = react(replica, input);
    if let Input::Commit(commit_index) = input {
        let committed = committed_effects(replica.log, replica.commit_index, commit_index);
        let applied = applied_effects(replica.log, replica.last_applied, commit_index);
        lemma_applied_by_nothing(committed);
        lemma_applied_effects(replica.log, replica.last_applied, commit_index);
        lemma_applied_by_add(committed, applied);
        assert(applied_by(outcome.effects) =~= transitions_between(
            replica.log,
            replica.last_applied,
            outcome.state.last_applied,
        ));
    } else {
        if let Input::Message(MessageView::AppendEntryRequest { entries, .. }) = input {
            lemma_install_all_effects(replica.log, entries);
        }
        lemma_applied_by_nothing(outcome.effects);
        assert(transitions_between(
            outcome.state.log,
            replica.last_applied,
            outcome.state.last_applied,
        ) =~= Seq::<Arc<T>>::empty());
    }
}

/// Applying brings the highest applied entry up to the commit index, so that
/// nothing is left to be applied.
pub proof fn applying_catches_up<T>(replica: ReplicaView<T>, commit_index: usize)
    requires
        possible(replica, Input::Commit(commit_index)),
    ensures
        ({
            let after = react(replica, Input::Commit(commit_index)).state;
            &&& after.commit_index <= after.last_applied
            &&& after.moves_commit_to(after.commit_index)
            &&& after.apply_up_to(after.commit_index) == after.idle()
        }),
{
    let after = react(replica, Input::Commit(commit_index)).state;
    assert forall|n: usize| commit_index < n < after.log.len() && after.state is Leader implies !(
    #[trigger] after.committable(n)) by {
        assert(!replica.committable(n));
    }
    assert(after.apply_up_to(after.commit_index).effects =~= seq![]);
}

/// What is sent to a peer is the log from the next entry to send on; that is nothing
/// exactly if the next entry to send is the one after the last.
pub proof fn peer_is_sent_what_it_lacks<T>(replica: ReplicaView<T>, peer_id: ReplicaID)
    requires
        replica.can_send_to(peer_id),
    ensures
        ({
            let next = replica.next_index[peer_id] as int;
            let entries = replica.entries_for(peer_id);
            &&& entries == replica.log.subrange(next, replica.log.len() as int)
            &&& entries.len() == 0 <==> next == replica.log.len()
        }),
{
    let next = replica.next_index[peer_id] as int;
    assert(replica.entries_for(peer_id) =~= replica.log.subrange(next, replica.log.len() as int));
}

/// A success tells a leader that the peer holds the log up to the index it names,
/// and what to send next.
pub proof fn success_is_noted<T>(
    replica: ReplicaView<T>,
    from_id: ReplicaID,
    term: usize,
    last_index: usize,
    mismatch_index: Option<usize>,
)
    requires
        replica.state is Leader,
        term <= replica.current_term,
        last_index < usize::MAX,
    ensures
        ({
            let outcome = replica.message(
                MessageView::AppendEntryResponse {
                    from_id,
                    term,
                    success: true,
                    last_index,
                    mismatch_index,
                },
            );
            &&& outcome.state.match_index[from_id] == last_index
            &&& outcome.state.next_index[from_id] == last_index + 1
            &&& outcome.effects.len() == 0
        }),
{
}

/// A mismatch below the next entry to send makes the leader send from an earlier
/// entry, no later than the mismatch and no later than the end of the peer's log;
/// a mismatch at or above it is out of date and changes nothing.
pub proof fn mismatch_goes_back<T>(
    replica: ReplicaView<T>,
    from_id: ReplicaID,
    term: usize,
    last_index: usize,
    mismatch_index: usize,
)
    requires
        replica.state is Leader,
        term <= replica.current_term,
        replica.next_index.contains_key(from_id),
        last_index < usize::MAX,
    ensures
        ({
            let outcome = replica.message(
                MessageView::AppendEntryResponse {
                    from_id,
                    term,
                    success: false,
                    last_index,
                    mismatch_index: Some(mismatch_index),
                },
            );
            let next = outcome.state.next_index[from_id];
            if mismatch_index < replica.next_index[from_id] {
                &&& next < replica.next_index[from_id]
                &&& next == if mismatch_index <= last_index + 1 {
                    mismatch_index as int
                } else {
                    last_index + 1
                }
                &&& outcome == ReplicaView {
                    next_index: replica.next_index.insert(from_id, next),
                    ..replica
                }.idle()
            } else {
                outcome == replica.idle()
            }
        }),
{
}

} // verus!
