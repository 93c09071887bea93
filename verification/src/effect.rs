//! What a replica asks of the world around it.

use crate::message::{LogEntry, Message, MessageView};
use crate::ReplicaID;
use std::sync::Arc;
use vstd::prelude::*;

verus! {

/// How far a transition has come, as told to the state machine.
#[derive(Clone, Copy, Debug, PartialEq, Eq, Structural)]
pub enum TransitionState {
    /// It stands in the log of the leader.
    Queued,
    /// It is replicated on a majority of the replicas.
    Committed,
    /// It has been applied to the local state machine.
    Applied,
}

/// One thing to be done outside the replica. Effects are to be carried out in
/// the order in which they come.
#[derive(Debug, PartialEq)]
pub enum Effect<T> {
    /// Send a message to another replica.
    SendMessage { to_id: ReplicaID, message: Message<T> },
    /// Tell the cluster who leads it, as far as this replica knows.
    RegisterLeader { leader_id: Option<ReplicaID> },
    /// Write the current term to the storage.
    StoreTerm { term: usize },
    /// Write the current vote to the storage.
    StoreVote { vote: Option<ReplicaID> },
    /// Append an entry to the stored log.
    PushEntry { entry: LogEntry<T> },
    /// Cut the stored log off before the entry with this index.
    TruncateEntries { index: usize },
    /// Apply a transition to the state machine.
    ApplyTransition { transition: Arc<T> },
    /// Tell the state machine how far a transition has come.
    RegisterTransitionState { transition: Arc<T>, state: TransitionState },
}

/// An effect with the view of its message.
#[verifier::ext_equal]
pub enum EffectView<T> {
    SendMessage { to_id: ReplicaID, message: MessageView<T> },
    RegisterLeader { leader_id: Option<ReplicaID> },
    StoreTerm { term: usize },
    StoreVote { vote: Option<ReplicaID> },
    PushEntry { entry: LogEntry<T> },
    TruncateEntries { index: usize },
    ApplyTransition { transition: Arc<T> },
    RegisterTransitionState { transition: Arc<T>, state: TransitionState },
}

impl<T> View for Effect<T> {
    type V = EffectView<T>;

    open spec fn view(&self) -> EffectView<T> {
        match *self {
            Effect::SendMessage { to_id, message } => EffectView::SendMessage {
                to_id,
                message: message@,
            },
            Effect::RegisterLeader { leader_id } => EffectView::RegisterLeader { leader_id },
            Effect::StoreTerm { term } => EffectView::StoreTerm { term },
            Effect::StoreVote { vote } => EffectView::StoreVote { vote },
            Effect::PushEntry { entry } => EffectView::PushEntry { entry },
            Effect::TruncateEntries { index } => EffectView::TruncateEntries { index },
            Effect::ApplyTransition { transition } => EffectView::ApplyTransition { transition },
            Effect::RegisterTransitionState { transition, state } =>
                EffectView::RegisterTransitionState { transition, state },
        }
    }
}

/// The views of a sequence of effects.
pub open spec fn effect_views<T>(effects: Seq<Effect<T>>) -> Seq<EffectView<T>> {
    effects.map_values(|effect: Effect<T>| effect@)
}

/// A list without effects.
pub(crate) fn no_effects<T>() -> (effects: Vec<Effect<T>>)
    ensures
        effect_views(effects@) == Seq::<EffectView<T>>::empty(),
{
    let effects: Vec<Effect<T>> = Vec::new();
    assert(effect_views(effects@) =~= Seq::<EffectView<T>>::empty());
    effects
}

/// Adds one effect at the end of a list.
pub(crate) fn emit<T>(effects: &mut Vec<Effect<T>>, effect: Effect<T>)
    ensures
        effect_views(final(effects)@) == effect_views(old(effects)@).push(effect@),
{
    effects.push(effect);
    assert(effect_views(effects@) =~= effect_views(old(effects)@).push(effect@));
}

/// Adds a list of effects at the end of another.
pub(crate) fn emit_all<T>(effects: &mut Vec<Effect<T>>, more: Vec<Effect<T>>)
    ensures
        effect_views(final(effects)@) == effect_views(old(effects)@) + effect_views(more@),
{
    let mut more = more;
    let ghost added = more@;
    effects.append(&mut more);
    assert(effect_views(effects@) =~= effect_views(old(effects)@) + effect_views(added));
}

} // verus!
