//! Laws about the views of messages and effects: nothing is lost in them.

use crate::effect::{effect_views, Effect};
use crate::message::{message_views, Message};
use vstd::prelude::*;

verus! {

/// Messages with the same view say the same, word for word.
pub proof fn view_tells_messages_apart<T>(one: Message<T>, other: Message<T>)
    requires
        one@ == other@,
    ensures
        match one {
            Message::AppendEntryRequest {
                from_id,
                term,
                prev_log_index,
                prev_log_term,
                entries,
                commit_index,
            } => {
                &&& other matches Message::AppendEntryRequest {
                    from_id: f,
                    term: t,
                    prev_log_index: pi,
                    prev_log_term: pt,
                    entries: e,
                    commit_index: c,
                }
                &&& from_id == f && term == t && prev_log_index == pi && prev_log_term == pt
                &&& entries@ == e@ && commit_index == c
            },
            _ => one == other,
        },
{
}

/// Effects with the same view do the same, and send messages with the same view.
pub proof fn view_tells_effects_apart<T>(one: Effect<T>, other: Effect<T>)
    requires
        one@ == other@,
    ensures
        match one {
            Effect::SendMessage { to_id, message } => {
                &&& other matches Effect::SendMessage { to_id: t, message: m }
                &&& to_id == t && message@ == m@
            },
            _ => one == other,
        },
{
}

/// The view of a message says what the message says.
pub proof fn view_of_message<T>(message: Message<T>)
    ensures
        match message {
            Message::AppendEntryRequest {
                from_id,
                term,
                prev_log_index,
                prev_log_term,
                entries,
                commit_index,
            } => {
                &&& message@ is AppendEntryRequest
                &&& message@->AppendEntryRequest_from_id == from_id
                &&& message@->AppendEntryRequest_term == term
                &&& message@->prev_log_index == prev_log_index
                &&& message@->prev_log_term == prev_log_term
                &&& message@->entries == entries@
                &&& message@->commit_index == commit_index
            },
            Message::AppendEntryResponse { from_id, term, success, last_index, mismatch_index } => {
                &&& message@ is AppendEntryResponse
                &&& message@->AppendEntryResponse_from_id == from_id
                &&& message@->AppendEntryResponse_term == term
                &&& message@->success == success
                &&& message@->last_index == last_index
                &&& message@->mismatch_index == mismatch_index
            },
            Message::VoteRequest { from_id, term, last_log_index, last_log_term } => {
                &&& message@ is VoteRequest
                &&& message@->VoteRequest_from_id == from_id
                &&& message@->VoteRequest_term == term
                &&& message@->last_log_index == last_log_index
                &&& message@->last_log_term == last_log_term
            },
            Message::VoteResponse { from_id, term, vote_granted } => {
                &&& message@ is VoteResponse
                &&& message@->VoteResponse_from_id == from_id
                &&& message@->VoteResponse_term == term
                &&& message@->vote_granted == vote_granted
            },
        },
{
}

/// The view of an effect tells what the effect does.
pub proof fn view_of_effect<T>(effect: Effect<T>)
    ensures
        match effect {
            Effect::SendMessage { to_id, message } => effect@ is SendMessage && effect@->to_id
                == to_id && effect@->message == message@,
            Effect::RegisterLeader { leader_id } => effect@ is RegisterLeader && effect@->leader_id
                == leader_id,
            Effect::StoreTerm { term } => effect@ is StoreTerm && effect@->term == term,
            Effect::StoreVote { vote } => effect@ is StoreVote && effect@->vote == vote,
            Effect::PushEntry { entry } => effect@ is PushEntry && effect@->entry == entry,
            Effect::TruncateEntries { index } => effect@ is TruncateEntries && effect@->index
                == index,
            Effect::ApplyTransition { transition } => effect@ is ApplyTransition
                && effect@->ApplyTransition_transition == transition,
            Effect::RegisterTransitionState { transition, state } => effect@
                is RegisterTransitionState && effect@->RegisterTransitionState_transition
                == transition && effect@->state == state,
        },
{
}

/// The views of messages and of effects are as many and in the same order.
pub proof fn views_keep_order<T>(messages: Seq<Message<T>>, effects: Seq<Effect<T>>)
    ensures
        message_views(messages).len() == messages.len(),
        forall|i: int|
            0 <= i < messages.len() ==> #[trigger] message_views(messages)[i] == messages[i]@,
        effect_views(effects).len() == effects.len(),
        forall|i: int|
            0 <= i < effects.len() ==> #[trigger] effect_views(effects)[i] == effects[i]@,
{
}

} // verus!
