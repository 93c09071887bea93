//! What a replica waits for, and what comes of it.

use crate::effect::{effect_views, Effect, EffectView};
use crate::message::{message_views, Message, MessageView};
use crate::model::ReplicaView;
use std::sync::Arc;
use vstd::prelude::*;

verus! {

/// What came of an event.
#[derive(Debug, PartialEq)]
pub struct Step<T> {
    /// What is to be done outside, in order.
    pub effects: Vec<Effect<T>>,
    /// Whether the event was dealt with to the end. Where it was not, the
    /// replica cannot go on.
    pub completed: bool,
}

/// What a follower or a candidate waits for.
#[derive(Debug, PartialEq)]
pub enum WaitEvent<T> {
    /// Messages are there.
    Messages(Vec<Message<T>>),
    /// The election deadline has passed.
    Timeout,
}

/// What a leader waits for.
#[derive(Debug, PartialEq)]
pub enum LeaderEvent<T> {
    /// Messages are there.
    Messages(Vec<Message<T>>),
    /// Transitions to be replicated are there.
    Transitions(Vec<Arc<T>>),
    /// The heartbeat timer has fired.
    Heartbeat,
}

/// Nothing was done, and nothing can be.
pub open spec fn stuck<T>(pre: ReplicaView<T>, post: ReplicaView<T>, step: Step<T>) -> bool {
    &&& post == pre
    &&& effect_views(step.effects@) == Seq::<EffectView<T>>::empty()
    &&& !step.completed
}

/// The messages up to the first that is not understood were taken.
pub open spec fn took_messages<T>(
    pre: ReplicaView<T>,
    messages: Seq<MessageView<T>>,
    post: ReplicaView<T>,
    step: Step<T>,
) -> bool {
    let understood = pre.understood(messages);
    let outcome = pre.messages(messages.take(understood as int));
    &&& post == outcome.state
    &&& effect_views(step.effects@) == outcome.effects
    &&& step.completed <==> understood == messages.len()
}

/// What a replica that does not lead comes to. With messages, if there are any,
/// the election deadline is set anew, and they are taken; when the deadline has
/// passed, an election is started and the deadline is set anew.
pub open spec fn waited<T>(
    pre: ReplicaView<T>,
    event: WaitEvent<T>,
    now: u128,
    post: ReplicaView<T>,
    step: Step<T>,
) -> bool {
    let deadline = post.next_election_deadline;
    match event {
        WaitEvent::Messages(messages) => if messages@.len() == 0 {
            took_messages(pre, message_views(messages@), post, step)
        } else if pre.can_wait(now) {
            &&& pre.waits_until(now, deadline)
            &&& took_messages(
                pre.with_deadline(deadline),
                message_views(messages@),
                post,
                step,
            )
        } else {
            stuck(pre, post, step)
        },
        WaitEvent::Timeout => if pre.current_term == usize::MAX {
            stuck(pre, post, step)
        } else {
            let outcome = pre.become_candidate();
            &&& effect_views(step.effects@) == outcome.effects
            &&& step.completed <==> pre.can_wait(now)
            &&& if step.completed {
                &&& pre.waits_until(now, deadline)
                &&& post == outcome.state.with_deadline(deadline)
            } else {
                post == outcome.state
            }
        },
    }
}

/// What a leader comes to. It takes messages, if there are any. Transitions are
/// taken into the log and sent out along with what else the peers lack. With a
/// heartbeat the peers are sent what they lack, and the timer is armed anew.
pub open spec fn led<T>(
    pre: ReplicaView<T>,
    event: LeaderEvent<T>,
    now: u128,
    post: ReplicaView<T>,
    step: Step<T>,
) -> bool {
    match event {
        LeaderEvent::Messages(messages) => took_messages(
            pre,
            message_views(messages@),
            post,
            step,
        ),
        LeaderEvent::Transitions(transitions) => {
            let outcome = pre.load_transitions(transitions@);
            &&& post == outcome.state
            &&& step.completed <==> post.can_send_to_all()
            &&& effect_views(step.effects@) == if step.completed {
                outcome.effects + post.broadcast_append()
            } else {
                outcome.effects
            }
        },
        LeaderEvent::Heartbeat => if pre.can_send_to_all() {
            &&& post == pre.heartbeat(now).state
            &&& effect_views(step.effects@) == pre.heartbeat(now).effects
            &&& step.completed
        } else {
            stuck(pre, post, step)
        },
    }
}

} // verus!
