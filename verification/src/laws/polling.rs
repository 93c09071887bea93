//! Laws about what a replica waits for: every event that it waited for comes to inputs
//! one after the other, and these to happenings of a cluster.

use crate::effect::{effect_views, EffectView};
use crate::laws::events::{all_possible, possible, react, react_all, Input};
use crate::laws::world::{sends_to, sent_by, Happening, World};
use crate::message::{message_views, MessageView};
use crate::model::{Outcome, ReplicaView};
use crate::poll::{led, waited, LeaderEvent, Step, WaitEvent};
use crate::ReplicaID;
use vstd::prelude::*;

verus! {

/// The messages that a replica takes of some, as inputs: those up to the first that it
/// does not understand.
pub open spec fn taken<T>(replica: ReplicaView<T>, messages: Seq<MessageView<T>>) -> Seq<
    Input<T>,
> {
    Seq::new(replica.understood(messages), |i: int| Input::Message(messages[i]))
}

/// What an event comes to for a replica that does not lead, with an election deadline
/// that is drawn for it.
pub open spec fn wait_inputs<T>(
    replica: ReplicaView<T>,
    event: WaitEvent<T>,
    now: u128,
    deadline: u128,
) -> Seq<Input<T>> {
    match event {
        WaitEvent::Messages(messages) => if messages@.len() > 0 && replica.can_wait(now) {
            seq![Input::PutOff(deadline)] + taken(
                replica.with_deadline(deadline),
                message_views(messages@),
            )
        } else {
            seq![]
        },
        WaitEvent::Timeout => if replica.current_term == usize::MAX {
            seq![]
        } else if replica.can_wait(now) {
            seq![Input::Election, Input::PutOff(deadline)]
        } else {
            seq![Input::Election]
        },
    }
}

/// What an event comes to for a leader.
pub open spec fn lead_inputs<T>(
    replica: ReplicaView<T>,
    event: LeaderEvent<T>,
    now: u128,
) -> Seq<Input<T>> {
    match event {
        LeaderEvent::Messages(messages) => taken(replica, message_views(messages@)),
        LeaderEvent::Transitions(transitions) => {
            let loaded = replica.load_transitions(transitions@).state;
            if loaded.can_send_to_all() {
                seq![Input::Transitions(transitions@), Input::Broadcast]
            } else {
                seq![Input::Transitions(transitions@)]
            }
        },
        LeaderEvent::Heartbeat => if replica.can_send_to_all() {
            seq![Input::Heartbeat(now)]
        } else {
            seq![]
        },
    }
}

/// Inputs that follow on others come to what they come to from there.
#[verifier::rlimit(40)]
proof fn lemma_react_all_add<T>(
    replica: ReplicaView<T>,
    first: Seq<Input<T>>,
    second: Seq<Input<T>>,
)
    ensures
        ({
            let between = react_all(replica, first);
            &&& react_all(replica, first + second) == react_all(between.state, second).after(
                between.effects,
            )
            &&& all_possible(replica, first + second) <==> all_possible(replica, first)
                && all_possible(between.state, second)
        }),
    decreases second.len(),
{
    let between = react_all(replica, first);
    if second.len() == 0 {
        assert(first + second =~= first);
        assert(react_all(between.state, second).after(between.effects).effects
            =~= between.effects);
    } else {
        let before = second.drop_last();
        lemma_react_all_add(replica, first, before);
        assert((first + second).drop_last() =~= first + before);
        assert((first + second).last() == second.last());
        assert(react_all(replica, first + second).effects =~= react_all(
            between.state,
            second,
        ).after(between.effects).effects);
    }
}

/// One input comes to what it comes to.
proof fn lemma_react_one<T>(replica: ReplicaView<T>, input: Input<T>)
    ensures
        react_all(replica, seq![input]) == react(replica, input),
        all_possible(replica, seq![input]) <==> possible(replica, input),
{
    reveal_with_fuel(react_all, 2);
    reveal_with_fuel(all_possible, 2);
    assert(seq![input].drop_last() =~= Seq::<Input<T>>::empty());
    assert(react_all(replica, seq![input]).effects =~= react(replica, input).effects);
}

/// Two inputs come to what the second comes to after the first.
proof fn lemma_react_two<T>(replica: ReplicaView<T>, first: Input<T>, second: Input<T>)
    ensures
        ({
            let between = react(replica, first);
            &&& react_all(replica, seq![first, second]) == react(between.state, second).after(
                between.effects,
            )
            &&& all_possible(replica, seq![first, second]) <==> possible(replica, first)
                && possible(between.state, second)
        }),
{
    lemma_react_one(replica, first);
    assert(seq![first, second].drop_last() =~= seq![first]);
}

/// Messages that a replica takes come to what they come to as inputs.
#[verifier::rlimit(40)]
proof fn lemma_taken<T>(replica: ReplicaView<T>, messages: Seq<MessageView<T>>)
    ensures
        ({
            let understood = replica.understood(messages);
            &&& understood <= messages.len()
            &&& react_all(replica, taken(replica, messages)) == replica.messages(
                messages.take(understood as int),
            )
            &&& all_possible(replica, taken(replica, messages))
        }),
    decreases messages.len(),
{
    let understood = replica.understood(messages);
    let inputs = taken(replica, messages);
    if messages.len() == 0 {
        assert(inputs =~= Seq::<Input<T>>::empty());
        assert(messages.take(0) =~= messages);
    } else {
        let before = messages.drop_last();
        lemma_taken(replica, before);
        if understood == messages.len() {
            assert(inputs.drop_last() =~= taken(replica, before));
            assert(inputs.last() == Input::Message(messages.last()));
            assert(before.take(before.len() as int) =~= before);
            assert(messages.take(messages.len() as int) =~= messages);
        } else {
            assert(inputs =~= taken(replica, before));
            assert(messages.take(understood as int) =~= before.take(understood as int));
        }
    }
}

/// What a replica that does not lead makes of what it waited for comes to inputs that
/// can happen to it one after the other: the election put off and the messages, or the
/// election and the next one put off.
#[verifier::rlimit(40)]
pub proof fn waiting_comes_to_inputs<T>(
    pre: ReplicaView<T>,
    event: WaitEvent<T>,
    now: u128,
    post: ReplicaView<T>,
    step: Step<T>,
)
    requires
        !(pre.state is Leader),
        waited(pre, event, now, post, step),
    ensures
        ({
            let inputs = wait_inputs(pre, event, now, post.next_election_deadline);
            &&& all_possible(pre, inputs)
            &&& react_all(pre, inputs) == (Outcome {
                state: post,
                effects: effect_views(step.effects@),
            })
        }),
{
    let deadline = post.next_election_deadline;
    match event {
        WaitEvent::Messages(messages) => {
            let received = message_views(messages@);
            if messages@.len() == 0 {
                lemma_taken(pre, received);
                assert(taken(pre, received) =~= Seq::<Input<T>>::empty());
            } else if pre.can_wait(now) {
                lemma_messages_put_off(pre, received, deadline);
            }
        },
        WaitEvent::Timeout => {
            if pre.current_term != usize::MAX {
                lemma_react_one(pre, Input::Election);
                lemma_react_two(pre, Input::Election, Input::PutOff(deadline));
                let started = pre.become_candidate();
                assert(started.state.with_deadline(deadline).idle().after(started.effects).effects
                    =~= started.effects);
            }
        },
    }
}

/// Messages that put the election off come to that and to the messages.
proof fn lemma_messages_put_off<T>(
    replica: ReplicaView<T>,
    messages: Seq<MessageView<T>>,
    deadline: u128,
)
    ensures
        ({
            let waiting = replica.with_deadline(deadline);
            let inputs = seq![Input::PutOff(deadline)] + taken(waiting, messages);
            &&& all_possible(replica, inputs)
            &&& react_all(replica, inputs) == waiting.messages(
                messages.take(waiting.understood(messages) as int),
            )
        }),
{
    let waiting = replica.with_deadline(deadline);
    let outcome = waiting.messages(messages.take(waiting.understood(messages) as int));
    lemma_react_one(replica, Input::PutOff(deadline));
    lemma_taken(waiting, messages);
    lemma_react_all_add(replica, seq![Input::PutOff(deadline)], taken(waiting, messages));
    assert(outcome.after(waiting.idle().effects).effects =~= outcome.effects);
}

/// What a leader makes of what it waited for comes to inputs that can happen to it one
/// after the other: the messages, the transitions and a broadcast, or a heartbeat.
#[verifier::rlimit(40)]
pub proof fn leading_comes_to_inputs<T>(
    pre: ReplicaView<T>,
    event: LeaderEvent<T>,
    now: u128,
    post: ReplicaView<T>,
    step: Step<T>,
)
    requires
        pre.state is Leader,
        led(pre, event, now, post, step),
    ensures
        ({
            let inputs = lead_inputs(pre, event, now);
            &&& all_possible(pre, inputs)
            &&& react_all(pre, inputs) == (Outcome {
                state: post,
                effects: effect_views(step.effects@),
            })
        }),
{
    match event {
        LeaderEvent::Messages(messages) => {
            lemma_taken(pre, message_views(messages@));
        },
        LeaderEvent::Transitions(transitions) => {
            lemma_react_one(pre, Input::Transitions(transitions@));
            lemma_react_two(pre, Input::Transitions(transitions@), Input::Broadcast);
        },
        LeaderEvent::Heartbeat => {
            lemma_react_one(pre, Input::Heartbeat(now));
        },
    }
}

/// Inputs as what happens to a replica of a cluster.
pub open spec fn as_happenings<T>(id: ReplicaID, inputs: Seq<Input<T>>) -> Seq<Happening<T>> {
    Seq::new(inputs.len(), |i: int| Happening::Event { id, input: inputs[i] })
}

/// What effects send in two parts is what they send in all.
proof fn lemma_sent_by_add<T>(first: Seq<EffectView<T>>, second: Seq<EffectView<T>>)
    ensures
        sent_by(first + second) == sent_by(first).union(sent_by(second)),
{
    assert forall|mail: (ReplicaID, MessageView<T>)| #[trigger]
        sent_by(first + second).contains(mail) <==> sent_by(first).contains(mail) || sent_by(
            second,
        ).contains(mail) by {
        if sent_by(first).contains(mail) {
            let i = choose|i: int|
                0 <= i < first.len() && sends_to(#[trigger] first[i], mail.0, mail.1);
            assert(sends_to((first + second)[i], mail.0, mail.1));
        }
        if sent_by(second).contains(mail) {
            let i = choose|i: int|
                0 <= i < second.len() && sends_to(#[trigger] second[i], mail.0, mail.1);
            assert(sends_to((first + second)[first.len() + i], mail.0, mail.1));
        }
        if sent_by(first + second).contains(mail) {
            let i = choose|i: int|
                0 <= i < (first + second).len() && sends_to(
                    #[trigger] (first + second)[i],
                    mail.0,
                    mail.1,
                );
            if i < first.len() {
                assert(sends_to(first[i], mail.0, mail.1));
            } else {
                assert(sends_to(second[i - first.len()], mail.0, mail.1));
            }
        }
    }
    assert(sent_by(first + second) =~= sent_by(first).union(sent_by(second)));
}

/// Inputs that come to a replica one after the other, such as those of an event that it
/// waited for, are happenings of a cluster: after them the replica is as they leave it,
/// the messages that they send have been sent, its storage has carried out what they
/// store, and all other replicas are as they were.
pub proof fn inputs_happen_in_cluster<T>(world: World<T>, id: ReplicaID, inputs: Seq<Input<T>>)
    ensures
        ({
            let outcome = react_all(world.replicas[id], inputs);
            let after = world.after_all(as_happenings(id, inputs));
            &&& after.ids == world.ids
            &&& after.replicas[id] == outcome.state
            &&& after.storages[id] == world.storages[id].store_all(outcome.effects)
            &&& after.sent == world.sent.union(sent_by(outcome.effects))
            &&& forall|other: ReplicaID|
                other != id ==> #[trigger] after.replicas[other] == world.replicas[other]
        }),
    decreases inputs.len(),
{
    let outcome = react_all(world.replicas[id], inputs);
    let happenings = as_happenings(id, inputs);
    if inputs.len() == 0 {
        assert(world.sent.union(sent_by(outcome.effects)) =~= world.sent);
    } else {
        let before = inputs.drop_last();
        inputs_happen_in_cluster(world, id, before);
        assert(happenings.drop_last() =~= as_happenings(id, before));
        assert(happenings.last() == (Happening::Event { id, input: inputs.last() }));
        let between = react_all(world.replicas[id], before);
        let last = react(between.state, inputs.last());
        world.storages[id].lemma_store_all_add(between.effects, last.effects);
        lemma_sent_by_add(between.effects, last.effects);
        assert(world.after_all(happenings).sent =~= world.sent.union(sent_by(outcome.effects)));
    }
}

} // verus!
