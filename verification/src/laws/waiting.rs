//! Laws about what comes of what a replica waited for.

use crate::effect::{effect_views, EffectView};
use crate::laws::sending::broadcast_reaches_every_peer;
use crate::laws::taking::lemma_understood_is;
use crate::message::{message_views, MessageView};
use crate::model::ReplicaView;
use crate::poll::{led, took_messages, waited, LeaderEvent, Step, WaitEvent};
use crate::timer::Timer;
use vstd::prelude::*;

verus! {

/// The election can be put off exactly if there is a timeout to put it off by. It is put
/// off by one of the range, and nothing else changes.
pub proof fn election_is_put_off_within_range<T>(
    replica: ReplicaView<T>,
    now: u128,
    deadline: u128,
)
    ensures
        replica.can_wait(now) <==> (replica.election_timeout.0 <= replica.election_timeout.1 && now
            + replica.election_timeout.1 <= u128::MAX),
        replica.waits_until(now, deadline) <==> now + replica.election_timeout.0 <= deadline
            && deadline <= now + replica.election_timeout.1,
        replica.with_deadline(deadline) == (ReplicaView {
            next_election_deadline: deadline,
            ..replica
        }),
{
}

/// When the election deadline has passed, the replica stands for election, which has the
/// effects of that alone, and puts the next election off by a timeout of its range. Where
/// there is none, it stands for election and cannot go on; in the last term that there is
/// it cannot even do that.
pub proof fn passed_deadline_starts_election<T>(
    pre: ReplicaView<T>,
    now: u128,
    post: ReplicaView<T>,
    step: Step<T>,
)
    requires
        waited(pre, WaitEvent::Timeout, now, post, step),
    ensures
        pre.current_term == usize::MAX ==> post == pre && step.effects@.len() == 0
            && !step.completed,
        pre.current_term < usize::MAX ==> {
            let election = pre.become_candidate();
            let deadline = post.next_election_deadline;
            let able = pre.election_timeout.0 <= pre.election_timeout.1 && now
                + pre.election_timeout.1 <= u128::MAX;
            &&& effect_views(step.effects@) == election.effects
            &&& step.completed <==> able
            &&& able ==> {
                &&& post == (ReplicaView { next_election_deadline: deadline, ..election.state })
                &&& now + pre.election_timeout.0 <= deadline
                &&& deadline <= now + pre.election_timeout.1
            }
            &&& !able ==> post == election.state
        },
{
    assert(effect_views(step.effects@).len() == step.effects@.len());
}

/// With messages a replica that does not lead first puts its election off by a timeout of
/// its range; where there is none, it does nothing and cannot go on. Then it takes the
/// messages one after the other, all of them or those before the first that it cannot make
/// sense of, at which it cannot go on. Without messages nothing happens.
pub proof fn messages_put_election_off<T>(
    pre: ReplicaView<T>,
    event: WaitEvent<T>,
    now: u128,
    post: ReplicaView<T>,
    step: Step<T>,
    count: int,
)
    requires
        waited(pre, event, now, post, step),
        event is Messages,
    ensures
        ({
            let messages = message_views(event->Messages_0@);
            let deadline = post.next_election_deadline;
            let waiting = ReplicaView { next_election_deadline: deadline, ..pre };
            let outcome = waiting.messages(messages.take(count));
            let able = pre.election_timeout.0 <= pre.election_timeout.1 && now
                + pre.election_timeout.1 <= u128::MAX;
            let first = {
                &&& 0 <= count <= messages.len()
                &&& forall|k: int|
                    0 <= k < count ==> waiting.messages(
                        #[trigger] messages.take(k),
                    ).state.understands(messages[k])
                &&& count < messages.len() ==> !outcome.state.understands(messages[count])
            };
            &&& event->Messages_0@.len() == 0 ==> post == pre && step.effects@.len() == 0
                && step.completed
            &&& event->Messages_0@.len() > 0 && !able ==> post == pre && step.effects@.len() == 0
                && !step.completed
            &&& event->Messages_0@.len() > 0 && able ==> {
                &&& now + pre.election_timeout.0 <= deadline
                &&& deadline <= now + pre.election_timeout.1
                &&& first ==> {
                    &&& post == outcome.state
                    &&& effect_views(step.effects@) == outcome.effects
                    &&& step.completed <==> count == event->Messages_0@.len()
                }
            }
        }),
{
    let messages = message_views(event->Messages_0@);
    let deadline = post.next_election_deadline;
    let waiting = pre.with_deadline(deadline);
    if event->Messages_0@.len() == 0 {
        assert(messages.take(0) =~= messages);
    } else if pre.can_wait(now) {
        let outcome = waiting.messages(messages.take(count));
        if 0 <= count <= messages.len() && (forall|k: int|
            0 <= k < count ==> waiting.messages(#[trigger] messages.take(k)).state.understands(
                messages[k],
            )) && (count < messages.len() ==> !outcome.state.understands(messages[count])) {
            lemma_understood_is(waiting, messages, count);
        }
    }
}

/// Messages are taken one after the other, all of them or those before the first that the
/// replica cannot make sense of, at which it cannot go on.
pub proof fn messages_are_taken_in_turn<T>(
    pre: ReplicaView<T>,
    messages: Seq<MessageView<T>>,
    post: ReplicaView<T>,
    step: Step<T>,
    count: int,
)
    requires
        took_messages(pre, messages, post, step),
        0 <= count <= messages.len(),
        forall|k: int|
            0 <= k < count ==> pre.messages(#[trigger] messages.take(k)).state.understands(
                messages[k],
            ),
        count < messages.len() ==> !pre.messages(messages.take(count)).state.understands(
            messages[count],
        ),
    ensures
        post == pre.messages(messages.take(count)).state,
        effect_views(step.effects@) == pre.messages(messages.take(count)).effects,
        step.completed <==> count == messages.len(),
{
    lemma_understood_is(pre, messages, count);
}

/// A leader takes messages one after the other, all of them or those before the first that
/// it cannot make sense of, at which it cannot go on.
pub proof fn leader_takes_messages_in_turn<T>(
    pre: ReplicaView<T>,
    event: LeaderEvent<T>,
    now: u128,
    post: ReplicaView<T>,
    step: Step<T>,
    count: int,
)
    requires
        led(pre, event, now, post, step),
        event is Messages,
        ({
            let messages = message_views(event->Messages_0@);
            &&& 0 <= count <= messages.len()
            &&& forall|k: int|
                0 <= k < count ==> pre.messages(#[trigger] messages.take(k)).state.understands(
                    messages[k],
                )
            &&& count < messages.len() ==> !pre.messages(messages.take(count)).state.understands(
                messages[count],
            )
        }),
    ensures
        ({
            let outcome = pre.messages(message_views(event->Messages_0@).take(count));
            &&& post == outcome.state
            &&& effect_views(step.effects@) == outcome.effects
            &&& step.completed <==> count == event->Messages_0@.len()
        }),
{
    messages_are_taken_in_turn(pre, message_views(event->Messages_0@), post, step, count);
}

/// A leader takes transitions into its log, and then sends every peer one request to
/// append, the one that it is owed with the new log. Where there is nothing before what a
/// peer is to be sent next, nothing is sent and it cannot go on.
pub proof fn leader_sends_transitions<T>(
    pre: ReplicaView<T>,
    event: LeaderEvent<T>,
    now: u128,
    post: ReplicaView<T>,
    step: Step<T>,
)
    requires
        led(pre, event, now, post, step),
        event is Transitions,
    ensures
        ({
            let loaded = pre.load_transitions(event->Transitions_0@);
            let told = effect_views(step.effects@);
            let start = loaded.effects.len() as int;
            let able = forall|i: int|
                0 <= i < post.peer_ids.len() ==> {
                    &&& post.next_index.contains_key(#[trigger] post.peer_ids[i])
                    &&& 1 <= post.next_index[post.peer_ids[i]] <= post.log.len()
                };
            &&& post == loaded.state
            &&& step.completed <==> able
            &&& start <= told.len()
            &&& told.take(start) == loaded.effects
            &&& able ==> {
                &&& told.len() == start + post.peer_ids.len()
                &&& forall|i: int|
                    0 <= i < post.peer_ids.len() ==> told[start + i] == (EffectView::<T>::SendMessage {
                        to_id: #[trigger] post.peer_ids[i],
                        message: MessageView::AppendEntryRequest {
                            from_id: post.id,
                            term: post.current_term,
                            prev_log_index: (post.next_index[post.peer_ids[i]] - 1) as usize,
                            prev_log_term: post.log[post.next_index[post.peer_ids[i]] - 1].term,
                            entries: post.log.subrange(
                                post.next_index[post.peer_ids[i]] as int,
                                post.log.len() as int,
                            ),
                            commit_index: post.commit_index,
                        },
                    })
            }
            &&& !able ==> told.len() == start
        }),
{
    let loaded = pre.load_transitions(event->Transitions_0@);
    let told = effect_views(step.effects@);
    let start = loaded.effects.len() as int;
    who_can_be_sent_to(post);
    assert(told.take(start) =~= loaded.effects);
    if step.completed {
        broadcast_reaches_every_peer(post);
        assert forall|i: int| 0 <= i < post.peer_ids.len() implies told[start + i]
            == #[trigger] post.broadcast_append()[i] by {}
        assert forall|i: int| 0 <= i < post.peer_ids.len() implies told[start + i] == (EffectView::<T>::SendMessage {
            to_id: #[trigger] post.peer_ids[i],
            message: MessageView::AppendEntryRequest {
                from_id: post.id,
                term: post.current_term,
                prev_log_index: (post.next_index[post.peer_ids[i]] - 1) as usize,
                prev_log_term: post.log[post.next_index[post.peer_ids[i]] - 1].term,
                entries: post.log.subrange(
                    post.next_index[post.peer_ids[i]] as int,
                    post.log.len() as int,
                ),
                commit_index: post.commit_index,
            },
        }) by {
            assert(told[start + i] == post.broadcast_append()[i]);
        }
    }
}

/// When a heartbeat is due, a leader sends every peer one request to append, the one that
/// it is owed, and arms its timer again for its timeout from now; nothing else changes.
/// Where there is nothing before what a peer is to be sent next, it does nothing and cannot
/// go on.
pub proof fn due_heartbeat_is_sent<T>(
    pre: ReplicaView<T>,
    now: u128,
    post: ReplicaView<T>,
    step: Step<T>,
)
    requires
        led(pre, LeaderEvent::Heartbeat, now, post, step),
    ensures
        ({
            let timeout = pre.heartbeat_timer.timeout;
            let deadline = post.heartbeat_timer.deadline;
            let told = effect_views(step.effects@);
            let able = forall|i: int|
                0 <= i < pre.peer_ids.len() ==> {
                    &&& pre.next_index.contains_key(#[trigger] pre.peer_ids[i])
                    &&& 1 <= pre.next_index[pre.peer_ids[i]] <= pre.log.len()
                };
            &&& able ==> {
                &&& step.completed
                &&& told.len() == pre.peer_ids.len()
                &&& forall|i: int|
                    0 <= i < pre.peer_ids.len() ==> #[trigger] told[i] == (EffectView::<T>::SendMessage {
                        to_id: pre.peer_ids[i],
                        message: MessageView::AppendEntryRequest {
                            from_id: pre.id,
                            term: pre.current_term,
                            prev_log_index: (pre.next_index[pre.peer_ids[i]] - 1) as usize,
                            prev_log_term: pre.log[pre.next_index[pre.peer_ids[i]] - 1].term,
                            entries: pre.log.subrange(
                                pre.next_index[pre.peer_ids[i]] as int,
                                pre.log.len() as int,
                            ),
                            commit_index: pre.commit_index,
                        },
                    })
                &&& post == (ReplicaView { heartbeat_timer: Timer { timeout, deadline }, ..pre })
                &&& now + timeout <= u128::MAX ==> deadline == now + timeout
            }
            &&& !able ==> post == pre && step.effects@.len() == 0 && !step.completed
        }),
{
    who_can_be_sent_to(pre);
    assert(effect_views(step.effects@).len() == step.effects@.len());
    if pre.can_send_to_all() {
        broadcast_reaches_every_peer(pre);
    }
}

/// A replica can send to all its peers exactly if there is, for each, an entry before the
/// next one to send.
pub proof fn who_can_be_sent_to<T>(replica: ReplicaView<T>)
    ensures
        replica.can_send_to_all() <==> forall|i: int|
            0 <= i < replica.peer_ids.len() ==> {
                &&& replica.next_index.contains_key(#[trigger] replica.peer_ids[i])
                &&& 1 <= replica.next_index[replica.peer_ids[i]] <= replica.log.len()
            },
{
    if replica.can_send_to_all() {
        assert forall|i: int| 0 <= i < replica.peer_ids.len() implies {
            &&& replica.next_index.contains_key(#[trigger] replica.peer_ids[i])
            &&& 1 <= replica.next_index[replica.peer_ids[i]] <= replica.log.len()
        } by {
            assert(replica.can_send_to(replica.peer_ids[i]));
        }
    }
}

} // verus!
