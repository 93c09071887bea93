//! Laws about a whole cluster, for as long as one replica leads it.

use crate::effect::EffectView;
use crate::laws::consistency::{
    agree_up_to, cut_from, in_line_with, installing_follows_log, replicas_in_line_agree,
    request_brings_leader_log, requests_are_cut_from_log,
};
use crate::laws::events::{
    leader_only_appends, log_stays_numbered, numbered, possible, react, Input,
};
use crate::message::{LogEntry, MessageView};
use crate::model::{lemma_applied_effects_kinds, ReplicaView};
use vstd::prelude::*;

verus! {

/// A leader, its followers, and every request to append that was ever sent.
#[verifier::ext_equal]
#[verifier::reject_recursive_types(T)]
pub struct ClusterView<T> {
    pub leader: ReplicaView<T>,
    pub followers: Seq<ReplicaView<T>>,
    pub requests: Set<MessageView<T>>,
}

/// Something that happens in a cluster.
pub enum ClusterStep<T> {
    /// Something happens to the leader.
    Leader(Input<T>),
    /// A message comes to a follower.
    Receive(int, MessageView<T>),
    /// A follower applies what is committed.
    Apply(int),
}

/// The requests to append that effects send.
pub open spec fn requests_in<T>(effects: Seq<EffectView<T>>) -> Set<MessageView<T>> {
    Set::new(
        |message: MessageView<T>|
            message is AppendEntryRequest && exists|i: int|
                0 <= i < effects.len() && sends(#[trigger] effects[i], message),
    )
}

/// Whether an effect sends a message.
pub open spec fn sends<T>(effect: EffectView<T>, message: MessageView<T>) -> bool {
    effect matches EffectView::SendMessage { message: sent, .. } && sent == message
}

impl<T> ClusterView<T> {
    /// Whether a step can happen while the leader leads. Any message can come to a
    /// follower at any time and any number of times, except that a request to
    /// append must have been sent.
    pub open spec fn can_take(self, step: ClusterStep<T>) -> bool {
        match step {
            ClusterStep::Leader(input) => {
                &&& possible(self.leader, input)
                &&& react(self.leader, input).state.state is Leader
                &&& react(self.leader, input).state.log.len() < usize::MAX
            },
            ClusterStep::Receive(i, message) => {
                &&& 0 <= i < self.followers.len()
                &&& message is AppendEntryRequest ==> self.requests.contains(message)
            },
            ClusterStep::Apply(i) => 0 <= i < self.followers.len(),
        }
    }

    /// The cluster after a step.
    pub open spec fn take(self, step: ClusterStep<T>) -> ClusterView<T> {
        match step {
            ClusterStep::Leader(input) => {
                let outcome = react(self.leader, input);
                ClusterView {
                    leader: outcome.state,
                    requests: self.requests.union(requests_in(outcome.effects)),
                    ..self
                }
            },
            ClusterStep::Receive(i, message) => ClusterView {
                followers: self.followers.update(i, self.followers[i].message(message).state),
                ..self
            },
            ClusterStep::Apply(i) => ClusterView {
                followers: self.followers.update(
                    i,
                    self.followers[i].apply_up_to(self.followers[i].commit_index).state,
                ),
                ..self
            },
        }
    }

    /// Whether all replicas are in line with the leader: each follows, with a log
    /// that matches the leader's, that agrees with it on what is committed and
    /// that holds no entry of the leader's term but the leader's own; and every
    /// request is cut out of the leader's log.
    pub open spec fn in_line(self) -> bool {
        &&& self.leader.state is Leader
        &&& numbered(self.leader.log)
        &&& self.leader.commit_index < self.leader.log.len() < usize::MAX
        &&& forall|i: int|
            0 <= i < self.followers.len() ==> self.follows(#[trigger] self.followers[i])
        &&& forall|message: MessageView<T>| #[trigger]
            self.requests.contains(message) ==> cut_from(message, self.leader.log)
    }

    /// Whether a replica is in line with the leader.
    pub open spec fn follows(self, follower: ReplicaView<T>) -> bool {
        &&& follower.state is Follower
        &&& in_line_with(follower, self.leader.log)
        &&& own_term_from(follower.log, self.leader)
    }
}

/// Whether entries of a leader's term stand in a log only as far as the leader's
/// log goes.
pub open spec fn own_term_from<T>(log: Seq<LogEntry<T>>, leader: ReplicaView<T>) -> bool {
    forall|i: int|
        0 <= i < log.len() && (#[trigger] log[i]).term == leader.current_term ==> i
            < leader.log.len()
}

/// What is in line with a log stays so as the log grows by entries of the
/// leader's term.
proof fn lemma_growing_keeps_in_line<T>(
    follower: ReplicaView<T>,
    leader: ReplicaView<T>,
    log: Seq<LogEntry<T>>,
)
    requires
        in_line_with(follower, leader.log),
        own_term_from(follower.log, leader),
        leader.log.is_prefix_of(log),
        forall|i: int|
            leader.log.len() <= i < log.len() ==> (#[trigger] log[i]).term == leader.current_term,
    ensures
        in_line_with(follower, log),
{
    let old_log = leader.log;
    assert forall|i: int| 0 <= i < old_log.len() implies #[trigger] log[i] == old_log[i] by {
        assert(log.take(old_log.len() as int)[i] == old_log[i]);
    }
    assert forall|i: int|
        0 <= i < follower.log.len() && i < log.len() && (#[trigger] follower.log[i]).term
            == log[i].term implies follower.log.take(i + 1) == log.take(i + 1) by {
        assert(i < old_log.len());
        assert(follower.log.take(i + 1) == old_log.take(i + 1));
        assert(log.take(i + 1) =~= old_log.take(i + 1));
    }
    let kept = follower.commit_index + 1;
    assert(log.take(kept) =~= old_log.take(kept));
}

/// A leader that goes on leading appends entries of its term and nothing else.
proof fn lemma_leader_grows<T>(leader: ReplicaView<T>, input: Input<T>)
    requires
        leader.state is Leader,
        possible(leader, input),
        react(leader, input).state.state is Leader,
        numbered(leader.log),
        leader.commit_index < leader.log.len(),
        react(leader, input).state.log.len() < usize::MAX,
    ensures
        ({
            let after = react(leader, input).state;
            &&& leader.log.is_prefix_of(after.log)
            &&& after.current_term == leader.current_term
            &&& numbered(after.log)
            &&& after.commit_index < after.log.len()
            &&& forall|i: int|
                leader.log.len() <= i < after.log.len() ==> (#[trigger] after.log[i]).term
                    == leader.current_term
        }),
{
    leader_only_appends(leader, input);
    log_stays_numbered(leader, input);
}

/// As long as one replica leads, a cluster that is in line with it stays so,
/// whatever messages are lost, repeated, delayed or overtaken.
pub proof fn cluster_stays_in_line<T>(cluster: ClusterView<T>, step: ClusterStep<T>)
    requires
        cluster.in_line(),
        cluster.can_take(step),
    ensures
        cluster.take(step).in_line(),
{
    let after = cluster.take(step);
    match step {
        ClusterStep::Leader(input) => {
            let leader = cluster.leader;
            let outcome = react(leader, input);
            lemma_leader_grows(leader, input);
            assert forall|i: int| 0 <= i < after.followers.len() implies after.follows(
                #[trigger] after.followers[i],
            ) by {
                assert(cluster.follows(cluster.followers[i]));
                lemma_growing_keeps_in_line(cluster.followers[i], leader, after.leader.log);
            }
            assert forall|message: MessageView<T>| #[trigger]
                after.requests.contains(message) implies cut_from(message, after.leader.log) by {
                if cluster.requests.contains(message) {
                    lemma_cut_from_longer(message, leader.log, after.leader.log);
                } else {
                    let i = choose|i: int|
                        0 <= i < outcome.effects.len() && sends(
                            #[trigger] outcome.effects[i],
                            message,
                        );
                    if let Input::Commit(commit_index) = input {
                        lemma_applied_effects_kinds(leader.log, leader.last_applied, commit_index);
                    }
                    assert(input is Heartbeat || input is Broadcast);
                    let peer_id = leader.peer_ids[i];
                    assert(leader.can_send_to(peer_id));
                    requests_are_cut_from_log(leader, peer_id, after.leader.log);
                }
            }
        },
        ClusterStep::Receive(i, message) => {
            let follower = cluster.followers[i];
            assert(cluster.follows(follower));
            lemma_message_keeps_following(cluster, follower, message);
            assert forall|j: int| 0 <= j < after.followers.len() implies after.follows(
                #[trigger] after.followers[j],
            ) by {
                if j != i {
                    assert(cluster.follows(cluster.followers[j]));
                }
            }
        },
        ClusterStep::Apply(i) => {
            assert(cluster.follows(cluster.followers[i]));
            assert forall|j: int| 0 <= j < after.followers.len() implies after.follows(
                #[trigger] after.followers[j],
            ) by {
                if j != i {
                    assert(cluster.follows(cluster.followers[j]));
                }
            }
        },
    }
}

/// A request that is cut out of a log is cut out of every log that it grows into.
proof fn lemma_cut_from_longer<T>(
    message: MessageView<T>,
    log: Seq<LogEntry<T>>,
    longer: Seq<LogEntry<T>>,
)
    requires
        cut_from(message, log),
        log.is_prefix_of(longer),
    ensures
        cut_from(message, longer),
{
    if let MessageView::AppendEntryRequest { prev_log_index, entries, .. } = message {
        let end = prev_log_index + 1 + entries.len();
        assert forall|i: int| 0 <= i < log.len() implies #[trigger] longer[i] == log[i] by {
            assert(longer.take(log.len() as int)[i] == log[i]);
        }
        assert(longer.subrange(prev_log_index + 1, end) =~= log.subrange(prev_log_index + 1, end));
    }
}

/// A follower in line stays in line with the message it takes.
proof fn lemma_message_keeps_following<T>(
    cluster: ClusterView<T>,
    follower: ReplicaView<T>,
    message: MessageView<T>,
)
    requires
        cluster.in_line(),
        cluster.follows(follower),
        message is AppendEntryRequest ==> cluster.requests.contains(message),
    ensures
        cluster.follows(follower.message(message).state),
{
    let after = follower.message(message).state;
    let leader_log = cluster.leader.log;
    if let MessageView::AppendEntryRequest {
        term,
        prev_log_index,
        prev_log_term,
        entries,
        ..
    } = message {
        request_brings_leader_log(follower, message, leader_log);
        if follower.current_term <= term && follower.holds(prev_log_index, prev_log_term) {
            let start = prev_log_index + 1;
            assert(follower.log[prev_log_index as int].term
                == leader_log[prev_log_index as int].term);
            installing_follows_log(follower.log, leader_log, start, start + entries.len());
        }
    } else {
        assert(after.log == follower.log);
    }
}

/// The state machines of a cluster that is in line are consistent: any two
/// replicas hold the same committed entries, as far as both have come.
pub proof fn replicas_agree_on_committed<T>(
    cluster: ClusterView<T>,
    one: int,
    other: int,
    index: usize,
)
    requires
        cluster.in_line(),
        0 <= one < cluster.followers.len(),
        0 <= other < cluster.followers.len(),
        index <= cluster.followers[one].commit_index,
        index <= cluster.followers[other].commit_index,
    ensures
        agree_up_to(cluster.followers[one].log, cluster.followers[other].log, index),
        agree_up_to(cluster.followers[one].log, cluster.leader.log, index),
{
    let first = cluster.followers[one];
    let second = cluster.followers[other];
    assert(cluster.follows(first));
    assert(cluster.follows(second));
    replicas_in_line_agree(first, second, cluster.leader.log, index);
    let kept = index + 1;
    assert(first.log.take(kept) =~= first.log.take(first.commit_index + 1).take(kept));
    assert(cluster.leader.log.take(kept) =~= cluster.leader.log.take(
        first.commit_index + 1,
    ).take(kept));
}

/// A cluster of replicas with new logs is in line with the first of them to lead.
pub proof fn new_cluster_is_in_line<T>(candidate: ReplicaView<T>, followers: Seq<ReplicaView<T>>)
    requires
        candidate.current_term > 0,
        candidate.commit_index == 0,
        candidate.log == seq![ReplicaView::first_entry(candidate.noop_transition)],
        forall|i: int|
            0 <= i < followers.len() ==> {
                let follower = #[trigger] followers[i];
                &&& follower.state is Follower
                &&& follower.commit_index == 0
                &&& follower.log == candidate.log
            },
    ensures
        (ClusterView {
            leader: candidate.become_leader().state,
            followers,
            requests: Set::empty(),
        }).in_line(),
{
    let cluster = ClusterView {
        leader: candidate.become_leader().state,
        followers,
        requests: Set::empty(),
    };
    assert forall|i: int| 0 <= i < followers.len() implies cluster.follows(
        #[trigger] followers[i],
    ) by {
        assert(followers[i].log.take(1) =~= cluster.leader.log.take(1));
    }
}

} // verus!
