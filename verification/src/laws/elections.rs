//! Laws about votes and elections.

use crate::effect::EffectView;
use crate::message::MessageView;
use crate::model::{lemma_install_all_effects, Outcome, ReplicaView};
use crate::ReplicaID;
use vstd::prelude::*;

verus! {

/// Whether an outcome grants a vote to a candidate.
pub open spec fn grants<T>(outcome: Outcome<T>, candidate: ReplicaID) -> bool {
    exists|i: int|
        0 <= i < outcome.effects.len() && grants_by(#[trigger] outcome.effects[i], candidate)
}

/// Whether an effect sends a vote to a candidate.
pub open spec fn grants_by<T>(effect: EffectView<T>, candidate: ReplicaID) -> bool {
    effect matches EffectView::SendMessage {
        to_id,
        message: MessageView::VoteResponse { vote_granted, .. },
    } && to_id == candidate && vote_granted
}

/// A follower answers a request for its vote with a grant exactly if the candidate
/// is not behind in term, the follower has voted for nobody else in the candidate's
/// term, and neither index nor term of its last entry is above the candidate's; the
/// grant is then its vote.
pub proof fn vote_is_granted_if_allowed<T>(
    replica: ReplicaView<T>,
    from_id: ReplicaID,
    term: usize,
    last_log_index: usize,
    last_log_term: usize,
)
    ensures
        ({
            let outcome = replica.vote_request_as_follower(
                from_id,
                term,
                last_log_index,
                last_log_term,
            );
            let free = replica.current_term < term || replica.current_term == term && (
            replica.voted_for is None || replica.voted_for == Some(from_id));
            let behind = replica.log.last().index <= last_log_index && replica.log.last().term
                <= last_log_term;
            &&& grants(outcome, from_id) <==> free && behind
            &&& grants(outcome, from_id) ==> outcome.state.voted_for == Some(from_id)
                && outcome.state.current_term == term
        }),
{
    let outcome = replica.vote_request_as_follower(from_id, term, last_log_index, last_log_term);
    if replica.current_term <= term && outcome.state.voted_for == Some(from_id) {
        let i = outcome.effects.len() - 2;
        assert(replica.log.last().index <= last_log_index && replica.log.last().term
            <= last_log_term ==> grants_by(outcome.effects[i], from_id));
    }
}

/// A candidate that is behind gets a refusal and nothing else, and the follower
/// stays as it is.
pub proof fn candidate_that_is_behind_gets_no_vote<T>(
    replica: ReplicaView<T>,
    from_id: ReplicaID,
    term: usize,
    last_log_index: usize,
    last_log_term: usize,
)
    requires
        term < replica.current_term,
    ensures
        ({
            let outcome = replica.vote_request_as_follower(
                from_id,
                term,
                last_log_index,
                last_log_term,
            );
            &&& outcome.state == replica
            &&& outcome.effects == seq![
                EffectView::<T>::SendMessage {
                    to_id: from_id,
                    message: MessageView::VoteResponse {
                        from_id: replica.id,
                        term: replica.current_term,
                        vote_granted: false,
                    },
                },
            ]
        }),
{
}

/// A follower that has granted its vote in the term of a request refuses any other
/// candidate of that term or an earlier one, and stays with its vote.
pub proof fn vote_given_is_refused_to_others<T>(
    replica: ReplicaView<T>,
    one: ReplicaID,
    term: usize,
    last_log_index: usize,
    last_log_term: usize,
    other: ReplicaID,
    other_term: usize,
    other_last_log_index: usize,
    other_last_log_term: usize,
)
    requires
        grants(replica.vote_request_as_follower(one, term, last_log_index, last_log_term), one),
        other != one,
        other_term <= term,
    ensures
        ({
            let voted = replica.vote_request_as_follower(
                one,
                term,
                last_log_index,
                last_log_term,
            ).state;
            let outcome = voted.vote_request_as_follower(
                other,
                other_term,
                other_last_log_index,
                other_last_log_term,
            );
            &&& voted.current_term == term
            &&& voted.voted_for == Some(one)
            &&& outcome.state == voted
            &&& outcome.effects == seq![voted.answer_vote(other, false)]
        }),
{
    vote_is_granted_if_allowed(replica, one, term, last_log_index, last_log_term);
}

/// A follower that has voted in a term stays a follower through any messages, and
/// as long as it stays in the term it stays with its vote.
proof fn lemma_vote_stays<T>(
    replica: ReplicaView<T>,
    messages: Seq<MessageView<T>>,
    candidate: ReplicaID,
)
    requires
        replica.state is Follower,
        replica.voted_for == Some(candidate),
    ensures
        ({
            let after = replica.messages(messages).state;
            &&& after.state is Follower
            &&& replica.current_term <= after.current_term
            &&& replica.current_term == after.current_term ==> after.voted_for == Some(candidate)
        }),
    decreases messages.len(),
{
    if messages.len() > 0 {
        lemma_vote_stays(replica, messages.drop_last(), candidate);
    }
}

/// A follower votes for one candidate at most in a term: if it grants its vote to
/// two messages, with any messages in between and without having moved to a later
/// term, both are of the same candidate.
pub proof fn one_candidate_per_term<T>(
    replica: ReplicaView<T>,
    first: MessageView<T>,
    between: Seq<MessageView<T>>,
    second: MessageView<T>,
    one: ReplicaID,
    other: ReplicaID,
)
    requires
        replica.state is Follower,
        grants(replica.message(first), one),
        ({
            let voted = replica.message(first).state;
            let later = voted.messages(between).state;
            &&& grants(later.message(second), other)
            &&& later.message(second).state.current_term == voted.current_term
        }),
    ensures
        one == other,
{
    let voted = replica.message(first).state;
    lemma_grant_is_vote(replica, first, one);
    lemma_vote_stays(voted, between, one);
    let later = voted.messages(between).state;
    lemma_grant_is_vote(later, second, other);
}

/// A follower that grants its vote has it cast, in place of no vote or of the same.
proof fn lemma_grant_is_vote<T>(
    replica: ReplicaView<T>,
    message: MessageView<T>,
    candidate: ReplicaID,
)
    requires
        replica.state is Follower,
        grants(replica.message(message), candidate),
    ensures
        ({
            let after = replica.message(message).state;
            &&& after.state is Follower
            &&& after.voted_for == Some(candidate)
            &&& replica.current_term <= after.current_term
            &&& replica.current_term == after.current_term ==> replica.voted_for is None
                || replica.voted_for == Some(candidate)
        }),
{
    if let MessageView::AppendEntryRequest { entries, .. } = message {
        lemma_install_all_effects(replica.log, entries);
    }
}

/// A candidate that gets a vote leads if more than half of the cluster, itself
/// counted, has then voted for it; if not, it counts the vote and nothing else.
pub proof fn majority_elects<T>(replica: ReplicaView<T>, from_id: ReplicaID, term: usize)
    requires
        replica.state is Candidate,
        replica.wf(),
        term <= replica.current_term,
    ensures
        ({
            let votes = replica.current_votes->0.insert(from_id);
            let outcome = replica.message(
                MessageView::VoteResponse { from_id, term, vote_granted: true },
            );
            if votes.len() * 2 > replica.peer_ids.len() + 1 {
                &&& outcome.state.state is Leader
                &&& outcome.state.current_term == replica.current_term
                &&& outcome.effects[0] == EffectView::<T>::RegisterLeader {
                    leader_id: Some(replica.id),
                }
            } else {
                &&& outcome.state == ReplicaView { current_votes: Some(votes), ..replica }
                &&& outcome.effects == Seq::<EffectView<T>>::empty()
            }
        }),
{
}

/// A message makes a leader only of a candidate that more than half of the cluster,
/// itself counted, has voted for.
pub proof fn leader_is_voted_for<T>(replica: ReplicaView<T>, message: MessageView<T>)
    requires
        replica.wf(),
        !(replica.state is Leader),
        replica.message(message).state.state is Leader,
    ensures
        replica.state is Candidate,
        message matches MessageView::VoteResponse { from_id, vote_granted, .. } && {
            let votes = replica.current_votes->0.insert(from_id);
            &&& vote_granted
            &&& votes.contains(replica.id)
            &&& votes.len() * 2 > replica.peer_ids.len() + 1
        },
{
}

/// Two sets of votes of which each makes more than half of the cluster have a
/// replica in common.
pub proof fn majorities_meet(
    cluster: Set<ReplicaID>,
    some: Set<ReplicaID>,
    others: Set<ReplicaID>,
)
    requires
        cluster.finite(),
        some.subset_of(cluster),
        others.subset_of(cluster),
        some.len() * 2 > cluster.len(),
        others.len() * 2 > cluster.len(),
    ensures
        exists|id: ReplicaID| some.contains(id) && others.contains(id),
{
    vstd::set_lib::lemma_len_subset(some, cluster);
    vstd::set_lib::lemma_len_subset(others, cluster);
    vstd::set_lib::lemma_len_subset(some.union(others), cluster);
    vstd::set_lib::lemma_set_intersect_union_lens(some, others);
    let both = some.intersect(others);
    assert(both.len() > 0);
    let id = both.choose();
    assert(both.contains(id));
    assert(some.contains(id) && others.contains(id));
}

/// When the election deadline has passed, the replica moves to the next term,
/// votes for itself, stores both, and asks every peer for its vote.
pub proof fn election_asks_every_peer<T>(replica: ReplicaView<T>)
    requires
        replica.wf(),
        replica.current_term < usize::MAX,
        replica.peer_ids.len() > 0,
    ensures
        ({
            let outcome = replica.become_candidate();
            let after = outcome.state;
            &&& after.state is Candidate
            &&& after.current_term == replica.current_term + 1
            &&& after.voted_for == Some(replica.id)
            &&& after.current_votes == Some(set![replica.id])
            &&& outcome.effects[0] == EffectView::<T>::StoreTerm { term: after.current_term }
            &&& outcome.effects[1] == EffectView::<T>::StoreVote { vote: Some(replica.id) }
            &&& forall|i: int|
                0 <= i < replica.peer_ids.len() ==> #[trigger] outcome.effects[i + 2]
                    == (EffectView::SendMessage {
                    to_id: replica.peer_ids[i],
                    message: after.vote_request(),
                })
        }),
{
}

/// A replica without peers leads as soon as it starts an election.
pub proof fn lone_replica_leads<T>(replica: ReplicaView<T>)
    requires
        replica.peer_ids.len() == 0,
    ensures
        replica.become_candidate().state.state is Leader,
{
}

/// A new leader has an entry of its own term at the end of its log, and takes
/// every peer to hold the log before that entry.
pub proof fn leader_opens_its_term<T>(replica: ReplicaView<T>)
    requires
        replica.become_leader().state.log.len() <= usize::MAX,
    ensures
        ({
            let after = replica.become_leader().state;
            &&& after.log == replica.log.push(after.log.last())
            &&& after.log.last().index == replica.log.len()
            &&& after.log.last().term == replica.current_term
            &&& after.log.last().transition == replica.noop_transition
            &&& forall|id: ReplicaID| #[trigger]
                replica.peer_ids.contains(id) ==> after.next_index[id] == replica.log.len()
                    && after.match_index[id] == 0 && after.entries_for(id) == seq![
                    after.log.last(),
                ]
        }),
{
    let after = replica.become_leader().state;
    assert(after.log.skip(replica.log.len() as int) =~= seq![after.log.last()]);
}

/// A candidate follows a leader of its own term or a later one.
pub proof fn candidate_yields_to_leader<T>(replica: ReplicaView<T>, message: MessageView<T>)
    requires
        replica.state is Candidate,
        message matches MessageView::AppendEntryRequest { term, .. } && term
            >= replica.current_term,
    ensures
        replica.message(message).state.state is Follower,
        message matches MessageView::AppendEntryRequest { term, .. } && replica.message(
            message,
        ).state.current_term == term,
{
}

/// An answer of a later term makes a follower, in that term, of a candidate that
/// asked for votes and of a leader that asked to append.
pub proof fn later_term_deposes<T>(replica: ReplicaView<T>, message: MessageView<T>, term: usize)
    requires
        term > replica.current_term,
        match message {
            MessageView::VoteResponse { term: t, .. } => replica.state is Candidate && t == term,
            MessageView::AppendEntryResponse { term: t, .. } => replica.state is Leader && t
                == term,
            _ => false,
        },
    ensures
        replica.message(message) == replica.step_down(term),
{
}

} // verus!
