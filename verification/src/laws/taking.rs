//! Laws about which part takes a message, what a leader makes of answers, and how messages
//! come one after the other.

use crate::effect::EffectView;
use crate::message::{LogEntry, MessageView};
use crate::model::{ReplicaView, State};
use crate::ReplicaID;
use vstd::prelude::*;

verus! {

/// A follower takes a request for a vote and a request to append as such.
pub proof fn follower_takes_requests<T>(
    replica: ReplicaView<T>,
    from_id: ReplicaID,
    term: usize,
    prev_log_index: usize,
    prev_log_term: usize,
    entries: Seq<LogEntry<T>>,
    commit_index: usize,
)
    requires
        replica.state == State::Follower,
    ensures
        replica.message(
            MessageView::VoteRequest {
                from_id,
                term,
                last_log_index: prev_log_index,
                last_log_term: prev_log_term,
            },
        ) == replica.vote_request_as_follower(from_id, term, prev_log_index, prev_log_term),
        replica.message(
            MessageView::AppendEntryRequest {
                from_id,
                term,
                prev_log_index,
                prev_log_term,
                entries,
                commit_index,
            },
        ) == replica.append_request_as_follower(
            from_id,
            term,
            prev_log_index,
            prev_log_term,
            entries,
            commit_index,
        ),
{
}

/// Messages that are none of a replica's business change nothing and have nothing done:
/// answers for a follower, an answer to a request to append for a candidate, and for a
/// leader everything but such an answer.
pub proof fn other_messages_are_ignored<T>(replica: ReplicaView<T>, message: MessageView<T>)
    requires
        match replica.state {
            State::Follower => message is VoteResponse || message is AppendEntryResponse,
            State::Candidate => message is AppendEntryResponse,
            State::Leader => !(message is AppendEntryResponse),
        },
    ensures
        replica.message(message).state == replica,
        replica.message(message).effects.len() == 0,
{
}

/// A candidate takes an answer to its request for votes as such.
pub proof fn candidate_takes_votes<T>(
    replica: ReplicaView<T>,
    from_id: ReplicaID,
    term: usize,
    vote_granted: bool,
)
    requires
        replica.state == State::Candidate,
    ensures
        replica.message(MessageView::VoteResponse { from_id, term, vote_granted })
            == replica.vote_response_as_candidate(from_id, term, vote_granted),
{
}

/// A candidate becomes a follower in the term of a leader that is not behind it and of a
/// candidate that is ahead of it, with no vote cast, which it stores; then it takes their
/// request as a follower in that term does.
pub proof fn candidate_gives_way<T>(replica: ReplicaView<T>, message: MessageView<T>, term: usize)
    requires
        replica.state == State::Candidate,
        match message {
            MessageView::AppendEntryRequest { term: t, .. } => t == term && term
                >= replica.current_term,
            MessageView::VoteRequest { term: t, .. } => t == term && term > replica.current_term,
            _ => false,
        },
    ensures
        ({
            let follower = ReplicaView {
                current_term: term,
                state: State::Follower,
                current_votes: None,
                voted_for: None,
                next_index: Map::empty(),
                match_index: Map::empty(),
                ..replica
            };
            &&& replica.message(message).state == follower.message(message).state
            &&& replica.message(message).effects == seq![
                EffectView::<T>::RegisterLeader { leader_id: None },
                EffectView::<T>::StoreTerm { term },
                EffectView::<T>::StoreVote { vote: None },
            ] + follower.message(message).effects
        }),
{
    assert(replica.step_down(term).effects =~= seq![
        EffectView::<T>::RegisterLeader { leader_id: None },
        EffectView::<T>::StoreTerm { term },
        EffectView::<T>::StoreVote { vote: None },
    ]);
}

/// A candidate refuses a leader that is behind it and a candidate that is not ahead of it;
/// nothing changes.
pub proof fn candidate_refuses<T>(replica: ReplicaView<T>, message: MessageView<T>)
    requires
        replica.state == State::Candidate,
        match message {
            MessageView::AppendEntryRequest { term, .. } => term < replica.current_term,
            MessageView::VoteRequest { term, .. } => term <= replica.current_term,
            _ => false,
        },
    ensures
        replica.message(message).state == replica,
        match message {
            MessageView::AppendEntryRequest { from_id, .. } => replica.message(message).effects
                == seq![
                EffectView::<T>::SendMessage {
                    to_id: from_id,
                    message: MessageView::AppendEntryResponse {
                        from_id: replica.id,
                        term: replica.current_term,
                        success: false,
                        last_index: (replica.log.len() - 1) as usize,
                        mismatch_index: None,
                    },
                },
            ],
            MessageView::VoteRequest { from_id, .. } => replica.message(message).effects == seq![
                EffectView::<T>::SendMessage {
                    to_id: from_id,
                    message: MessageView::VoteResponse {
                        from_id: replica.id,
                        term: replica.current_term,
                        vote_granted: false,
                    },
                },
            ],
            _ => true,
        },
{
}

/// An answer of a later term makes a leader a follower in that term, with no vote cast,
/// which it stores.
pub proof fn leader_gives_way<T>(
    replica: ReplicaView<T>,
    from_id: ReplicaID,
    term: usize,
    success: bool,
    last_index: usize,
    mismatch_index: Option<usize>,
)
    requires
        replica.state == State::Leader,
        term > replica.current_term,
    ensures
        ({
            let outcome = replica.message(
                MessageView::AppendEntryResponse {
                    from_id,
                    term,
                    success,
                    last_index,
                    mismatch_index,
                },
            );
            &&& outcome.state == (ReplicaView {
                current_term: term,
                state: State::Follower,
                current_votes: None,
                voted_for: None,
                next_index: Map::empty(),
                match_index: Map::empty(),
                ..replica
            })
            &&& outcome.effects == seq![
                EffectView::<T>::RegisterLeader { leader_id: None },
                EffectView::<T>::StoreTerm { term },
                EffectView::<T>::StoreVote { vote: None },
            ]
        }),
{
    assert(replica.step_down(term).effects =~= seq![
        EffectView::<T>::RegisterLeader { leader_id: None },
        EffectView::<T>::StoreTerm { term },
        EffectView::<T>::StoreVote { vote: None },
    ]);
}

/// What a leader knows of its peers after an answer that is not of a later term. A success
/// tells how far the log of that peer goes and what it is sent next. A mismatch below the
/// next entry to send takes that entry back to the mismatch, or to the end of the peer's
/// log if that comes first. Any other answer changes nothing. Of all other replicas, and
/// in all else, everything stays, and nothing is done.
pub proof fn leader_notes_answer<T>(
    replica: ReplicaView<T>,
    from_id: ReplicaID,
    term: usize,
    success: bool,
    last_index: usize,
    mismatch_index: Option<usize>,
)
    requires
        replica.state == State::Leader,
        term <= replica.current_term,
        success ==> last_index < usize::MAX,
        !success ==> (mismatch_index matches Some(mismatch) ==> {
            &&& replica.next_index.contains_key(from_id)
            &&& mismatch < replica.next_index[from_id] ==> last_index < usize::MAX
        }),
    ensures
        ({
            let outcome = replica.message(
                MessageView::AppendEntryResponse {
                    from_id,
                    term,
                    success,
                    last_index,
                    mismatch_index,
                },
            );
            let after = outcome.state;
            let next = replica.next_index[from_id];
            &&& outcome.effects.len() == 0
            &&& after == (ReplicaView {
                next_index: after.next_index,
                match_index: after.match_index,
                ..replica
            })
            &&& forall|id: ReplicaID|
                #![trigger after.next_index.contains_key(id)]
                #![trigger after.match_index.contains_key(id)]
                id != from_id ==> {
                    &&& after.next_index.contains_key(id) == replica.next_index.contains_key(id)
                    &&& after.next_index[id] == replica.next_index[id]
                    &&& after.match_index.contains_key(id) == replica.match_index.contains_key(id)
                    &&& after.match_index[id] == replica.match_index[id]
                }
            &&& success ==> {
                &&& after.next_index.contains_key(from_id)
                &&& after.next_index[from_id] == last_index + 1
                &&& after.match_index.contains_key(from_id)
                &&& after.match_index[from_id] == last_index
            }
            &&& !success ==> {
                &&& after.match_index == replica.match_index
                &&& after.next_index.dom() == replica.next_index.dom()
                &&& mismatch_index is None ==> after.next_index == replica.next_index
                &&& mismatch_index matches Some(mismatch) ==> {
                    &&& mismatch >= next ==> after.next_index == replica.next_index
                    &&& mismatch < next && mismatch <= last_index + 1
                        ==> after.next_index[from_id] == mismatch
                    &&& mismatch < next && mismatch > last_index + 1
                        ==> after.next_index[from_id] == last_index + 1
                }
            }
        }),
{
}

/// A replica can make sense of every message, except that a leader cannot of an answer, not
/// of a later term, that is a success at the last index that there is, nor of a mismatch
/// from a replica it does not keep track of, nor of one that is not out of date and names
/// that last index as the peer's.
pub proof fn what_is_understood<T>(replica: ReplicaView<T>, message: MessageView<T>)
    ensures
        !replica.understands(message) <==> {
            &&& replica.state == State::Leader
            &&& message matches MessageView::AppendEntryResponse {
                from_id,
                term,
                success,
                last_index,
                mismatch_index,
            }
            &&& term <= replica.current_term
            &&& {
                ||| success && last_index == usize::MAX
                ||| !success && mismatch_index is Some && !replica.next_index.contains_key(from_id)
                ||| !success && mismatch_index is Some && mismatch_index->0
                    < replica.next_index[from_id] && last_index == usize::MAX
            }
        },
{
}

/// No messages change nothing. One more message after others is taken in the state that
/// they lead to, and what it has done comes after what they have done.
pub proof fn messages_come_one_by_one<T>(
    replica: ReplicaView<T>,
    messages: Seq<MessageView<T>>,
    message: MessageView<T>,
)
    ensures
        replica.messages(seq![]).state == replica,
        replica.messages(seq![]).effects.len() == 0,
        ({
            let before = replica.messages(messages);
            let after = replica.messages(messages.push(message));
            &&& after.state == before.state.message(message).state
            &&& after.effects == before.effects + before.state.message(message).effects
        }),
{
    assert(messages.push(message).drop_last() =~= messages);
}

/// The number of messages that a replica takes is the number before the first that it
/// cannot make sense of: it can of each before, in the state that those before lead to.
pub proof fn messages_are_understood_up_to_the_first<T>(
    replica: ReplicaView<T>,
    messages: Seq<MessageView<T>>,
)
    ensures
        ({
            let count = replica.understood(messages) as int;
            &&& 0 <= count <= messages.len()
            &&& forall|k: int|
                0 <= k < count ==> replica.messages(#[trigger] messages.take(k)).state.understands(
                    messages[k],
                )
            &&& count < messages.len() ==> !replica.messages(
                messages.take(count),
            ).state.understands(messages[count])
        }),
    decreases messages.len(),
{
    if messages.len() > 0 {
        let before = messages.drop_last();
        messages_are_understood_up_to_the_first(replica, before);
        let count = replica.understood(messages) as int;
        let earlier = replica.understood(before) as int;
        assert forall|k: int| 0 <= k < count implies replica.messages(
            #[trigger] messages.take(k),
        ).state.understands(messages[k]) by {
            assert(messages.take(k) =~= before.take(k));
            if k < before.len() {
                assert(replica.messages(before.take(k)).state.understands(before[k]));
            } else {
                assert(before.take(k) =~= before);
            }
        }
        if count < messages.len() {
            if earlier == before.len() {
                assert(messages.take(count) =~= before);
            } else {
                assert(messages.take(count) =~= before.take(earlier));
                assert(messages[count] == before[earlier]);
            }
        }
    }
}

/// There is one such number.
pub(crate) proof fn lemma_understood_is<T>(
    replica: ReplicaView<T>,
    messages: Seq<MessageView<T>>,
    count: int,
)
    requires
        0 <= count <= messages.len(),
        forall|k: int|
            0 <= k < count ==> replica.messages(#[trigger] messages.take(k)).state.understands(
                messages[k],
            ),
        count < messages.len() ==> !replica.messages(messages.take(count)).state.understands(
            messages[count],
        ),
    ensures
        replica.understood(messages) == count,
{
    messages_are_understood_up_to_the_first(replica, messages);
    let understood = replica.understood(messages) as int;
    if count < understood {
        assert(replica.messages(messages.take(count)).state.understands(messages[count]));
    } else if understood < count {
        assert(replica.messages(messages.take(understood)).state.understands(
            messages[understood],
        ));
    }
}

} // verus!
