//! Log entries and the messages that replicas exchange.

use crate::sharing::share;
use crate::ReplicaID;
use std::sync::Arc;
use vstd::prelude::*;

verus! {

/// One entry of the replicated log.
#[derive(Debug, PartialEq)]
pub struct LogEntry<T> {
    /// Position of the entry in the log.
    pub index: usize,
    /// Term in which a leader appended the entry.
    pub term: usize,
    /// What the entry does to the state machine.
    pub transition: Arc<T>,
}

impl<T> Clone for LogEntry<T> {
    /// The same entry again; the transition is shared, not copied.
    fn clone(&self) -> (entry: LogEntry<T>)
        ensures
            entry == *self,
    {
        LogEntry { index: self.index, term: self.term, transition: share(&self.transition) }
    }
}

/// What replicas say to each other.
#[derive(Debug, PartialEq)]
pub enum Message<T> {
    /// A leader asks to append entries; with no entries it is a heartbeat.
    AppendEntryRequest {
        /// The leader.
        from_id: ReplicaID,
        /// Term of the leader.
        term: usize,
        /// Index of the entry that comes right before the sent ones.
        prev_log_index: usize,
        /// Term of that entry.
        prev_log_term: usize,
        /// The entries to append.
        entries: Vec<LogEntry<T>>,
        /// Commit index of the leader.
        commit_index: usize,
    },
    /// The answer to a request to append.
    AppendEntryResponse {
        /// The replica that answers.
        from_id: ReplicaID,
        /// Its term.
        term: usize,
        /// Whether its log matched and now holds the entries.
        success: bool,
        /// Index of the last entry of its log.
        last_index: usize,
        /// Where its log did not match the leader's.
        mismatch_index: Option<usize>,
    },
    /// A candidate asks for a vote.
    VoteRequest {
        /// The candidate.
        from_id: ReplicaID,
        /// Term of the election.
        term: usize,
        /// Index of the last entry of the candidate's log.
        last_log_index: usize,
        /// Term of that entry.
        last_log_term: usize,
    },
    /// The answer to a request for a vote.
    VoteResponse {
        /// The replica that answers.
        from_id: ReplicaID,
        /// Its term.
        term: usize,
        /// Whether it votes for the candidate.
        vote_granted: bool,
    },
}

/// A message with its entries as a sequence.
#[verifier::ext_equal]
pub enum MessageView<T> {
    AppendEntryRequest {
        from_id: ReplicaID,
        term: usize,
        prev_log_index: usize,
        prev_log_term: usize,
        entries: Seq<LogEntry<T>>,
        commit_index: usize,
    },
    AppendEntryResponse {
        from_id: ReplicaID,
        term: usize,
        success: bool,
        last_index: usize,
        mismatch_index: Option<usize>,
    },
    VoteRequest {
        from_id: ReplicaID,
        term: usize,
        last_log_index: usize,
        last_log_term: usize,
    },
    VoteResponse { from_id: ReplicaID, term: usize, vote_granted: bool },
}

impl<T> View for Message<T> {
    type V = MessageView<T>;

    open spec fn view(&self) -> MessageView<T> {
        match *self {
            Message::AppendEntryRequest {
                from_id,
                term,
                prev_log_index,
                prev_log_term,
                entries,
                commit_index,
            } => MessageView::AppendEntryRequest {
                from_id,
                term,
                prev_log_index,
                prev_log_term,
                entries: entries@,
                commit_index,
            },
            Message::AppendEntryResponse { from_id, term, success, last_index, mismatch_index } =>
                MessageView::AppendEntryResponse {
                    from_id,
                    term,
                    success,
                    last_index,
                    mismatch_index,
                },
            Message::VoteRequest { from_id, term, last_log_index, last_log_term } =>
                MessageView::VoteRequest { from_id, term, last_log_index, last_log_term },
            Message::VoteResponse { from_id, term, vote_granted } => MessageView::VoteResponse {
                from_id,
                term,
                vote_granted,
            },
        }
    }
}

/// The views of a sequence of messages.
pub open spec fn message_views<T>(messages: Seq<Message<T>>) -> Seq<MessageView<T>> {
    messages.map_values(|message: Message<T>| message@)
}

} // verus!
