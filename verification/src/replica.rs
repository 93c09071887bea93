//! The local instance that runs the Raft algorithm.

use crate::effect::{effect_views, emit, emit_all, no_effects, Effect, TransitionState};
use crate::message::{message_views, LogEntry, Message, MessageView};
use crate::model::{
    applied_effects, committed_effects, install, install_all, install_all_effects, install_effects,
    lemma_same_for_all_push, replicated_on, same_for_all, ReplicaView, State, Stored,
};
use crate::poll::{led, took_messages, waited, LeaderEvent, Step, WaitEvent};
use crate::random::random_between;
use crate::sharing::share;
use crate::timer::{time_until, wait_until, Timer};
use crate::ReplicaID;
use madsim::collections::{BTreeMap, BTreeSet};
use std::sync::Arc;
use vstd::prelude::*;

verus! {

broadcast use {
    vstd::std_specs::btree::group_btree_axioms,
    vstd::laws_cmp::group_laws_cmp,
};

/// A replica of the state machine. Its goal is to keep the state machine
/// consistent across the cluster. It decides; what it decides is handed out as
/// effects, and what happens around it comes in through its methods.
#[derive(Debug)]
pub struct Replica<T> {
    id: ReplicaID,
    peer_ids: Vec<ReplicaID>,
    current_term: usize,
    current_votes: Option<BTreeSet<ReplicaID>>,
    state: State,
    voted_for: Option<ReplicaID>,
    log: Vec<LogEntry<T>>,
    commit_index: usize,
    last_applied: usize,
    next_index: BTreeMap<ReplicaID, usize>,
    match_index: BTreeMap<ReplicaID, usize>,
    noop_transition: Arc<T>,
    heartbeat_timer: Timer,
    election_timeout: (u128, u128),
    next_election_deadline: u128,
}

impl<T> View for Replica<T> {
    type V = ReplicaView<T>;

    closed spec fn view(&self) -> ReplicaView<T> {
        ReplicaView {
            id: self.id,
            peer_ids: self.peer_ids@,
            current_term: self.current_term,
            current_votes: match self.current_votes {
                Some(votes) => Some(votes@),
                None => None,
            },
            state: self.state,
            voted_for: self.voted_for,
            log: self.log@,
            commit_index: self.commit_index,
            last_applied: self.last_applied,
            next_index: self.next_index@,
            match_index: self.match_index@,
            noop_transition: self.noop_transition,
            heartbeat_timer: self.heartbeat_timer,
            election_timeout: self.election_timeout,
            next_election_deadline: self.next_election_deadline,
        }
    }
}

impl<T> Replica<T> {
    /// The length of the log is one that the machine can count.
    pub proof fn log_fits_machine(&self)
        ensures
            self@.log.len() <= usize::MAX,
    {
        assert(self.log.len() == self.log@.len());
    }

    /// Follows in a term, with no vote cast.
    fn become_follower(&mut self, term: usize) -> (effects: Vec<Effect<T>>)
        requires
            old(self)@.wf(),
        ensures
            final(self)@.wf(),
            final(self)@ == old(self)@.become_follower(term).state,
            effect_views(effects@) == old(self)@.become_follower(term).effects,
    {
        let mut effects: Vec<Effect<T>> = no_effects();
        self.current_term = term;
        emit(&mut effects, Effect::StoreTerm { term });
        self.state = State::Follower;
        self.current_votes = None;
        self.voted_for = None;
        emit(&mut effects, Effect::StoreVote { vote: None });
        self.next_index = BTreeMap::new();
        self.match_index = BTreeMap::new();
        effects
    }

    /// Follows in the term of another replica; who leads in it is not known.
    fn step_down(&mut self, term: usize) -> (effects: Vec<Effect<T>>)
        requires
            old(self)@.wf(),
        ensures
            final(self)@.wf(),
            final(self)@ == old(self)@.step_down(term).state,
            effect_views(effects@) == old(self)@.step_down(term).effects,
    {
        let mut effects: Vec<Effect<T>> = no_effects();
        emit(&mut effects, Effect::RegisterLeader { leader_id: None });
        let followed = self.become_follower(term);
        emit_all(&mut effects, followed);
        effects
    }

    /// Leads, beginning with an entry of the current term, so that what earlier
    /// leaders left uncommitted can be committed along with it.
    fn become_leader(&mut self) -> (effects: Vec<Effect<T>>)
        requires
            old(self)@.wf(),
        ensures
            final(self)@.wf(),
            final(self)@ == old(self)@.become_leader().state,
            effect_views(effects@) == old(self)@.become_leader().effects,
    {
        let mut effects: Vec<Effect<T>> = no_effects();
        emit(&mut effects, Effect::RegisterLeader { leader_id: Some(self.id) });
        self.state = State::Leader;
        self.current_votes = None;
        self.voted_for = None;
        emit(&mut effects, Effect::StoreVote { vote: None });
        let next: usize = self.log.len();
        let mut next_index: BTreeMap<ReplicaID, usize> = BTreeMap::new();
        let mut match_index: BTreeMap<ReplicaID, usize> = BTreeMap::new();
        for i in 0..self.peer_ids.len()
            invariant
                next_index@ == same_for_all(self.peer_ids@.take(i as int), next),
                match_index@ == same_for_all(self.peer_ids@.take(i as int), 0),
        {
            let peer_id: ReplicaID = self.peer_ids[i];
            proof {
                let told = self.peer_ids@.take(i as int);
                assert(self.peer_ids@.take(i + 1) =~= told.push(peer_id));
                lemma_same_for_all_push(told, peer_id, next);
                lemma_same_for_all_push(told, peer_id, 0);
            }
            next_index.insert(peer_id, next);
            match_index.insert(peer_id, 0);
        }
        assert(self.peer_ids@.take(self.peer_ids@.len() as int) =~= self.peer_ids@);
        self.next_index = next_index;
        self.match_index = match_index;
        let entry = LogEntry {
            index: self.log.len(),
            term: self.current_term,
            transition: share(&self.noop_transition),
        };
        self.log.push(entry.clone());
        emit(&mut effects, Effect::PushEntry { entry });
        proof {
            self.log_fits_machine();
        }
        effects
    }

    /// Makes a message for every peer, in the order of the peers, and sends it.
    fn broadcast_message<F: Fn(ReplicaID) -> Message<T>>(&self, message_generator: F) -> (effects:
        Vec<Effect<T>>)
        requires
            forall|i: int|
                0 <= i < self@.peer_ids.len() ==> call_requires(
                    message_generator,
                    (#[trigger] self@.peer_ids[i],),
                ),
        ensures
            effects@.len() == self@.peer_ids.len(),
            forall|i: int|
                #![trigger effects@[i]]
                0 <= i < effects@.len() ==> (effects@[i] matches Effect::SendMessage {
                    to_id,
                    message,
                } && to_id == self@.peer_ids[i] && call_ensures(
                    message_generator,
                    (to_id,),
                    message,
                )),
    {
        let mut effects: Vec<Effect<T>> = Vec::new();
        for i in 0..self.peer_ids.len()
            invariant
                effects@.len() == i,
                forall|j: int|
                    0 <= j < self@.peer_ids.len() ==> call_requires(
                        message_generator,
                        (#[trigger] self@.peer_ids[j],),
                    ),
                forall|j: int|
                    #![trigger effects@[j]]
                    0 <= j < i ==> (effects@[j] matches Effect::SendMessage { to_id, message }
                        && to_id == self@.peer_ids[j] && call_ensures(
                        message_generator,
                        (to_id,),
                        message,
                    )),
        {
            let to_id: ReplicaID = self.peer_ids[i];
            assert(to_id == self@.peer_ids[i as int]);
            let message = message_generator(to_id);
            effects.push(Effect::SendMessage { to_id, message });
        }
        effects
    }

    /// Starts an election in the next term: votes for itself and asks every peer
    /// for its vote. Without peers the election is won at once.
    pub fn become_candidate(&mut self) -> (effects: Vec<Effect<T>>)
        requires
            old(self)@.wf(),
            !(old(self)@.state is Leader),
            old(self)@.current_term < usize::MAX,
        ensures
            final(self)@.wf(),
            final(self)@ == old(self)@.become_candidate().state,
            effect_views(effects@) == old(self)@.become_candidate().effects,
    {
        let mut effects: Vec<Effect<T>> = no_effects();
        self.current_term = self.current_term + 1;
        emit(&mut effects, Effect::StoreTerm { term: self.current_term });
        self.state = State::Candidate;
        let mut votes: BTreeSet<ReplicaID> = BTreeSet::new();
        votes.insert(self.id);
        self.current_votes = Some(votes);
        self.voted_for = Some(self.id);
        emit(&mut effects, Effect::StoreVote { vote: Some(self.id) });
        let ghost started = old(self)@.start_election().state;
        assert(self@ == started);
        let vote_request = |peer_id: ReplicaID| -> (message: Message<T>)
            ensures message@ == self@.vote_request()
        {
            Message::VoteRequest {
                from_id: self.id,
                term: self.current_term,
                last_log_index: self.log.len() - 1,
                last_log_term: self.log[self.log.len() - 1].term,
            }
        };
        let requests = self.broadcast_message(vote_request);
        assert(effect_views(requests@) =~= started.broadcast(
            |id: ReplicaID| started.vote_request(),
        ));
        emit_all(&mut effects, requests);
        if self.peer_ids.len() == 0 {
            let led = self.become_leader();
            emit_all(&mut effects, led);
        }
        effects
    }

    /// Answers a request for a vote.
    fn answer_vote(&self, to_id: ReplicaID, vote_granted: bool) -> (effect: Effect<T>)
        ensures
            effect@ == self@.answer_vote(to_id, vote_granted),
    {
        Effect::SendMessage {
            to_id,
            message: Message::VoteResponse {
                from_id: self.id,
                term: self.current_term,
                vote_granted,
            },
        }
    }

    /// Answers a request to append.
    fn answer_append(&self, to_id: ReplicaID, success: bool, mismatch_index: Option<usize>) -> (effect:
        Effect<T>)
        requires
            self@.wf(),
        ensures
            effect@ == self@.answer_append(to_id, success, mismatch_index),
    {
        Effect::SendMessage {
            to_id,
            message: Message::AppendEntryResponse {
                from_id: self.id,
                term: self.current_term,
                success,
                last_index: self.log.len() - 1,
                mismatch_index,
            },
        }
    }

    /// Takes a candidate's request for a vote as a follower.
    pub fn process_vote_request_as_follower(
        &mut self,
        from_id: ReplicaID,
        term: usize,
        last_log_index: usize,
        last_log_term: usize,
    ) -> (effects: Vec<Effect<T>>)
        requires
            old(self)@.wf(),
        ensures
            final(self)@.wf(),
            final(self)@ == old(self)@.vote_request_as_follower(
                from_id,
                term,
                last_log_index,
                last_log_term,
            ).state,
            effect_views(effects@) == old(self)@.vote_request_as_follower(
                from_id,
                term,
                last_log_index,
                last_log_term,
            ).effects,
    {
        let mut effects: Vec<Effect<T>> = no_effects();
        if self.current_term > term {
            // Do not vote for replicas that are behind.
            let refusal = self.answer_vote(from_id, false);
            emit(&mut effects, refusal);
            return effects;
        }
        if self.current_term < term {
            let moved = self.step_down(term);
            emit_all(&mut effects, moved);
        }
        let free = match self.voted_for {
            None => true,
            Some(candidate) => candidate == from_id,
        };
        let last: usize = self.log.len() - 1;
        if free && self.log[last].index <= last_log_index && self.log[last].term <= last_log_term {
            emit(&mut effects, Effect::RegisterLeader { leader_id: None });
            let vote = self.answer_vote(from_id, true);
            emit(&mut effects, vote);
            self.voted_for = Some(from_id);
            emit(&mut effects, Effect::StoreVote { vote: Some(from_id) });
        } else {
            let refusal = self.answer_vote(from_id, false);
            emit(&mut effects, refusal);
        }
        effects
    }

    /// Takes a leader's request to append as a follower.
    pub fn process_append_entry_request_as_follower(
        &mut self,
        from_id: ReplicaID,
        term: usize,
        prev_log_index: usize,
        prev_log_term: usize,
        entries: Vec<LogEntry<T>>,
        commit_index: usize,
    ) -> (effects: Vec<Effect<T>>)
        requires
            old(self)@.wf(),
        ensures
            final(self)@.wf(),
            final(self)@ == old(self)@.append_request_as_follower(
                from_id,
                term,
                prev_log_index,
                prev_log_term,
                entries@,
                commit_index,
            ).state,
            effect_views(effects@) == old(self)@.append_request_as_follower(
                from_id,
                term,
                prev_log_index,
                prev_log_term,
                entries@,
                commit_index,
            ).effects,
    {
        let mut effects: Vec<Effect<T>> = no_effects();
        if self.current_term > term {
            let refusal = self.answer_append(from_id, false, None);
            emit(&mut effects, refusal);
            return effects;
        }
        if prev_log_index >= self.log.len() || self.log[prev_log_index].term != prev_log_term {
            let refusal = self.answer_append(from_id, false, Some(prev_log_index));
            emit(&mut effects, refusal);
            return effects;
        }
        let ghost sent = entries@;
        for entry in it: entries
            invariant
                it.seq() == sent,
                self@ == (ReplicaView {
                    log: install_all(old(self)@.log, sent.take(it.index())),
                    ..old(self)@
                }),
                self@.log.len() > 0,
                effect_views(effects@) == install_all_effects(
                    old(self)@.log,
                    sent.take(it.index()),
                ),
        {
            let ghost before = self@;
            let ghost told = effect_views(effects@);
            // Drop local inconsistent entries.
            if entry.index < self.log.len() && entry.term != self.log[entry.index].term {
                self.log.truncate(entry.index);
                emit(&mut effects, Effect::TruncateEntries { index: entry.index });
            }
            // Push the received entry.
            if entry.index == self.log.len() {
                self.log.push(entry.clone());
                emit(&mut effects, Effect::PushEntry { entry });
            }
            proof {
                let next = sent.take(it.index() + 1);
                assert(next.drop_last() =~= sent.take(it.index()));
                assert(self@.log =~= install(before.log, next.last()));
                assert(effect_views(effects@) =~= told + install_effects(before.log, next.last()));
            }
        }
        assert(sent.take(sent.len() as int) =~= sent);
        let last: usize = self.log[self.log.len() - 1].index;
        if commit_index > self.commit_index {
            self.commit_index = if commit_index < last {
                commit_index
            } else {
                last
            };
        }
        emit(&mut effects, Effect::RegisterLeader { leader_id: Some(from_id) });
        proof {
            self.log_fits_machine();
        }
        let success = self.answer_append(from_id, true, None);
        emit(&mut effects, success);
        effects
    }

    fn process_message_as_follower(&mut self, message: Message<T>) -> (effects: Vec<Effect<T>>)
        requires
            old(self)@.wf(),
        ensures
            final(self)@.wf(),
            final(self)@ == old(self)@.message_as_follower(message@).state,
            effect_views(effects@) == old(self)@.message_as_follower(message@).effects,
    {
        match message {
            Message::VoteRequest { from_id, term, last_log_index, last_log_term } => {
                self.process_vote_request_as_follower(from_id, term, last_log_index, last_log_term)
            },
            Message::AppendEntryRequest {
                from_id,
                term,
                prev_log_index,
                prev_log_term,
                entries,
                commit_index,
            } => {
                self.process_append_entry_request_as_follower(
                    from_id,
                    term,
                    prev_log_index,
                    prev_log_term,
                    entries,
                    commit_index,
                )
            },
            Message::AppendEntryResponse { .. } => no_effects(),
            Message::VoteResponse { .. } => no_effects(),
        }
    }

    /// Takes the answer to a request for a vote as a candidate.
    pub fn process_vote_response_as_candidate(
        &mut self,
        from_id: ReplicaID,
        term: usize,
        vote_granted: bool,
    ) -> (effects: Vec<Effect<T>>)
        requires
            old(self)@.wf(),
        ensures
            final(self)@.wf(),
            final(self)@ == old(self)@.vote_response_as_candidate(
                from_id,
                term,
                vote_granted,
            ).state,
            effect_views(effects@) == old(self)@.vote_response_as_candidate(
                from_id,
                term,
                vote_granted,
            ).effects,
    {
        if term > self.current_term {
            return self.step_down(term);
        }
        if vote_granted {
            if let Some(mut votes) = self.current_votes.take() {
                votes.insert(from_id);
                let elected = (votes.len() as u128) * 2 > self.peer_ids.len() as u128 + 1;
                self.current_votes = Some(votes);
                if elected {
                    return self.become_leader();
                }
            }
        }
        no_effects()
    }

    fn process_vote_request_as_candidate(
        &mut self,
        term: usize,
        from_id: ReplicaID,
        message: Message<T>,
    ) -> (effects: Vec<Effect<T>>)
        requires
            old(self)@.wf(),
            old(self)@.state is Candidate,
            message@ matches MessageView::VoteRequest { from_id: f, term: t, .. } && f == from_id
                && t == term,
        ensures
            final(self)@.wf(),
            final(self)@ == old(self)@.message_as_candidate(message@).state,
            effect_views(effects@) == old(self)@.message_as_candidate(message@).effects,
    {
        if term > self.current_term {
            let mut effects = self.step_down(term);
            let followed = self.process_message_as_follower(message);
            emit_all(&mut effects, followed);
            effects
        } else {
            let mut effects: Vec<Effect<T>> = no_effects();
            let refusal = self.answer_vote(from_id, false);
            emit(&mut effects, refusal);
            effects
        }
    }

    fn process_append_entry_request_as_candidate(
        &mut self,
        term: usize,
        from_id: ReplicaID,
        message: Message<T>,
    ) -> (effects: Vec<Effect<T>>)
        requires
            old(self)@.wf(),
            old(self)@.state is Candidate,
            message@ matches MessageView::AppendEntryRequest { from_id: f, term: t, .. } && f
                == from_id && t == term,
        ensures
            final(self)@.wf(),
            final(self)@ == old(self)@.message_as_candidate(message@).state,
            effect_views(effects@) == old(self)@.message_as_candidate(message@).effects,
    {
        if term >= self.current_term {
            let mut effects = self.step_down(term);
            let followed = self.process_message_as_follower(message);
            emit_all(&mut effects, followed);
            effects
        } else {
            let mut effects: Vec<Effect<T>> = no_effects();
            let refusal = self.answer_append(from_id, false, None);
            emit(&mut effects, refusal);
            effects
        }
    }

    fn process_message_as_candidate(&mut self, message: Message<T>) -> (effects: Vec<Effect<T>>)
        requires
            old(self)@.wf(),
            old(self)@.state is Candidate,
        ensures
            final(self)@.wf(),
            final(self)@ == old(self)@.message_as_candidate(message@).state,
            effect_views(effects@) == old(self)@.message_as_candidate(message@).effects,
    {
        match message {
            Message::AppendEntryRequest { term, from_id, .. } => {
                self.process_append_entry_request_as_candidate(term, from_id, message)
            },
            Message::VoteRequest { term, from_id, .. } => {
                self.process_vote_request_as_candidate(term, from_id, message)
            },
            Message::VoteResponse { from_id, term, vote_granted } => {
                self.process_vote_response_as_candidate(from_id, term, vote_granted)
            },
            Message::AppendEntryResponse { .. } => no_effects(),
        }
    }

    fn process_message_as_leader(&mut self, message: Message<T>) -> (effects: Vec<Effect<T>>)
        requires
            old(self)@.wf(),
            old(self)@.state is Leader,
            old(self)@.understands(message@),
        ensures
            final(self)@.wf(),
            final(self)@ == old(self)@.message_as_leader(message@).state,
            effect_views(effects@) == old(self)@.message_as_leader(message@).effects,
    {
        match message {
            Message::AppendEntryResponse { from_id, success, term, last_index, mismatch_index } => {
                if term > self.current_term {
                    return self.step_down(term);
                }
                if success {
                    self.next_index.insert(from_id, last_index + 1);
                    self.match_index.insert(from_id, last_index);
                } else {
                    // The follower names as mismatch the index before the next
                    // one that it was sent, so a mismatch at or above the next
                    // index belongs to an answer that is out of date.
                    if let Some(mismatch) = mismatch_index {
                        let next: usize = *self.next_index.get(&from_id).unwrap();
                        if mismatch < next {
                            let retry: usize = if mismatch <= last_index {
                                mismatch
                            } else {
                                last_index + 1
                            };
                            self.next_index.insert(from_id, retry);
                        }
                    }
                }
                no_effects()
            },
            _ => no_effects(),
        }
    }

    /// Takes a message as the part that the replica plays calls for.
    pub fn process_message(&mut self, message: Message<T>) -> (effects: Vec<Effect<T>>)
        requires
            old(self)@.wf(),
            old(self)@.understands(message@),
        ensures
            final(self)@.wf(),
            final(self)@ == old(self)@.message(message@).state,
            effect_views(effects@) == old(self)@.message(message@).effects,
    {
        match self.state {
            State::Leader => self.process_message_as_leader(message),
            State::Candidate => self.process_message_as_candidate(message),
            State::Follower => self.process_message_as_follower(message),
        }
    }

    /// Takes messages one after the other, up to the first that the replica
    /// cannot make sense of.
    pub fn process_messages(&mut self, messages: Vec<Message<T>>) -> (step: Step<T>)
        requires
            old(self)@.wf(),
        ensures
            final(self)@.wf(),
            took_messages(old(self)@, message_views(messages@), final(self)@, step),
    {
        let mut effects: Vec<Effect<T>> = no_effects();
        let ghost received = message_views(messages@);
        for message in it: messages
            invariant
                it.seq() == messages@,
                received == message_views(messages@),
                self@.wf(),
                old(self)@.understood(received.take(it.index())) == it.index(),
                self@ == old(self)@.messages(received.take(it.index())).state,
                effect_views(effects@) == old(self)@.messages(received.take(it.index())).effects,
        {
            proof {
                let next = received.take(it.index() + 1);
                assert(next.drop_last() =~= received.take(it.index()));
                assert(next.last() == message@);
            }
            if !self.understands(&message) {
                proof {
                    old(self)@.lemma_understood_ends(received, it.index() + 1);
                }
                return Step { effects, completed: false };
            }
            let more = self.process_message(message);
            emit_all(&mut effects, more);
        }
        assert(received.take(received.len() as int) =~= received);
        Step { effects, completed: true }
    }

    /// Whether the replica can make sense of a message.
    pub fn understands(&self, message: &Message<T>) -> (understood: bool)
        ensures
            understood == self@.understands(message@),
    {
        match message {
            Message::AppendEntryResponse { from_id, term, success, last_index, mismatch_index } => {
                match self.state {
                    State::Leader => {
                        if *term > self.current_term {
                            true
                        } else if *success {
                            *last_index < usize::MAX
                        } else {
                            match (mismatch_index, self.next_index.get(from_id)) {
                                (None, _) => true,
                                (Some(_), None) => false,
                                (Some(mismatch), Some(next)) => {
                                    *mismatch >= *next || *last_index < usize::MAX
                                },
                            }
                        }
                    },
                    _ => true,
                }
            },
            _ => true,
        }
    }

    /// The entries that a peer has not acknowledged.
    pub fn get_entries_for_peer(&self, peer_id: ReplicaID) -> (entries: Vec<LogEntry<T>>)
        requires
            self@.can_send_to(peer_id),
        ensures
            entries@ == self@.entries_for(peer_id),
    {
        let next: usize = *self.next_index.get(&peer_id).unwrap();
        let mut entries: Vec<LogEntry<T>> = Vec::new();
        for i in next..self.log.len()
            invariant
                next <= self.log@.len(),
                entries@ == self.log@.subrange(next as int, i as int),
        {
            entries.push(self.log[i].clone());
            assert(self.log@.subrange(next as int, i + 1) =~= self.log@.subrange(
                next as int,
                i as int,
            ).push(self.log@[i as int]));
        }
        entries
    }

    /// Sends every peer the entries that it has not acknowledged; with none, the
    /// message is a heartbeat.
    pub fn broadcast_append_entry_request(&self) -> (effects: Vec<Effect<T>>)
        requires
            self@.can_send_to_all(),
        ensures
            effect_views(effects@) == self@.broadcast_append(),
    {
        let append_request = |peer_id: ReplicaID| -> (message: Message<T>)
            requires self@.can_send_to(peer_id)
            ensures message@ == self@.append_request(peer_id)
        {
            let next: usize = *self.next_index.get(&peer_id).unwrap();
            Message::AppendEntryRequest {
                from_id: self.id,
                term: self.current_term,
                prev_log_index: next - 1,
                prev_log_term: self.log[next - 1].term,
                entries: self.get_entries_for_peer(peer_id),
                commit_index: self.commit_index,
            }
        };
        let effects = self.broadcast_message(append_request);
        assert(effect_views(effects@) =~= self@.broadcast_append());
        effects
    }

    /// Whether there is, for every peer, an entry before the next one to send.
    pub fn can_send_to_all(&self) -> (able: bool)
        ensures
            able == self@.can_send_to_all(),
    {
        for i in 0..self.peer_ids.len()
            invariant
                forall|j: int| 0 <= j < i ==> self@.can_send_to(#[trigger] self@.peer_ids[j]),
        {
            let able = match self.next_index.get(&self.peer_ids[i]) {
                Some(next) => 1 <= *next && *next <= self.log.len(),
                None => false,
            };
            if !able {
                assert(!self@.can_send_to(self@.peer_ids[i as int]));
                return false;
            }
        }
        true
    }

    /// Takes new transitions into the log of a leader; others ignore them.
    pub fn load_new_transitions(&mut self, transitions: Vec<Arc<T>>) -> (effects: Vec<Effect<T>>)
        requires
            old(self)@.wf(),
        ensures
            final(self)@.wf(),
            final(self)@ == old(self)@.load_transitions(transitions@).state,
            effect_views(effects@) == old(self)@.load_transitions(transitions@).effects,
    {
        let mut effects: Vec<Effect<T>> = no_effects();
        let ghost new = transitions@;
        for transition in it: transitions
            invariant
                it.seq() == new,
                self@.wf(),
                self@ == old(self)@.load_transitions(new.take(it.index())).state,
                effect_views(effects@) == old(self)@.load_transitions(
                    new.take(it.index()),
                ).effects,
        {
            let ghost before = self@;
            let ghost after = new.take(it.index() + 1);
            if self.state == State::Leader {
                let entry = LogEntry {
                    index: self.log.len(),
                    term: self.current_term,
                    transition: share(&transition),
                };
                self.log.push(entry.clone());
                emit(&mut effects, Effect::PushEntry { entry });
                emit(
                    &mut effects,
                    Effect::RegisterTransitionState {
                        transition,
                        state: TransitionState::Queued,
                    },
                );
            }
            proof {
                self.log_fits_machine();
                assert(self@ == (ReplicaView { log: self@.log, ..before }));
                assert(self@.log =~= old(self)@.load_transitions(after).state.log);
                assert(effect_views(effects@) =~= old(self)@.load_transitions(after).effects);
            }
        }
        assert(new.take(new.len() as int) =~= new);
        effects
    }

    /// The number of replicas that are known to hold the log up to `index`.
    fn count_replications(&self, index: usize) -> (count: usize)
        ensures
            count == replicated_on(self@.match_index, index).len(),
            count <= self@.match_index.len(),
    {
        let total: usize = self.match_index.len();
        let mut count: usize = 0;
        let ghost mut found: Set<ReplicaID> = Set::empty();
        for replicated in it: self.match_index.iter()
            invariant
                total == self.match_index@.len(),
                it.seq().len() == total,
                it.seq().no_duplicates(),
                forall|i: int|
                    0 <= i < it.seq().len() ==> self.match_index@[*(#[trigger] it.seq()[i]).0]
                        == *it.seq()[i].1,
                found.finite(),
                count == found.len(),
                count <= it.index(),
                forall|id: ReplicaID| #[trigger]
                    found.contains(id) <==> exists|i: int|
                        0 <= i < it.index() && *(#[trigger] it.seq()[i]).0 == id
                            && self.match_index@[id] >= index,
        {
            if *replicated.1 >= index {
                count = count + 1;
                proof {
                    found = found.insert(*replicated.0);
                }
            }
        }
        assert(found =~= replicated_on(self@.match_index, index));
        count
    }

    /// Whether the log holds every entry that is committed but not applied.
    pub fn can_apply(&self) -> (able: bool)
        ensures
            able == self@.can_apply(),
    {
        self.commit_index < self.log.len() || self.commit_index <= self.last_applied
    }

    /// Moves the commit index of a leader to the latest entry of its term that
    /// the majority of the replicas hold, and applies what is committed.
    pub fn apply_ready_entries(&mut self) -> (effects: Vec<Effect<T>>)
        requires
            old(self)@.wf(),
            old(self)@.can_apply(),
        ensures
            final(self)@.wf(),
            old(self)@.moves_commit_to(final(self)@.commit_index),
            final(self)@ == old(self)@.apply_up_to(final(self)@.commit_index).state,
            effect_views(effects@) == old(self)@.apply_up_to(
                final(self)@.commit_index,
            ).effects,
    {
        let mut effects: Vec<Effect<T>> = no_effects();
        let ghost start = self@;
        if self.state == State::Leader && self.commit_index < self.log.len() - 1 {
            let mut n: usize = self.log.len() - 1;
            let old_commit_index: usize = self.commit_index;
            while n > self.commit_index
                invariant
                    start.wf(),
                    start.state is Leader,
                    old_commit_index == start.commit_index,
                    old_commit_index <= self@.commit_index < start.log.len(),
                    n < start.log.len(),
                    n + 1 >= self@.commit_index,
                    self@ == (ReplicaView { commit_index: self@.commit_index, ..start }),
                    old_commit_index < self@.commit_index ==> start.committable(
                        self@.commit_index,
                    ),
                    forall|m: usize|
                        n < m < start.log.len() && m > self@.commit_index
                            ==> !#[trigger] start.committable(m),
                decreases n,
            {
                let num_replications: usize = self.count_replications(n);
                if (num_replications as u128) * 2 >= self.peer_ids.len() as u128
                    && self.log[n].term == self.current_term {
                    self.commit_index = n;
                }
                n = n - 1;
            }
            let mut i: usize = old_commit_index;
            while i < self.commit_index
                invariant
                    old_commit_index <= i <= self@.commit_index < start.log.len(),
                    self@ == (ReplicaView { commit_index: self@.commit_index, ..start }),
                    effect_views(effects@) == committed_effects(
                        start.log,
                        old_commit_index,
                        i,
                    ),
                decreases self@.commit_index - i,
            {
                i = i + 1;
                emit(
                    &mut effects,
                    Effect::RegisterTransitionState {
                        transition: share(&self.log[i].transition),
                        state: TransitionState::Committed,
                    },
                );
                assert(effect_views(effects@) =~= committed_effects(
                    start.log,
                    old_commit_index,
                    i,
                ));
            }
        }
        let ghost committed = effect_views(effects@);
        let ghost commit_index = self@.commit_index;
        assert(committed =~= committed_effects(start.log, start.commit_index, commit_index));
        assert(start.moves_commit_to(commit_index));
        while self.commit_index > self.last_applied
            invariant
                start.wf(),
                start.last_applied <= self@.last_applied,
                self@.last_applied < commit_index ==> commit_index < start.log.len(),
                self@.last_applied <= commit_index || self@.last_applied == start.last_applied,
                self@ == (ReplicaView {
                    commit_index,
                    last_applied: self@.last_applied,
                    ..start
                }),
                effect_views(effects@) == committed + applied_effects(
                    start.log,
                    start.last_applied,
                    self@.last_applied,
                ),
            decreases commit_index - self@.last_applied,
        {
            self.last_applied = self.last_applied + 1;
            let transition = share(&self.log[self.last_applied].transition);
            emit(&mut effects, Effect::ApplyTransition { transition });
            let transition = share(&self.log[self.last_applied].transition);
            emit(
                &mut effects,
                Effect::RegisterTransitionState { transition, state: TransitionState::Applied },
            );
            assert(effect_views(effects@) =~= committed + applied_effects(
                start.log,
                start.last_applied,
                self@.last_applied,
            ));
        }
        effects
    }

    /// Sets the election deadline to `timeout` after `now`.
    pub fn set_election_deadline(&mut self, now: u128, timeout: u128)
        requires
            now + timeout <= u128::MAX,
        ensures
            final(self)@ == old(self)@.with_deadline((now + timeout) as u128),
    {
        self.next_election_deadline = now + timeout;
    }

    /// Sets the election deadline to a random timeout of the allowed range after
    /// `now`. Which timeout it is rests on chance.
    pub fn update_election_deadline(&mut self, now: u128)
        requires
            old(self)@.can_wait(now),
        ensures
            final(self)@ == old(self)@.with_deadline(final(self)@.next_election_deadline),
            old(self)@.waits_until(now, final(self)@.next_election_deadline),
    {
        let timeout = random_between(self.election_timeout.0, self.election_timeout.1);
        self.set_election_deadline(now, timeout);
    }

    /// Whether the election deadline can be set at `now`.
    pub fn can_wait(&self, now: u128) -> (able: bool)
        ensures
            able == self@.can_wait(now),
    {
        self.election_timeout.0 <= self.election_timeout.1 && self.election_timeout.1 <= u128::MAX
            - now
    }

    /// How long a follower or a candidate waits at `now` for messages before it
    /// starts an election.
    pub fn time_to_die(&self, now: u128) -> (left: u128)
        ensures
            left == wait_until(self@.next_election_deadline, now),
    {
        time_until(self.next_election_deadline, now)
    }

    /// How long a leader waits at `now` before it sends a heartbeat.
    pub fn time_to_heartbeat(&self, now: u128) -> (left: u128)
        ensures
            left == wait_until(self@.heartbeat_timer.deadline, now),
    {
        self.heartbeat_timer.time_left(now)
    }

    /// What a replica that does not lead makes of what it waited for. Messages
    /// put the election off; their absence starts it.
    fn poll_waiting(&mut self, event: WaitEvent<T>, now: u128) -> (step: Step<T>)
        requires
            old(self)@.wf(),
            !(old(self)@.state is Leader),
        ensures
            final(self)@.wf(),
            waited(old(self)@, event, now, final(self)@, step),
    {
        match event {
            WaitEvent::Messages(messages) => {
                if messages.len() != 0 {
                    if !self.can_wait(now) {
                        return Step { effects: no_effects(), completed: false };
                    }
                    self.update_election_deadline(now);
                }
                let ghost received = message_views(messages@);
                let ghost waiting = self@;
                let step = self.process_messages(messages);
                proof {
                    waiting.lemma_messages_keep_deadline(
                        received.take(waiting.understood(received) as int),
                    );
                }
                step
            },
            WaitEvent::Timeout => {
                if self.current_term == usize::MAX {
                    return Step { effects: no_effects(), completed: false };
                }
                let effects = self.become_candidate();
                if !self.can_wait(now) {
                    return Step { effects, completed: false };
                }
                self.update_election_deadline(now);
                Step { effects, completed: true }
            },
        }
    }

    /// What a follower makes of what it waited for.
    pub fn poll_as_follower(&mut self, event: WaitEvent<T>, now: u128) -> (step: Step<T>)
        requires
            old(self)@.wf(),
            old(self)@.state is Follower,
        ensures
            final(self)@.wf(),
            waited(old(self)@, event, now, final(self)@, step),
    {
        self.poll_waiting(event, now)
    }

    /// What a candidate makes of what it waited for.
    pub fn poll_as_candidate(&mut self, event: WaitEvent<T>, now: u128) -> (step: Step<T>)
        requires
            old(self)@.wf(),
            old(self)@.state is Candidate,
        ensures
            final(self)@.wf(),
            waited(old(self)@, event, now, final(self)@, step),
    {
        self.poll_waiting(event, now)
    }

    /// What a leader makes of what it waited for: it takes messages, and it sends
    /// its peers what they lack when transitions come in and when a heartbeat is due.
    pub fn poll_as_leader(&mut self, event: LeaderEvent<T>, now: u128) -> (step: Step<T>)
        requires
            old(self)@.wf(),
            old(self)@.state is Leader,
        ensures
            final(self)@.wf(),
            led(old(self)@, event, now, final(self)@, step),
    {
        match event {
            LeaderEvent::Messages(messages) => self.process_messages(messages),
            LeaderEvent::Transitions(transitions) => {
                let mut effects = self.load_new_transitions(transitions);
                if !self.can_send_to_all() {
                    return Step { effects, completed: false };
                }
                let requests = self.broadcast_append_entry_request();
                emit_all(&mut effects, requests);
                Step { effects, completed: true }
            },
            LeaderEvent::Heartbeat => {
                if !self.can_send_to_all() {
                    return Step { effects: no_effects(), completed: false };
                }
                let effects = self.broadcast_append_entry_request();
                self.heartbeat_timer.renew(now);
                Step { effects, completed: true }
            },
        }
    }

    /// Creates a replica.
    ///
    /// `id` is the ID of the replica within the cluster, `peer_ids` are those of
    /// all other replicas. `noop_transition` can be applied any number of times
    /// without effect. A leader sends heartbeats every `heartbeat_timeout`. A
    /// replica that gets no message within a timeout of `election_timeout_range`
    /// starts an election; two to three times the heartbeat timeout is a good
    /// choice. `stored` is what the storage holds. All times are in nanoseconds.
    pub fn new(
        id: ReplicaID,
        peer_ids: Vec<ReplicaID>,
        noop_transition: Arc<T>,
        heartbeat_timeout: u128,
        election_timeout_range: (u128, u128),
        stored: Stored<T>,
        now: u128,
    ) -> (created: (Replica<T>, Vec<Effect<T>>))
        requires
            stored.last_index != 0 ==> stored.entries@.len() > 0,
        ensures
            created.0@.wf(),
            ({
                let outcome = ReplicaView::start(
                    id,
                    peer_ids@,
                    noop_transition,
                    heartbeat_timeout,
                    election_timeout_range,
                    stored,
                    now,
                );
                &&& created.0@ == outcome.state
                &&& effect_views(created.1@) == outcome.effects
            }),
    {
        let mut effects: Vec<Effect<T>> = no_effects();
        let log = if stored.last_index != 0 {
            stored.entries
        } else {
            let first = LogEntry { index: 0, term: 0, transition: share(&noop_transition) };
            let mut log: Vec<LogEntry<T>> = Vec::new();
            log.push(first.clone());
            emit(&mut effects, Effect::PushEntry { entry: first });
            log
        };
        let replica = Replica {
            id,
            peer_ids,
            current_term: stored.term,
            current_votes: None,
            state: State::Follower,
            voted_for: stored.vote,
            log,
            commit_index: 0,
            last_applied: 0,
            next_index: BTreeMap::new(),
            match_index: BTreeMap::new(),
            noop_transition,
            heartbeat_timer: Timer::new(heartbeat_timeout, now),
            election_timeout: election_timeout_range,
            next_election_deadline: now,
        };
        proof {
            replica.log_fits_machine();
        }
        (replica, effects)
    }

    /// The part that the replica plays.
    pub fn state(&self) -> (state: State)
        ensures
            state == self@.state,
    {
        self.state
    }
}

} // verus!
