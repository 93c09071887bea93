//! What happens to one replica keeps it fitting the record.

use crate::laws::consistency::{
    agree_up_to, in_line_with, installing_follows_log, matching, request_brings_leader_log,
};
use crate::laws::elections::majorities_meet;
use crate::laws::events::{numbered, Input};
use crate::laws::fitting::{member, no_further, reach};
use crate::laws::growth::extended;
use crate::laws::record::{majority, Record};
use crate::laws::world::acknowledges;
use crate::message::{LogEntry, MessageView};
use crate::model::{replicated_on, ReplicaView, State};
use crate::ReplicaID;
use vstd::prelude::*;

verus! {

impl<T> Record<T> {
    /// A record grows into itself.
    pub(crate) proof fn lemma_stays(self, ids: Set<ReplicaID>, actor: ReplicaID, term: usize)
        requires
            self.wf(ids),
        ensures
            self.grows_into(self, actor, term),
            self.new_wf(self, ids, actor, term),
    {
        assert forall|t: usize| #[trigger] self.logs.contains_key(t) implies extended(
            self.logs[t],
            self.logs[t],
            t,
        ) by {
            assert(self.logs[t].take(self.logs[t].len() as int) =~= self.logs[t]);
        }
    }

    /// A replica that gives up for a later term, or as a candidate for its own, fits.
    pub(crate) proof fn lemma_step_down_fits(
        self,
        ids: Set<ReplicaID>,
        id: ReplicaID,
        replica: ReplicaView<T>,
        term: usize,
    )
        requires
            self.wf(ids),
            self.fits(ids, id, replica),
            replica.current_term < term || replica.current_term == term && replica.state
                is Candidate,
        ensures
            self.fits(ids, id, replica.step_down(term).state),
    {
        let next = replica.step_down(term).state;
        assert(self.lead_fits(ids, id, next));
        assert(self.votes_fit(id, next));
        assert(self.candidacy_fits(ids, id, next)) by {
            assert forall|voter: ReplicaID, t: usize| #[trigger]
                self.grants.contains_key((voter, t)) && self.grants[(voter, t)]
                    == id implies self.vote_fits(voter, t, next) by {
                assert(self.vote_fits(voter, t, replica));
            }
        }
        self.lemma_term_grows(ids, id, replica, next);
    }

    /// A replica that starts again on its storage fits.
    pub(crate) proof fn lemma_restart_fits(
        self,
        ids: Set<ReplicaID>,
        id: ReplicaID,
        replica: ReplicaView<T>,
        next: ReplicaView<T>,
    )
        requires
            self.wf(ids),
            self.fits(ids, id, replica),
            next == (ReplicaView {
                current_votes: None,
                state: State::Follower,
                commit_index: 0,
                last_applied: 0,
                next_index: Map::empty(),
                match_index: Map::empty(),
                heartbeat_timer: next.heartbeat_timer,
                election_timeout: next.election_timeout,
                next_election_deadline: next.next_election_deadline,
                ..replica
            }),
        ensures
            self.fits(ids, id, next),
    {
        assert(self.lead_fits(ids, id, next));
        assert(self.votes_fit(id, next));
        assert(self.candidacy_fits(ids, id, next)) by {
            assert forall|voter: ReplicaID, t: usize| #[trigger]
                self.grants.contains_key((voter, t)) && self.grants[(voter, t)]
                    == id implies self.vote_fits(voter, t, next) by {
                assert(self.vote_fits(voter, t, replica));
            }
        }
        assert(self.acks_fit(id, next));
    }

    /// A replica whose election is put off fits.
    pub(crate) proof fn lemma_put_off_fits(
        self,
        ids: Set<ReplicaID>,
        id: ReplicaID,
        replica: ReplicaView<T>,
        next: ReplicaView<T>,
    )
        requires
            self.wf(ids),
            self.fits(ids, id, replica),
            next == replica.with_deadline(next.next_election_deadline),
        ensures
            self.fits(ids, id, next),
    {
        assert(self.lead_fits(ids, id, next));
        assert(self.votes_fit(id, next));
        assert(self.candidacy_fits(ids, id, next)) by {
            if replica.state is Candidate {
                assert forall|voter: ReplicaID| #[trigger]
                    next.current_votes->0.contains(voter) implies self.counts(
                    ids,
                    next,
                    voter,
                ) by {
                    assert(self.counts(ids, replica, voter));
                }
            }
            assert forall|voter: ReplicaID, t: usize| #[trigger]
                self.grants.contains_key((voter, t)) && self.grants[(voter, t)]
                    == id implies self.vote_fits(voter, t, next) by {
                assert(self.vote_fits(voter, t, replica));
            }
        }
        assert(self.acks_fit(id, next));
    }

    /// Moving to a later term keeps what is acknowledged and what is committed.
    proof fn lemma_term_grows(
        self,
        ids: Set<ReplicaID>,
        id: ReplicaID,
        replica: ReplicaView<T>,
        next: ReplicaView<T>,
    )
        requires
            self.wf(ids),
            self.fits(ids, id, replica),
            replica.current_term <= next.current_term,
            next.log == replica.log,
            next.commit_index == replica.commit_index,
        ensures
            self.acks_fit(id, next),
            self.safe(ids, next.log, next.commit_index, reach(next)),
    {
        assert forall|t: usize, n: int| #[trigger]
            self.own(t, n) && self.ack(id, t, n) && self.passed_on(
                t,
                reach(next) + 1,
                n,
            ) implies self.holds(next.log, t, n) by {
            assert(self.passed_on(t, reach(replica) + 1, n));
        }
        self.lemma_stays(ids, id, next.current_term);
        self.lemma_safe_grows(
            self,
            id,
            next.current_term,
            ids,
            replica.log,
            replica.commit_index,
            reach(replica),
            reach(next),
        );
    }

    /// A replica that starts an election fits.
    pub(crate) proof fn lemma_start_election_fits(
        self,
        ids: Set<ReplicaID>,
        id: ReplicaID,
        replica: ReplicaView<T>,
    )
        requires
            self.wf(ids),
            self.fits(ids, id, replica),
            !(replica.state is Leader),
            replica.current_term < usize::MAX,
        ensures
            self.fits(ids, id, replica.start_election().state),
    {
        let next = replica.start_election().state;
        assert(self.candidacy_fits(ids, id, next)) by {
            assert forall|voter: ReplicaID, t: usize| #[trigger]
                self.grants.contains_key((voter, t)) && self.grants[(voter, t)]
                    == id implies self.vote_fits(voter, t, next) by {
                assert(self.vote_fits(voter, t, replica));
            }
        }
        self.lemma_term_grows(ids, id, replica, next);
    }

    /// A candidate that counts another vote fits.
    pub(crate) proof fn lemma_count_fits(
        self,
        ids: Set<ReplicaID>,
        id: ReplicaID,
        replica: ReplicaView<T>,
        next: ReplicaView<T>,
    )
        requires
            self.wf(ids),
            self.fits(ids, id, replica),
            replica.state is Candidate,
            next.wf(),
            next == (ReplicaView { current_votes: next.current_votes, ..replica }),
            forall|voter: ReplicaID| #[trigger]
                next.current_votes->0.contains(voter) ==> self.counts(ids, replica, voter),
        ensures
            self.fits(ids, id, next),
    {
        assert(self.lead_fits(ids, id, next));
        assert(self.votes_fit(id, next));
        assert(self.candidacy_fits(ids, id, next)) by {
            assert forall|voter: ReplicaID| #[trigger]
                next.current_votes->0.contains(voter) implies self.counts(ids, next, voter) by {
                assert(self.counts(ids, replica, voter));
            }
            assert forall|voter: ReplicaID, t: usize| #[trigger]
                self.grants.contains_key((voter, t)) && self.grants[(voter, t)]
                    == id implies self.vote_fits(voter, t, next) by {
                assert(self.vote_fits(voter, t, replica));
            }
        }
        assert(self.acks_fit(id, next));
    }

    /// The leader and those known to hold an index have acknowledged it.
    proof fn lemma_committable_is_chosen(
        self,
        ids: Set<ReplicaID>,
        id: ReplicaID,
        replica: ReplicaView<T>,
        index: usize,
    )
        requires
            ids.finite(),
            self.wf(ids),
            self.fits(ids, id, replica),
            replica.state is Leader,
            0 < index < replica.log.len(),
            replica.committable(index),
        ensures
            self.chosen(ids, replica.current_term, index as int),
    {
        let term = replica.current_term;
        let others = replicated_on(replica.match_index, index);
        let some = others.insert(id);
        assert forall|other: ReplicaID| #[trigger] some.contains(other) implies self.ack(
            other,
            term,
            index as int,
        ) && ids.contains(other) by {
            if other != id {
                assert(replica.match_index.contains_key(other));
                assert(self.acks.contains((other, term, replica.match_index[other])));
            }
        }
        lemma_cluster_size(ids, id, replica);
        assert(replica.match_index.dom().finite());
        vstd::set_lib::lemma_len_subset(others, replica.match_index.dom());
        assert(!others.contains(id));
        assert(majority(ids, some));
        assert(self.own(term, index as int));
    }

    /// A replica that applies what is committed fits.
    pub(crate) proof fn lemma_commit_fits(
        self,
        ids: Set<ReplicaID>,
        id: ReplicaID,
        replica: ReplicaView<T>,
        commit_index: usize,
    )
        requires
            ids.finite(),
            self.wf(ids),
            self.fits(ids, id, replica),
            replica.moves_commit_to(commit_index),
        ensures
            self.fits(ids, id, replica.apply_up_to(commit_index).state),
    {
        let next = replica.apply_up_to(commit_index).state;
        if commit_index != replica.commit_index {
            self.lemma_committable_is_chosen(ids, id, replica, commit_index);
            assert(self.safe(ids, next.log, next.commit_index, reach(next)));
        }
        assert(self.candidacy_fits(ids, id, next)) by {
            assert forall|voter: ReplicaID, t: usize| #[trigger]
                self.grants.contains_key((voter, t)) && self.grants[(voter, t)]
                    == id implies self.vote_fits(voter, t, next) by {
                assert(self.vote_fits(voter, t, replica));
            }
        }
        assert(self.acks_fit(id, next));
    }
}

impl<T> Record<T> {
    /// A follower that casts its vote fits the record of it.
    pub(crate) proof fn lemma_vote_fits(
        self,
        later: Record<T>,
        ids: Set<ReplicaID>,
        id: ReplicaID,
        replica: ReplicaView<T>,
        candidate: ReplicaID,
        last_log_index: usize,
        last_log_term: usize,
    )
        requires
            self.wf(ids),
            self.fits(ids, id, replica),
            replica.state is Follower,
            0 < replica.current_term,
            ids.contains(candidate),
            candidate != id,
            replica.may_vote_for(candidate, last_log_index, last_log_term),
            !self.led(id, replica.current_term),
            ({
                let key = (id, replica.current_term);
                let new = !self.grants.contains_key(key);
                later == Record {
                    grants: if new {
                        self.grants.insert(key, candidate)
                    } else {
                        self.grants
                    },
                    grant_logs: if new && !self.logs.contains_key(key.1) {
                        self.grant_logs.insert(key, replica.log)
                    } else {
                        self.grant_logs
                    },
                    ..self
                }
            }),
        ensures
            self.grows_into(later, id, replica.current_term),
            self.new_wf(later, ids, id, replica.current_term),
            later.fits(
                ids,
                id,
                replica.cast_vote(candidate, last_log_index, last_log_term).state,
            ),
    {
        let term = replica.current_term;
        let next = replica.cast_vote(candidate, last_log_index, last_log_term).state;
        self.lemma_stays(ids, id, term);
        assert forall|t: usize, n: int| #[trigger] later.own(t, n) == self.own(t, n) by {}
        if !self.grants.contains_key((id, term)) {
            assert(later.grant_wf(ids, id, term));
            if !self.logs.contains_key(term) {
                assert(later.grant_log_wf(id, term)) by {
                    assert forall|t: usize, n: int|
                        replica.log.last().term <= term && t < term && #[trigger] later.own(t, n)
                            && later.ack(id, t, n) && later.passed_on(
                            t,
                            term as int,
                            n,
                        ) implies later.holds(
                        replica.log,
                        t,
                        n,
                    ) by {
                        assert(self.own(t, n) && self.ack(id, t, n));
                        assert(self.passed_on(t, term + 1, n));
                    }
                }
            }
        } else {
            assert(next == replica);
        }
        assert(later.lead_fits(ids, id, next));
        assert(later.votes_fit(id, next));
        assert(later.candidacy_fits(ids, id, next)) by {
            assert forall|voter: ReplicaID, t: usize| #[trigger]
                later.grants.contains_key((voter, t)) && later.grants[(voter, t)]
                    == id implies later.vote_fits(voter, t, next) by {
                assert(self.grants.contains_key((voter, t)));
                assert(self.vote_fits(voter, t, replica));
            }
        }
        assert(later.acks_fit(id, next)) by {
            assert forall|t: usize, n: int| #[trigger]
                later.own(t, n) && later.ack(id, t, n) && later.passed_on(
                    t,
                    reach(next) + 1,
                    n,
                ) implies later.holds(next.log, t, n) by {
                assert(self.own(t, n) && self.ack(id, t, n));
                assert(self.passed_on(t, reach(replica) + 1, n));
            }
        }
        self.lemma_safe_grows(
            later,
            id,
            term,
            ids,
            replica.log,
            replica.commit_index,
            reach(replica),
            reach(next),
        );
    }

    /// The start of a log that is rooted is rooted.
    pub(crate) proof fn lemma_rooted_take(self, log: Seq<LogEntry<T>>, end: int)
        requires
            self.rooted(log),
            0 <= end <= log.len(),
        ensures
            self.rooted(log.take(end)),
    {
        let start = log.take(end);
        assert forall|i: int| 0 <= i < start.len() implies self.logs.contains_key(
            (#[trigger] start[i]).term,
        ) && self.holds(start, start[i].term, i) by {
            assert(start[i] == log[i]);
            assert(start.take(i + 1) =~= log.take(i + 1));
        }
    }

    /// No entry of a rooted log is of a later term than one after it.
    pub(crate) proof fn lemma_terms_grow(
        self,
        ids: Set<ReplicaID>,
        log: Seq<LogEntry<T>>,
        i: int,
        j: int,
    )
        requires
            self.wf(ids),
            self.rooted(log),
            0 <= i <= j < log.len(),
        ensures
            log[i].term <= log[j].term,
    {
        let term = log[j].term;
        assert(self.holds(log, term, j));
        assert(self.log_wf(term));
        assert(log.take(j + 1)[i] == self.logs[term].take(j + 1)[i]);
    }

    /// Rooted logs match.
    pub(crate) proof fn lemma_rooted_match(
        self,
        one: Seq<LogEntry<T>>,
        other: Seq<LogEntry<T>>,
    )
        requires
            self.rooted(one),
            self.rooted(other),
        ensures
            matching(one, other),
    {
        assert forall|i: int|
            0 <= i < one.len() && i < other.len() && (#[trigger] one[i]).term
                == other[i].term implies one.take(i + 1) == other.take(i + 1) by {
            assert(self.holds(one, one[i].term, i));
            assert(self.holds(other, other[i].term, i));
        }
    }

    /// What a replica has committed the leader of a term holds that is not before
    /// those the replica has taken part in.
    proof fn lemma_leader_holds_committed(
        self,
        ids: Set<ReplicaID>,
        id: ReplicaID,
        replica: ReplicaView<T>,
        term: usize,
    )
        requires
            ids.finite(),
            self.wf(ids),
            self.fits(ids, id, replica),
            self.leaders.contains_key(term),
            reach(replica) <= term,
        ensures
            agree_up_to(replica.log, self.logs[term], replica.commit_index),
    {
        let leader_log = self.logs[term];
        let commit_index = replica.commit_index;
        assert(self.logs.contains_key(term));
        assert(self.log_wf(term));
        if commit_index == 0 {
            assert(replica.log.take(1) =~= leader_log.take(1));
        } else {
            let (t, n) = choose|t: usize, n: int| #[trigger]
                self.chosen(ids, t, n) && t <= term && commit_index <= n && replica.log.take(
                    commit_index + 1,
                ) == self.logs[t].take(commit_index + 1);
            if t < term {
                self.lemma_chosen_is_passed_on(ids, t, n, term);
                let kept = commit_index + 1;
                assert(leader_log.take(kept) =~= leader_log.take(n + 1).take(kept));
                assert(self.logs[t].take(kept) =~= self.logs[t].take(n + 1).take(kept));
            }
        }
    }
}

impl<T> Record<T> {
    /// What a follower makes of its log when it takes the entries of a leader of a
    /// term not before those it has taken part in: the start of the leader's log.
    proof fn lemma_accepted_log(
        self,
        ids: Set<ReplicaID>,
        id: ReplicaID,
        replica: ReplicaView<T>,
        message: MessageView<T>,
    )
        requires
            ids.finite(),
            self.wf(ids),
            self.fits(ids, id, replica),
            replica.state is Follower,
            acknowledges(replica, Input::Message(message)),
            message matches MessageView::AppendEntryRequest { term, .. } && reach(replica)
                <= term,
            self.message_fits(ids, map![], id, message),
        ensures
            ({
                let next = replica.message(message).state;
                let leader_log = self.logs[message->AppendEntryRequest_term];
                let end = message->prev_log_index + 1 + message->entries.len();
                &&& next.log.len() <= leader_log.len()
                &&& next.log == leader_log.take(next.log.len() as int)
                &&& next.log.last().term == message->AppendEntryRequest_term
                &&& next.log == replica.log || next.log == leader_log.take(end as int) && !(end
                    <= replica.log.len() && replica.log.take(end as int) == leader_log.take(
                    end as int,
                ))
                &&& in_line_with(next, leader_log)
                &&& no_further(replica.log, next.log)
                &&& replica.commit_index <= next.commit_index
                &&& next.commit_index == replica.commit_index || next.commit_index
                    == message->AppendEntryRequest_commit_index
            }),
    {
        let term = message->AppendEntryRequest_term;
        let leader_log = self.logs[term];
        let next = replica.message(message).state;
        assert(self.logs.contains_key(term));
        assert(self.log_wf(term));
        self.lemma_rooted_match(replica.log, leader_log);
        self.lemma_leader_holds_committed(ids, id, replica, term);
        request_brings_leader_log(replica, message, leader_log);
        if let MessageView::AppendEntryRequest { prev_log_index, entries, .. } = message {
            let start = prev_log_index + 1;
            let end = start + entries.len();
            assert(replica.log[prev_log_index as int].term
                == leader_log[prev_log_index as int].term);
            installing_follows_log(replica.log, leader_log, start, end as int);
            if end <= replica.log.len() && replica.log.take(end as int) == leader_log.take(
                end as int,
            ) {
                let last = replica.log.len() - 1;
                assert(replica.log.take(end as int)[end - 1] == leader_log.take(
                    end as int,
                )[end - 1]);
                self.lemma_terms_grow(ids, replica.log, end - 1, last);
                assert(replica.log[last].term == term);
                assert(self.holds(replica.log, term, last));
                assert(replica.log.take(last + 1) =~= replica.log);
            } else {
                assert(next.log.last() == leader_log[end - 1]);
                let last = replica.log.len() - 1;
                if replica.log[last].term == term && end <= last {
                    assert(self.holds(replica.log, term, last));
                    assert(replica.log.take(end as int) =~= replica.log.take(last + 1).take(
                        end as int,
                    ));
                    assert(leader_log.take(end as int) =~= leader_log.take(last + 1).take(
                        end as int,
                    ));
                }
                if replica.log[last].term == term && end == last + 1 {
                    assert(self.holds(replica.log, term, last));
                }
            }
        }
    }

    /// A follower that takes the entries of a leader of a term not before those it
    /// has taken part in fits the record of it.
    pub(crate) proof fn lemma_accept_fits(
        self,
        later: Record<T>,
        ids: Set<ReplicaID>,
        id: ReplicaID,
        replica: ReplicaView<T>,
        message: MessageView<T>,
    )
        requires
            ids.finite(),
            self.wf(ids),
            self.fits(ids, id, replica),
            replica.state is Follower,
            acknowledges(replica, Input::Message(message)),
            message matches MessageView::AppendEntryRequest { term, .. } && reach(replica)
                <= term,
            self.message_fits(ids, map![], id, message),
            replica.message(message).state.wf(),
            replica.message(message).state.log.len() < usize::MAX,
            ({
                let next = replica.message(message).state;
                later == Record {
                    acks: self.acks.insert(
                        (id, message->AppendEntryRequest_term, next.last_index()),
                    ),
                    ..self
                }
            }),
        ensures
            self.grows_into(later, id, message->AppendEntryRequest_term),
            self.new_wf(later, ids, id, message->AppendEntryRequest_term),
            later.fits(ids, id, replica.message(message).state),
            no_further(replica.log, replica.message(message).state.log),
            replica.commit_index <= replica.message(message).state.commit_index,
    {
        let term = message->AppendEntryRequest_term;
        let leader_log = self.logs[term];
        let next = replica.message(message).state;
        let end = (message->prev_log_index + 1 + message->entries.len()) as int;
        self.lemma_stays(ids, id, term);
        self.lemma_accepted_log(ids, id, replica, message);
        assert(self.logs.contains_key(term));
        assert(self.log_wf(term));
        assert forall|t: usize, n: int| #[trigger] later.own(t, n) == self.own(t, n) by {}
        assert(later.log_fits(next)) by {
            self.lemma_rooted_take(leader_log, next.log.len() as int);
            self.lemma_rooted_grows(later, id, term, next.log);
        }
        assert(later.candidacy_fits(ids, id, next)) by {
            assert forall|voter: ReplicaID, t: usize| #[trigger]
                later.grants.contains_key((voter, t)) && later.grants[(voter, t)]
                    == id implies later.vote_fits(voter, t, next) by {
                assert(self.vote_fits(voter, t, replica));
            }
        }
        assert(later.lead_fits(ids, id, next));
        assert(later.votes_fit(id, next));
        assert(later.acks_fit(id, next)) by {
            assert forall|t: usize, n: int| #[trigger]
                later.own(t, n) && later.ack(id, t, n) && later.passed_on(
                    t,
                    term + 1,
                    n,
                ) implies later.holds(next.log, t, n) by {
                assert(self.passed_on(t, reach(replica) + 1, n));
                if self.ack(id, t, n) {
                    assert(self.own(t, n));
                    assert(self.holds(replica.log, t, n));
                    assert(t <= term);
                    if next.log != replica.log {
                        if t == term {
                            if n >= end {
                                assert(replica.log.take(end) =~= replica.log.take(n + 1).take(end));
                                assert(leader_log.take(end) =~= leader_log.take(n + 1).take(end));
                            }
                        } else {
                            assert(self.holds(leader_log, t, n));
                            assert(leader_log.take(n + 1)[n] == self.logs[t].take(n + 1)[n]);
                            if n >= end - 1 {
                                self.lemma_terms_grow(ids, leader_log, end - 1, n);
                            }
                        }
                        assert(next.log.take(n + 1) =~= leader_log.take(n + 1));
                    }
                } else {
                    assert(t == term);
                    assert(n <= next.last_index());
                    assert(next.log.take(n + 1) =~= leader_log.take(n + 1));
                }
            }
        }
        assert(later.safe(ids, next.log, next.commit_index, term)) by {
            let kept = next.commit_index + 1;
            if next.commit_index == replica.commit_index {
                self.lemma_leader_holds_committed(ids, id, replica, term);
                self.lemma_safe_other_log(
                    ids,
                    replica.log,
                    next.log,
                    next.commit_index,
                    reach(replica),
                );
                self.lemma_safe_grows(
                    self,
                    id,
                    term,
                    ids,
                    next.log,
                    next.commit_index,
                    reach(replica),
                    term,
                );
            } else {
                self.lemma_safe_other_log(ids, leader_log, next.log, next.commit_index, term);
            }
            self.lemma_safe_grows(
                later,
                id,
                term,
                ids,
                next.log,
                next.commit_index,
                term,
                term,
            );
        }
    }

    /// A commit index that is safe for a log is so for one that agrees up to it.
    pub(crate) proof fn lemma_safe_other_log(
        self,
        ids: Set<ReplicaID>,
        log: Seq<LogEntry<T>>,
        other: Seq<LogEntry<T>>,
        commit_index: usize,
        bound: usize,
    )
        requires
            self.safe(ids, log, commit_index, bound),
            agree_up_to(log, other, commit_index),
        ensures
            self.safe(ids, other, commit_index, bound),
    {
        if commit_index != 0 {
            let (t, n) = choose|t: usize, n: int| #[trigger]
                self.chosen(ids, t, n) && t <= bound && commit_index <= n && log.take(
                    commit_index + 1,
                ) == self.logs[t].take(commit_index + 1);
            assert(self.chosen(ids, t, n));
        }
    }
}

impl<T> Record<T> {
    /// A term has one leader: a candidate with the votes of a majority is the
    /// first to lead in its term.
    pub(crate) proof fn lemma_no_leader_yet(
        self,
        ids: Set<ReplicaID>,
        id: ReplicaID,
        replica: ReplicaView<T>,
        votes: Set<ReplicaID>,
    )
        requires
            ids.finite(),
            self.wf(ids),
            self.fits(ids, id, replica),
            replica.state is Candidate,
            majority(ids, votes),
            forall|voter: ReplicaID| #[trigger]
                votes.contains(voter) ==> self.counts(ids, replica, voter),
        ensures
            !self.leaders.contains_key(replica.current_term),
    {
        let term = replica.current_term;
        if self.leaders.contains_key(term) {
            let leader = self.leaders[term];
            assert(self.leader_wf(ids, term));
            majorities_meet(ids, votes, self.voters[term]);
            let voter = choose|voter: ReplicaID|
                votes.contains(voter) && self.voters[term].contains(voter);
            assert(self.counts(ids, replica, voter));
            assert(leader != id);
            if voter == id {
                assert(self.grants.contains_key((id, term)));
            } else {
                assert(self.grants.contains_key((voter, term)));
                assert(voter != leader);
            }
            assert(false);
        }
    }

    /// A candidate with the votes of a majority has a log of earlier terms only.
    proof fn lemma_winner_is_not_behind(
        self,
        ids: Set<ReplicaID>,
        id: ReplicaID,
        replica: ReplicaView<T>,
        votes: Set<ReplicaID>,
    )
        requires
            ids.finite(),
            self.wf(ids),
            self.fits(ids, id, replica),
            replica.state is Candidate,
            majority(ids, votes),
            forall|voter: ReplicaID| #[trigger]
                votes.contains(voter) ==> self.counts(ids, replica, voter),
            !self.leaders.contains_key(replica.current_term),
        ensures
            replica.log.last().term < replica.current_term,
    {
        let last = replica.log.len() - 1;
        let last_term = replica.log[last].term;
        assert(self.logs.contains_key(last_term));
        if replica.current_term < last_term {
            assert(self.leaders.contains_key(last_term));
            assert(self.leader_wf(ids, last_term));
            majorities_meet(ids, votes, self.voters[last_term]);
            let voter = choose|voter: ReplicaID|
                votes.contains(voter) && self.voters[last_term].contains(voter);
            assert(self.counts(ids, replica, voter));
            if voter == id {
                assert(self.voters.contains_key(last_term));
            } else {
                assert(self.vote_fits(voter, replica.current_term, replica));
            }
            assert(false);
        }
    }

    /// A new leader holds what its voters have acknowledged, if all leaders in
    /// between did.
    proof fn lemma_candidate_is_complete(
        self,
        ids: Set<ReplicaID>,
        id: ReplicaID,
        replica: ReplicaView<T>,
        voter: ReplicaID,
        t: usize,
        n: int,
    )
        requires
            self.wf(ids),
            self.fits(ids, id, replica),
            replica.state is Candidate,
            !self.logs.contains_key(replica.current_term),
            replica.log.last().term < replica.current_term,
            voter == id || self.grants.contains_key((voter, replica.current_term))
                && self.grants[(voter, replica.current_term)] == id,
            t < replica.current_term,
            self.own(t, n),
            self.ack(voter, t, n),
            self.passed_on(t, replica.current_term as int, n),
        ensures
            self.holds(replica.log, t, n),
    {
        let term = replica.current_term;
        if voter == id {
            assert(self.passed_on(t, term + 1, n));
        } else {
            assert(self.grant_wf(ids, voter, term));
            assert(self.grant_log_wf(voter, term));
            assert(self.vote_fits(voter, term, replica));
            let log = self.grant_logs[(voter, term)];
            assert(self.holds(log, t, n));
            assert(log.take(n + 1)[n] == self.logs[t].take(n + 1)[n]);
            self.lemma_terms_grow(ids, log, n, log.len() - 1);
            let last = replica.log.len() - 1;
            let s = replica.log[last].term;
            assert(t <= s);
            assert(self.holds(replica.log, s, last));
            if n > last {
                assert(t < s < term);
                assert(self.holds(self.logs[s], t, n));
                assert(self.logs[s].take(n + 1)[n] == self.logs[t].take(n + 1)[n]);
                assert(replica.log.take(last + 1)[last] == self.logs[s].take(last + 1)[last]);
                assert(self.log_wf(s));
                self.lemma_terms_grow(ids, self.logs[s], last, n);
                assert(false);
            }
            assert(replica.log.take(n + 1) =~= replica.log.take(last + 1).take(n + 1));
            assert(self.logs[s].take(n + 1) =~= self.logs[s].take(last + 1).take(n + 1));
            if t < s {
                assert(s < term);
                assert(self.holds(self.logs[s], t, n));
            }
        }
    }

    /// A candidate that is elected fits the record of it.
    pub(crate) proof fn lemma_elect_fits(
        self,
        later: Record<T>,
        ids: Set<ReplicaID>,
        id: ReplicaID,
        replica: ReplicaView<T>,
        votes: Set<ReplicaID>,
    )
        requires
            ids.finite(),
            self.wf(ids),
            self.fits(ids, id, replica),
            replica.state is Candidate,
            majority(ids, votes),
            forall|voter: ReplicaID| #[trigger]
                votes.contains(voter) ==> self.counts(ids, replica, voter),
            replica.become_leader().state.wf(),
            replica.become_leader().state.log.len() < usize::MAX,
            ({
                let term = replica.current_term;
                later == Record {
                    leaders: self.leaders.insert(term, id),
                    voters: self.voters.insert(term, votes),
                    logs: self.logs.insert(term, replica.become_leader().state.log),
                    ..self
                }
            }),
        ensures
            self.grows_into(later, id, replica.current_term),
            self.new_wf(later, ids, id, replica.current_term),
            later.fits(ids, id, replica.become_leader().state),
            no_further(replica.log, replica.become_leader().state.log),
    {
        let term = replica.current_term;
        let next = replica.become_leader().state;
        self.lemma_no_leader_yet(ids, id, replica, votes);
        self.lemma_winner_is_not_behind(ids, id, replica, votes);
        assert(!self.logs.contains_key(term));
        self.lemma_stays(ids, id, term);
        assert(self.grows_into(later, id, term));
        assert(later.rooted(next.log)) by {
            self.lemma_rooted_grows(later, id, term, replica.log);
            assert forall|i: int| 0 <= i < next.log.len() implies later.logs.contains_key(
                (#[trigger] next.log[i]).term,
            ) && later.holds(next.log, next.log[i].term, i) by {
                if i < replica.log.len() {
                    assert(next.log[i] == replica.log[i]);
                    assert(next.log.take(i + 1) =~= replica.log.take(i + 1));
                }
            }
        }
        assert(later.log_wf(term)) by {
            assert(self.logs.contains_key(0));
            assert forall|i: int| 0 <= i < next.log.len() implies (#[trigger] next.log[i]).term
                <= term by {
                if i < replica.log.len() {
                    self.lemma_terms_grow(ids, replica.log, i, replica.log.len() - 1);
                }
            }
        }
        assert(later.complete(term)) by {
            assert forall|t: usize, n: int, voter: ReplicaID|
                t < term && #[trigger] later.own(t, n) && #[trigger] later.voters[term].contains(
                    voter,
                ) && later.ack(voter, t, n) && later.passed_on(t, term as int, n) implies later.holds(
                later.logs[term],
                t,
                n,
            ) by {
                assert(votes.contains(voter));
                assert(self.counts(ids, replica, voter));
                self.lemma_ack_was(later, ids, id, term, voter, t, n);
                self.lemma_passed_on_before(later, id, term, t, term as int, n);
                self.lemma_candidate_is_complete(ids, id, replica, voter, t, n);
                self.lemma_holds_grows(later, id, term, replica.log, t, n);
                assert(next.log.take(n + 1) =~= replica.log.take(n + 1));
            }
        }
        assert(later.leader_wf(ids, term)) by {
            assert forall|voter: ReplicaID| #[trigger] votes.contains(voter) implies voter == id
                || later.grants.contains_key((voter, term)) && later.grants[(voter, term)]
                == id by {
                assert(self.counts(ids, replica, voter));
            }
        }
        assert(self.new_wf(later, ids, id, term));
        assert(later.lead_fits(ids, id, next));
        assert(later.votes_fit(id, next));
        assert(later.candidacy_fits(ids, id, next)) by {
            assert forall|voter: ReplicaID, t: usize| #[trigger]
                later.grants.contains_key((voter, t)) && later.grants[(voter, t)]
                    == id implies later.vote_fits(voter, t, next) by {
                assert(self.vote_fits(voter, t, replica));
            }
        }
        assert(later.acks_fit(id, next)) by {
            assert forall|t: usize, n: int| #[trigger]
                later.own(t, n) && later.ack(id, t, n) && later.passed_on(
                    t,
                    term + 1,
                    n,
                ) implies later.holds(next.log, t, n) by {
                if t != term {
                    self.lemma_ack_was(later, ids, id, term, id, t, n);
                    assert(t <= term);
                    assert(later.logs.contains_key(term));
                }
            }
        }
        assert(later.safe(ids, next.log, next.commit_index, term)) by {
            let kept = next.commit_index + 1;
            assert(next.log.take(kept) =~= replica.log.take(kept));
            self.lemma_safe_other_log(ids, replica.log, next.log, next.commit_index, term);
            self.lemma_safe_grows(
                later,
                id,
                term,
                ids,
                next.log,
                next.commit_index,
                term,
                term,
            );
        }
    }

    /// A leader that appends entries of its term fits the record of it.
    pub(crate) proof fn lemma_append_fits(
        self,
        later: Record<T>,
        ids: Set<ReplicaID>,
        id: ReplicaID,
        replica: ReplicaView<T>,
        next: ReplicaView<T>,
    )
        requires
            ids.finite(),
            self.wf(ids),
            self.fits(ids, id, replica),
            replica.state is Leader,
            next == (ReplicaView { log: next.log, ..replica }),
            extended(replica.log, next.log, replica.current_term),
            numbered(next.log),
            next.log.len() < usize::MAX,
            later == (Record {
                logs: self.logs.insert(replica.current_term, next.log),
                ..self
            }),
        ensures
            self.grows_into(later, id, replica.current_term),
            self.new_wf(later, ids, id, replica.current_term),
            later.fits(ids, id, next),
    {
        let term = replica.current_term;
        let old_log = replica.log;
        assert(self.logs.contains_key(term));
        assert(self.log_wf(term));
        self.lemma_stays(ids, id, term);
        assert(self.grows_into(later, id, term));
        assert forall|i: int| 0 <= i < old_log.len() implies #[trigger] next.log[i]
            == old_log[i] by {
            assert(next.log.take(old_log.len() as int)[i] == old_log[i]);
        }
        assert(later.rooted(next.log)) by {
            self.lemma_rooted_grows(later, id, term, old_log);
            assert forall|i: int| 0 <= i < next.log.len() implies later.logs.contains_key(
                (#[trigger] next.log[i]).term,
            ) && later.holds(next.log, next.log[i].term, i) by {
                if i < old_log.len() {
                    assert(next.log[i] == old_log[i]);
                    assert(later.holds(old_log, old_log[i].term, i));
                    assert(next.log.take(i + 1) =~= old_log.take(i + 1));
                }
            }
        }
        assert(later.log_wf(term)) by {
            assert(self.logs.contains_key(0));
            if next.log.len() == old_log.len() {
                assert(next.log =~= old_log);
            }
        }
        assert(self.new_wf(later, ids, id, term));
        assert(next.wf());
        assert(later.log_fits(next));
        assert(later.lead_fits(ids, id, next));
        assert(later.votes_fit(id, next));
        assert(later.candidacy_fits(ids, id, next)) by {
            assert forall|voter: ReplicaID, t: usize| #[trigger]
                later.grants.contains_key((voter, t)) && later.grants[(voter, t)]
                    == id implies later.vote_fits(voter, t, next) by {
                assert(self.vote_fits(voter, t, replica));
            }
        }
        assert(later.acks_fit(id, next)) by {
            assert forall|t: usize, n: int| #[trigger]
                later.own(t, n) && later.ack(id, t, n) && later.passed_on(
                    t,
                    term + 1,
                    n,
                ) implies later.holds(next.log, t, n) by {
                if t != term {
                    self.lemma_ack_was(later, ids, id, term, id, t, n);
                    assert(t <= term);
                    assert(later.logs.contains_key(term));
                }
            }
        }
        assert(later.safe(ids, next.log, next.commit_index, term)) by {
            let kept = next.commit_index + 1;
            assert(next.log.take(kept) =~= old_log.take(kept));
            self.lemma_safe_other_log(ids, old_log, next.log, next.commit_index, term);
            self.lemma_safe_grows(
                later,
                id,
                term,
                ids,
                next.log,
                next.commit_index,
                term,
                term,
            );
        }
    }
}

/// A cluster has one replica more than a replica has peers.
pub(crate) proof fn lemma_cluster_size<T>(
    ids: Set<ReplicaID>,
    id: ReplicaID,
    replica: ReplicaView<T>,
)
    requires
        ids.finite(),
        member(ids, id, replica),
    ensures
        ids.len() == replica.peer_ids.len() + 1,
{
    replica.peer_ids.unique_seq_to_set();
    assert(replica.peer_ids.to_set() =~= ids.remove(id));
}

} // verus!
