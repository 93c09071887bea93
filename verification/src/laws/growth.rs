//! How the record of a cluster grows by what one replica does.

use crate::laws::record::{majority, Record};
use crate::message::LogEntry;
use crate::ReplicaID;
use vstd::prelude::*;

verus! {

/// Whether a log of a term grows by entries of that term.
pub open spec fn extended<T>(log: Seq<LogEntry<T>>, longer: Seq<LogEntry<T>>, term: usize) -> bool {
    &&& log.len() <= longer.len()
    &&& longer.take(log.len() as int) == log
    &&& forall|i: int| log.len() <= i < longer.len() ==> (#[trigger] longer[i]).term == term
}

impl<T> Record<T> {
    /// Whether a record grows into another by what a replica does in a term.
    pub open spec fn grows_into(self, later: Record<T>, actor: ReplicaID, term: usize) -> bool {
        &&& forall|t: usize| #[trigger]
            self.leaders.contains_key(t) ==> later.leaders.contains_key(t) && later.leaders[t]
                == self.leaders[t] && later.voters[t] == self.voters[t]
        &&& forall|t: usize| #[trigger]
            later.leaders.contains_key(t) && !self.leaders.contains_key(t) ==> later.leaders[t]
                == actor && t == term
        &&& forall|t: usize| #[trigger]
            self.logs.contains_key(t) ==> later.logs.contains_key(t) && extended(
                self.logs[t],
                later.logs[t],
                t,
            ) && (later.logs[t] == self.logs[t] || self.leaders.contains_key(t)
                && self.leaders[t] == actor && t == term)
        &&& forall|t: usize| #[trigger]
            later.logs.contains_key(t) && !self.logs.contains_key(t) ==> t == term
        &&& forall|id: ReplicaID, t: usize| #[trigger]
            self.grants.contains_key((id, t)) ==> later.grants.contains_key((id, t))
                && later.grants[(id, t)] == self.grants[(id, t)]
        &&& forall|id: ReplicaID, t: usize| #[trigger]
            later.grants.contains_key((id, t)) && !self.grants.contains_key((id, t)) ==> id == actor
                && t == term
        &&& forall|id: ReplicaID, t: usize| #[trigger]
            self.grant_logs.contains_key((id, t)) ==> later.grant_logs.contains_key((id, t))
                && later.grant_logs[(id, t)] == self.grant_logs[(id, t)]
        &&& forall|id: ReplicaID, t: usize| #[trigger]
            later.grant_logs.contains_key((id, t)) && !self.grant_logs.contains_key((id, t))
                ==> id == actor && t == term && !self.grants.contains_key((id, t))
        &&& forall|id: ReplicaID, t: usize, n: usize| #[trigger]
            self.acks.contains((id, t, n)) ==> later.acks.contains((id, t, n))
        &&& forall|id: ReplicaID, t: usize, n: usize| #[trigger]
            later.acks.contains((id, t, n)) && !self.acks.contains((id, t, n)) ==> id == actor && t
                == term
    }

    /// A log that agrees with the log of a term agrees with it as it grows.
    pub(crate) proof fn lemma_holds_grows(
        self,
        later: Record<T>,
        actor: ReplicaID,
        at: usize,
        log: Seq<LogEntry<T>>,
        term: usize,
        index: int,
    )
        requires
            self.grows_into(later, actor, at),
            self.logs.contains_key(term),
            self.holds(log, term, index),
            0 <= index,
        ensures
            later.holds(log, term, index),
    {
        let old_log = self.logs[term];
        assert(later.logs[term].take(index + 1) =~= later.logs[term].take(
            old_log.len() as int,
        ).take(index + 1));
        assert(old_log.take(index + 1) =~= old_log.take(old_log.len() as int).take(index + 1));
        assert(old_log.take(old_log.len() as int) =~= old_log);
    }

    /// A log that is rooted in a record is rooted in what it grows into.
    pub(crate) proof fn lemma_rooted_grows(
        self,
        later: Record<T>,
        actor: ReplicaID,
        at: usize,
        log: Seq<LogEntry<T>>,
    )
        requires
            self.grows_into(later, actor, at),
            self.rooted(log),
        ensures
            later.rooted(log),
    {
        assert forall|i: int| 0 <= i < log.len() implies later.logs.contains_key(
            (#[trigger] log[i]).term,
        ) && later.holds(log, log[i].term, i) by {
            self.lemma_holds_grows(later, actor, at, log, log[i].term, i);
        }
    }

    /// What was acknowledged stays so.
    pub(crate) proof fn lemma_ack_grows(
        self,
        later: Record<T>,
        actor: ReplicaID,
        at: usize,
        id: ReplicaID,
        term: usize,
        index: int,
    )
        requires
            self.grows_into(later, actor, at),
            self.own(term, index),
            self.ack(id, term, index),
        ensures
            later.own(term, index),
            later.ack(id, term, index),
    {
        let log = self.logs[term];
        assert(later.logs[term].take(log.len() as int)[index] == log[index]);
        if !(self.leaders.contains_key(term) && self.leaders[term] == id) {
            let last = choose|last: usize|
                index <= last && #[trigger] self.acks.contains((id, term, last));
            assert(later.acks.contains((id, term, last)));
        }
    }

    /// What a majority has acknowledged stays so.
    pub(crate) proof fn lemma_chosen_grows(
        self,
        later: Record<T>,
        actor: ReplicaID,
        at: usize,
        ids: Set<ReplicaID>,
        term: usize,
        index: int,
    )
        requires
            self.grows_into(later, actor, at),
            self.chosen(ids, term, index),
        ensures
            later.chosen(ids, term, index),
    {
        let some = choose|some: Set<ReplicaID>|
            #![trigger majority(ids, some)]
            majority(ids, some) && forall|id: ReplicaID| #[trigger]
                some.contains(id) ==> self.ack(id, term, index);
        let log = self.logs[term];
        assert(later.logs[term].take(log.len() as int)[index] == log[index]);
        assert forall|id: ReplicaID| #[trigger] some.contains(id) implies later.ack(
            id,
            term,
            index,
        ) by {
            self.lemma_ack_grows(later, actor, at, id, term, index);
        }
        assert(majority(ids, some));
    }

    /// A commit index that is safe stays so.
    pub(crate) proof fn lemma_safe_grows(
        self,
        later: Record<T>,
        actor: ReplicaID,
        at: usize,
        ids: Set<ReplicaID>,
        log: Seq<LogEntry<T>>,
        commit_index: usize,
        bound: usize,
        later_bound: usize,
    )
        requires
            self.grows_into(later, actor, at),
            self.safe(ids, log, commit_index, bound),
            bound <= later_bound,
        ensures
            later.safe(ids, log, commit_index, later_bound),
    {
        if commit_index != 0 {
            let (term, index) = choose|term: usize, index: int| #[trigger]
                self.chosen(ids, term, index) && term <= bound && commit_index <= index && log.take(
                    commit_index + 1,
                ) == self.logs[term].take(commit_index + 1);
            self.lemma_chosen_grows(later, actor, at, ids, term, index);
            self.lemma_holds_grows(later, actor, at, log, term, commit_index as int);
        }
    }

    /// What is acknowledged was so before, except for what the actor does in its term.
    pub(crate) proof fn lemma_ack_was(
        self,
        later: Record<T>,
        ids: Set<ReplicaID>,
        actor: ReplicaID,
        at: usize,
        id: ReplicaID,
        term: usize,
        index: int,
    )
        requires
            self.wf(ids),
            self.grows_into(later, actor, at),
            later.own(term, index),
            later.ack(id, term, index),
            id != actor || term != at,
        ensures
            self.own(term, index),
            self.ack(id, term, index),
    {
        if later.leaders.contains_key(term) && later.leaders[term] == id && index
            < later.logs[term].len() {
            assert(self.leaders.contains_key(term));
            assert(self.logs.contains_key(term));
            assert(later.logs[term] == self.logs[term]);
        } else {
            let last = choose|last: usize|
                index <= last && #[trigger] later.acks.contains((id, term, last));
            assert(self.acks.contains((id, term, last)));
            assert(self.logs.contains_key(term));
            let log = self.logs[term];
            assert(later.logs[term].take(log.len() as int)[index] == log[index]);
        }
    }

    /// What the leaders between two terms pass on they passed on before.
    pub(crate) proof fn lemma_passed_on_before(
        self,
        later: Record<T>,
        actor: ReplicaID,
        at: usize,
        term: usize,
        end: int,
        index: int,
    )
        requires
            self.grows_into(later, actor, at),
            self.own(term, index),
            later.passed_on(term, end, index),
        ensures
            self.passed_on(term, end, index),
    {
        assert forall|s: usize|
            term < s < end && #[trigger] self.logs.contains_key(s) implies self.holds(
            self.logs[s],
            term,
            index,
        ) by {
            assert(later.logs.contains_key(s));
            assert(later.holds(later.logs[s], term, index));
            let log = self.logs[s];
            let base = self.logs[term];
            assert(later.logs[term].take(index + 1) =~= later.logs[term].take(
                base.len() as int,
            ).take(index + 1));
            assert(base.take(base.len() as int) =~= base);
            assert(later.logs[s].take(index + 1)[index] == later.logs[term].take(index + 1)[index]);
            assert(base.take(index + 1)[index] == base[index]);
            assert(index < log.len());
            assert(later.logs[s].take(index + 1) =~= later.logs[s].take(log.len() as int).take(
                index + 1,
            ));
            assert(log.take(log.len() as int) =~= log);
        }
    }

    /// Whether what is new in a record is as it should be.
    pub open spec fn new_wf(
        self,
        later: Record<T>,
        ids: Set<ReplicaID>,
        actor: ReplicaID,
        term: usize,
    ) -> bool {
        &&& forall|t: usize| #[trigger]
            later.logs.contains_key(t) <==> t == 0 || later.leaders.contains_key(t)
        &&& forall|t: usize| #[trigger]
            later.voters.contains_key(t) <==> later.leaders.contains_key(t)
        &&& later.logs.contains_key(term) && !(self.logs.contains_key(term) && later.logs[term]
            == self.logs[term]) ==> later.log_wf(term)
        &&& later.leaders.contains_key(term) && !self.leaders.contains_key(term)
            ==> 0 < term && later.leader_wf(ids, term) && later.complete(term)
        &&& later.grants.contains_key((actor, term)) && !self.grants.contains_key((actor, term))
            ==> later.grant_wf(ids, actor, term) && !(later.leaders.contains_key(term)
            && later.leaders[term] == actor)
        &&& later.grant_logs.contains_key((actor, term)) && !self.grant_logs.contains_key(
            (actor, term),
        ) ==> later.grant_log_wf(actor, term)
        &&& forall|n: usize| #[trigger]
            later.acks.contains((actor, term, n)) && !self.acks.contains((actor, term, n))
                ==> ids.contains(actor) && later.leaders.contains_key(term) && later.leaders[term]
                != actor && n < later.logs[term].len()
    }

    /// A record grows into one of which the same holds, if what is new is as it
    /// should be and the actor's earlier votes are not of later terms.
    pub(crate) proof fn lemma_wf_grows(
        self,
        later: Record<T>,
        ids: Set<ReplicaID>,
        actor: ReplicaID,
        term: usize,
    )
        requires
            self.wf(ids),
            self.grows_into(later, actor, term),
            self.new_wf(later, ids, actor, term),
            forall|t: usize| #[trigger]
                self.voters.contains_key(t) && self.voters[t].contains(actor) ==> t <= term,
            forall|t: usize| #[trigger] self.grants.contains_key((actor, t)) ==> t <= term,
        ensures
            later.wf(ids),
    {
        assert(later.logs.contains_key(0));
        assert(later.logs[0] == self.logs[0]);
        assert forall|t: usize| #[trigger] later.logs.contains_key(t) implies later.log_wf(t) by {
            if self.logs.contains_key(t) && later.logs[t] == self.logs[t] {
                assert(self.log_wf(t));
                self.lemma_rooted_grows(later, actor, term, self.logs[t]);
            } else {
                assert(t == term);
            }
        }
        assert forall|t: usize| #[trigger] later.leaders.contains_key(t) implies later.leader_wf(
            ids,
            t,
        ) && later.complete(t) by {
            if self.leaders.contains_key(t) {
                assert(self.leader_wf(ids, t));
                assert(self.voters.contains_key(t));
                self.lemma_complete_grows(later, ids, actor, term, t);
            }
        }
        assert forall|id: ReplicaID, t: usize| #[trigger]
            later.grants.contains_key((id, t)) implies later.grant_wf(ids, id, t) by {
            if self.grants.contains_key((id, t)) {
                assert(self.grant_wf(ids, id, t));
            }
        }
        assert forall|id: ReplicaID, t: usize| #[trigger]
            later.grant_logs.contains_key((id, t)) implies later.grant_log_wf(id, t) by {
            if self.grant_logs.contains_key((id, t)) {
                self.lemma_grant_log_grows(later, ids, actor, term, id, t);
            }
        }
        assert forall|id: ReplicaID, t: usize, n: usize| #[trigger]
            later.acks.contains((id, t, n)) implies ids.contains(id) && later.leaders.contains_key(
            t,
        ) && later.leaders[t] != id && n < later.logs[t].len() by {
            if self.acks.contains((id, t, n)) {
                assert(self.leaders.contains_key(t));
                assert(self.logs.contains_key(t));
            }
        }
    }

    proof fn lemma_complete_grows(
        self,
        later: Record<T>,
        ids: Set<ReplicaID>,
        actor: ReplicaID,
        at: usize,
        term: usize,
    )
        requires
            self.wf(ids),
            self.grows_into(later, actor, at),
            self.leaders.contains_key(term),
            self.voters[term].contains(actor) ==> term <= at,
        ensures
            later.complete(term),
    {
        assert forall|t: usize, n: int, id: ReplicaID|
            t < term && #[trigger] later.own(t, n) && #[trigger] later.voters[term].contains(id)
                && later.ack(id, t, n) && later.passed_on(t, term as int, n) implies later.holds(
            later.logs[term],
            t,
            n,
        ) by {
            self.lemma_ack_was(later, ids, actor, at, id, t, n);
            self.lemma_passed_on_before(later, actor, at, t, term as int, n);
            assert(self.complete(term));
            assert(self.own(t, n) && self.voters[term].contains(id));
            assert(self.holds(self.logs[term], t, n));
            assert(self.logs.contains_key(term));
            let log = self.logs[term];
            self.lemma_holds_grows(later, actor, at, log, t, n);
            assert(later.logs[term].take(n + 1) =~= later.logs[term].take(log.len() as int).take(
                n + 1,
            ));
            assert(log.take(log.len() as int) =~= log);
        }
    }

    proof fn lemma_grant_log_grows(
        self,
        later: Record<T>,
        ids: Set<ReplicaID>,
        actor: ReplicaID,
        at: usize,
        id: ReplicaID,
        term: usize,
    )
        requires
            self.wf(ids),
            self.grows_into(later, actor, at),
            self.grant_logs.contains_key((id, term)),
            forall|t: usize| #[trigger] self.grants.contains_key((actor, t)) ==> t <= at,
        ensures
            later.grant_log_wf(id, term),
    {
        assert(self.grant_log_wf(id, term));
        let log = self.grant_logs[(id, term)];
        assert(later.grant_logs[(id, term)] == log);
        assert(self.grants.contains_key((id, term)));
        self.lemma_rooted_grows(later, actor, at, log);
        assert forall|t: usize, n: int|
            log.last().term <= term && t < term && #[trigger] later.own(t, n) && later.ack(
                id,
                t,
                n,
            ) && later.passed_on(
                t,
                term as int,
                n,
            ) implies later.holds(log, t, n) by {
            self.lemma_ack_was(later, ids, actor, at, id, t, n);
            self.lemma_passed_on_before(later, actor, at, t, term as int, n);
            assert(self.own(t, n));
            self.lemma_holds_grows(later, actor, at, log, t, n);
        }
    }
}

} // verus!
