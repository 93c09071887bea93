//! A record of what has happened in a cluster: who led in which term and with
//! which log, who voted for whom, and who acknowledged what.

use crate::laws::elections::majorities_meet;
use crate::laws::events::numbered;
use crate::message::LogEntry;
use crate::ReplicaID;
use vstd::prelude::*;

verus! {

/// What has happened in a cluster so far.
#[verifier::reject_recursive_types(T)]
pub struct Record<T> {
    /// Who led in a term.
    pub leaders: Map<usize, ReplicaID>,
    /// Whose votes made the leader of a term.
    pub voters: Map<usize, Set<ReplicaID>>,
    /// The log of the leader of a term, as far as it got while it led. The log
    /// that all replicas start with stands for the term before the first.
    pub logs: Map<usize, Seq<LogEntry<T>>>,
    /// Whom a replica granted its vote in a term.
    pub grants: Map<(ReplicaID, usize), ReplicaID>,
    /// The log of a replica when it granted its vote in a term without leader.
    pub grant_logs: Map<(ReplicaID, usize), Seq<LogEntry<T>>>,
    /// That a replica told the leader of a term that it holds its log up to an index.
    pub acks: Set<(ReplicaID, usize, usize)>,
}

/// Whether replicas make more than half of a cluster.
pub open spec fn majority(ids: Set<ReplicaID>, some: Set<ReplicaID>) -> bool {
    some.subset_of(ids) && some.len() * 2 > ids.len()
}

impl<T> Record<T> {
    /// Whether a log agrees with the one of a term up to an index.
    pub open spec fn holds(self, log: Seq<LogEntry<T>>, term: usize, index: int) -> bool {
        &&& index < log.len()
        &&& index < self.logs[term].len()
        &&& log.take(index + 1) == self.logs[term].take(index + 1)
    }

    /// Whether a log agrees, up to each of its entries, with the log of the
    /// entry's term.
    pub open spec fn rooted(self, log: Seq<LogEntry<T>>) -> bool {
        forall|i: int|
            0 <= i < log.len() ==> self.logs.contains_key((#[trigger] log[i]).term) && self.holds(
                log,
                log[i].term,
                i,
            )
    }

    /// Whether the leader of a term appended, in that term, the entry at an index.
    pub open spec fn own(self, term: usize, index: int) -> bool {
        &&& self.logs.contains_key(term)
        &&& 0 <= index < self.logs[term].len()
        &&& self.logs[term][index].term == term
    }

    /// Whether a replica has acknowledged the log of a term up to an index.
    pub open spec fn ack(self, id: ReplicaID, term: usize, index: int) -> bool {
        ||| self.leaders.contains_key(term) && self.leaders[term] == id && index
            < self.logs[term].len()
        ||| exists|last: usize| index <= last && #[trigger] self.acks.contains((id, term, last))
    }

    /// Whether all leaders of the terms between two held the log of the first up
    /// to an index.
    pub open spec fn passed_on(self, term: usize, end: int, index: int) -> bool {
        forall|s: usize|
            term < s < end && #[trigger] self.logs.contains_key(s) ==> self.holds(
                self.logs[s],
                term,
                index,
            )
    }

    /// Whether a majority has acknowledged an entry of the leader's own.
    pub open spec fn chosen(self, ids: Set<ReplicaID>, term: usize, index: int) -> bool {
        &&& self.own(term, index)
        &&& exists|some: Set<ReplicaID>|
            #![trigger majority(ids, some)]
            majority(ids, some) && forall|id: ReplicaID| #[trigger]
                some.contains(id) ==> self.ack(id, term, index)
    }

    /// Whether a commit index stands for entries that a majority has acknowledged,
    /// in a term up to a given one.
    pub open spec fn safe(
        self,
        ids: Set<ReplicaID>,
        log: Seq<LogEntry<T>>,
        commit_index: usize,
        bound: usize,
    ) -> bool {
        &&& commit_index < log.len()
        &&& commit_index == 0 || exists|term: usize, index: int| #[trigger]
            self.chosen(ids, term, index) && term <= bound && commit_index <= index && log.take(
                commit_index + 1,
            ) == self.logs[term].take(commit_index + 1)
    }

    /// What holds of the log of a term.
    pub open spec fn log_wf(self, term: usize) -> bool {
        let log = self.logs[term];
        &&& 0 < log.len() < usize::MAX
        &&& numbered(log)
        &&& log.last().term == term
        &&& log[0] == self.logs[0][0]
        &&& self.rooted(log)
        &&& forall|i: int| 0 <= i < log.len() ==> (#[trigger] log[i]).term <= term
    }

    /// What holds of the leader of a term and of its voters.
    pub open spec fn leader_wf(self, ids: Set<ReplicaID>, term: usize) -> bool {
        let leader = self.leaders[term];
        &&& ids.contains(leader)
        &&& !self.grants.contains_key((leader, term))
        &&& majority(ids, self.voters[term])
        &&& forall|id: ReplicaID| #[trigger]
            self.voters[term].contains(id) ==> id == leader || self.grants.contains_key((id, term))
                && self.grants[(id, term)] == leader
    }

    /// What holds of a vote.
    pub open spec fn grant_wf(self, ids: Set<ReplicaID>, id: ReplicaID, term: usize) -> bool {
        &&& ids.contains(id)
        &&& ids.contains(self.grants[(id, term)])
        &&& self.grants[(id, term)] != id
        &&& 0 < term
        &&& !self.logs.contains_key(term) ==> self.grant_logs.contains_key((id, term))
    }

    /// A replica that has acknowledged an entry holds it when it votes in a later
    /// term, if all leaders in between did and its log is not of a later term yet.
    pub open spec fn grant_log_wf(self, id: ReplicaID, term: usize) -> bool {
        let log = self.grant_logs[(id, term)];
        &&& self.grants.contains_key((id, term))
        &&& 0 < log.len()
        &&& self.rooted(log)
        &&& log.last().term <= term ==> forall|t: usize, n: int|
            t < term && #[trigger] self.own(t, n) && self.ack(id, t, n) && self.passed_on(
                t,
                term as int,
                n,
            ) ==> self.holds(log, t, n)
    }

    /// What one of its voters has acknowledged the leader of a term holds, if all
    /// leaders in between did.
    pub open spec fn complete(self, term: usize) -> bool {
        forall|t: usize, n: int, id: ReplicaID|
            t < term && #[trigger] self.own(t, n) && #[trigger] self.voters[term].contains(id)
                && self.ack(id, t, n) && self.passed_on(t, term as int, n) ==> self.holds(
                self.logs[term],
                t,
                n,
            )
    }

    /// What holds of a record at all times.
    pub open spec fn wf(self, ids: Set<ReplicaID>) -> bool {
        &&& self.logs.contains_key(0)
        &&& self.logs[0].len() == 1
        &&& !self.leaders.contains_key(0)
        &&& forall|t: usize| #[trigger]
            self.logs.contains_key(t) <==> t == 0 || self.leaders.contains_key(t)
        &&& forall|t: usize| #[trigger]
            self.voters.contains_key(t) <==> self.leaders.contains_key(t)
        &&& forall|t: usize| #[trigger] self.logs.contains_key(t) ==> self.log_wf(t)
        &&& forall|t: usize| #[trigger]
            self.leaders.contains_key(t) ==> self.leader_wf(ids, t) && self.complete(t)
        &&& forall|id: ReplicaID, t: usize| #[trigger]
            self.grants.contains_key((id, t)) ==> self.grant_wf(ids, id, t)
        &&& forall|id: ReplicaID, t: usize| #[trigger]
            self.grant_logs.contains_key((id, t)) ==> self.grant_log_wf(id, t)
        &&& forall|id: ReplicaID, t: usize, n: usize| #[trigger]
            self.acks.contains((id, t, n)) ==> ids.contains(id) && self.leaders.contains_key(t)
                && self.leaders[t] != id && n < self.logs[t].len()
    }

    /// What a majority has acknowledged every later leader holds.
    pub(crate) proof fn lemma_chosen_is_passed_on(
        self,
        ids: Set<ReplicaID>,
        term: usize,
        index: int,
        later: usize,
    )
        requires
            ids.finite(),
            self.wf(ids),
            self.chosen(ids, term, index),
            term < later,
            self.leaders.contains_key(later),
        ensures
            self.holds(self.logs[later], term, index),
        decreases later,
    {
        assert forall|s: usize|
            term < s < later && #[trigger] self.logs.contains_key(s) implies self.holds(
            self.logs[s],
            term,
            index,
        ) by {
            assert(self.leaders.contains_key(s));
            self.lemma_chosen_is_passed_on(ids, term, index, s);
        }
        let some = choose|some: Set<ReplicaID>|
            #![trigger majority(ids, some)]
            majority(ids, some) && forall|id: ReplicaID| #[trigger]
                some.contains(id) ==> self.ack(id, term, index);
        assert(self.leader_wf(ids, later));
        majorities_meet(ids, some, self.voters[later]);
        let id = choose|id: ReplicaID| some.contains(id) && self.voters[later].contains(id);
        assert(self.complete(later));
        assert(self.own(term, index) && self.voters[later].contains(id));
    }

    /// What replicas have committed is the same on all of them.
    pub(crate) proof fn lemma_safe_logs_agree(
        self,
        ids: Set<ReplicaID>,
        one: Seq<LogEntry<T>>,
        one_commit: usize,
        one_bound: usize,
        other: Seq<LogEntry<T>>,
        other_commit: usize,
        other_bound: usize,
        index: usize,
    )
        requires
            ids.finite(),
            self.wf(ids),
            self.safe(ids, one, one_commit, one_bound),
            self.safe(ids, other, other_commit, other_bound),
            one[0] == other[0],
            index <= one_commit,
            index <= other_commit,
        ensures
            one.take(index + 1) == other.take(index + 1),
    {
        if index == 0 {
            assert(one.take(1) =~= other.take(1));
        } else {
            let (s, m) = choose|term: usize, n: int| #[trigger]
                self.chosen(ids, term, n) && term <= one_bound && one_commit <= n && one.take(
                    one_commit + 1,
                ) == self.logs[term].take(one_commit + 1);
            let (t, n) = choose|term: usize, n: int| #[trigger]
                self.chosen(ids, term, n) && term <= other_bound && other_commit <= n
                    && other.take(other_commit + 1) == self.logs[term].take(other_commit + 1);
            let kept = index + 1;
            assert(one.take(kept) =~= one.take(one_commit + 1).take(kept));
            assert(self.logs[s].take(kept) =~= self.logs[s].take(one_commit + 1).take(kept));
            assert(other.take(kept) =~= other.take(other_commit + 1).take(kept));
            assert(self.logs[t].take(kept) =~= self.logs[t].take(other_commit + 1).take(kept));
            self.lemma_own_has_leader(ids, s, m);
            self.lemma_own_has_leader(ids, t, n);
            if s < t {
                self.lemma_chosen_is_passed_on(ids, s, m, t);
                assert(self.logs[t].take(kept) =~= self.logs[t].take(m + 1).take(kept));
                assert(self.logs[s].take(kept) =~= self.logs[s].take(m + 1).take(kept));
            } else if t < s {
                self.lemma_chosen_is_passed_on(ids, t, n, s);
                assert(self.logs[t].take(kept) =~= self.logs[t].take(n + 1).take(kept));
                assert(self.logs[s].take(kept) =~= self.logs[s].take(n + 1).take(kept));
            }
        }
    }

    /// An entry after the first is of a term with a leader.
    proof fn lemma_own_has_leader(self, ids: Set<ReplicaID>, term: usize, index: int)
        requires
            self.wf(ids),
            self.own(term, index),
            index > 0,
        ensures
            self.leaders.contains_key(term),
    {
    }
}

} // verus!
