//! How the state of a replica fits the record of what has happened.

use crate::laws::events::numbered;
use crate::laws::record::Record;
use crate::message::LogEntry;
use crate::model::ReplicaView;
use crate::ReplicaID;
use vstd::prelude::*;

verus! {

/// Whether a replica is one of a cluster.
pub open spec fn member<T>(ids: Set<ReplicaID>, id: ReplicaID, replica: ReplicaView<T>) -> bool {
    &&& ids.contains(id)
    &&& replica.id == id
    &&& replica.wf()
    &&& replica.peer_ids.no_duplicates()
    &&& forall|peer_id: ReplicaID| #[trigger]
        replica.peer_ids.contains(peer_id) <==> ids.contains(peer_id) && peer_id != id
    &&& numbered(replica.log)
    &&& replica.log.len() < usize::MAX
}

/// Whether a log ends in an earlier term than another, or in the same and no later.
pub open spec fn no_further<T>(log: Seq<LogEntry<T>>, than: Seq<LogEntry<T>>) -> bool {
    ||| log.last().term < than.last().term
    ||| log.last().term == than.last().term && log.len() <= than.len()
}

/// The latest term that a replica has taken part in: its own, or that of its last
/// entry if it has followed a leader of a later term than its own.
pub open spec fn reach<T>(replica: ReplicaView<T>) -> usize {
    if replica.current_term < replica.log.last().term {
        replica.log.last().term
    } else {
        replica.current_term
    }
}

impl<T> Record<T> {
    /// The log of a replica is made of logs of leaders.
    pub open spec fn log_fits(self, replica: ReplicaView<T>) -> bool {
        &&& self.rooted(replica.log)
        &&& replica.log[0] == self.logs[0][0]
        &&& replica.log[0] == ReplicaView::first_entry(replica.noop_transition)
    }

    /// A leader is recorded as that of its term, with its log, and what it knows
    /// of its peers they have acknowledged. In a term that it has led a replica
    /// is no candidate.
    pub open spec fn lead_fits(
        self,
        ids: Set<ReplicaID>,
        id: ReplicaID,
        replica: ReplicaView<T>,
    ) -> bool {
        let term = replica.current_term;
        &&& replica.state is Leader ==> {
            &&& self.leaders.contains_key(term)
            &&& self.leaders[term] == id
            &&& self.logs[term] == replica.log
            &&& forall|peer_id: ReplicaID| #[trigger]
                replica.match_index.contains_key(peer_id) ==> ids.contains(peer_id) && peer_id
                    != id && (replica.match_index[peer_id] == 0 || self.acks.contains(
                    (peer_id, term, replica.match_index[peer_id]),
                ))
        }
        &&& forall|t: usize| #[trigger]
            self.leaders.contains_key(t) && self.leaders[t] == id ==> t <= term && (t == term
                ==> !(replica.state is Candidate))
    }

    /// A replica votes for one candidate in a term, and as a follower.
    pub open spec fn votes_fit(self, id: ReplicaID, replica: ReplicaView<T>) -> bool {
        let term = replica.current_term;
        &&& forall|t: usize| #[trigger]
            self.grants.contains_key((id, t)) ==> t <= term && (t == term ==> replica.state
                is Follower && replica.voted_for == Some(self.grants[(id, t)]))
        &&& forall|t: usize| #[trigger]
            self.voters.contains_key(t) && self.voters[t].contains(id) ==> t <= term
        &&& forall|t: usize, n: usize| #[trigger]
            self.acks.contains((id, t, n)) ==> t <= reach(replica)
    }

    /// A vote for a candidate is of a term that the candidate has reached, and of a
    /// replica whose log was no further than the candidate's. While the candidate
    /// stands for election with a log of a later term than its own, it is not of
    /// one of those who made the leader of that later term.
    pub open spec fn vote_fits(
        self,
        voter: ReplicaID,
        term: usize,
        replica: ReplicaView<T>,
    ) -> bool {
        let last_term = replica.log.last().term;
        &&& term <= replica.current_term
        &&& replica.state is Candidate && term == replica.current_term && term < last_term
            ==> !self.voters[last_term].contains(voter)
        &&& self.grant_logs.contains_key((voter, term)) ==> no_further(
            self.grant_logs[(voter, term)],
            replica.log,
        )
    }

    /// Whether a vote may be counted by a candidate.
    pub open spec fn counts(
        self,
        ids: Set<ReplicaID>,
        replica: ReplicaView<T>,
        voter: ReplicaID,
    ) -> bool {
        let key = (voter, replica.current_term);
        &&& ids.contains(voter)
        &&& voter == replica.id || self.grants.contains_key(key) && self.grants[key] == replica.id
    }

    /// What a candidate counts as votes are votes.
    pub open spec fn candidacy_fits(
        self,
        ids: Set<ReplicaID>,
        id: ReplicaID,
        replica: ReplicaView<T>,
    ) -> bool {
        let term = replica.current_term;
        &&& replica.state is Candidate ==> {
            &&& 0 < term
            &&& forall|voter: ReplicaID| #[trigger]
                replica.current_votes->0.contains(voter) ==> self.counts(ids, replica, voter)
        }
        &&& forall|voter: ReplicaID, t: usize| #[trigger]
            self.grants.contains_key((voter, t)) && self.grants[(voter, t)] == id
                ==> self.vote_fits(voter, t, replica)
    }

    /// A replica holds what it has acknowledged, if all leaders since did.
    pub open spec fn acks_fit(self, id: ReplicaID, replica: ReplicaView<T>) -> bool {
        forall|t: usize, n: int| #[trigger]
            self.own(t, n) && self.ack(id, t, n) && self.passed_on(
                t,
                reach(replica) + 1,
                n,
            ) ==> self.holds(replica.log, t, n)
    }

    /// What holds of a replica and a record at all times.
    pub open spec fn fits(
        self,
        ids: Set<ReplicaID>,
        id: ReplicaID,
        replica: ReplicaView<T>,
    ) -> bool {
        &&& member(ids, id, replica)
        &&& self.log_fits(replica)
        &&& self.lead_fits(ids, id, replica)
        &&& self.votes_fit(id, replica)
        &&& self.candidacy_fits(ids, id, replica)
        &&& self.acks_fit(id, replica)
        &&& self.safe(ids, replica.log, replica.commit_index, reach(replica))
    }

    /// A replica fits the record as it grows by what another does.
    pub(crate) proof fn lemma_fits_grows(
        self,
        later: Record<T>,
        ids: Set<ReplicaID>,
        actor: ReplicaID,
        at: usize,
        id: ReplicaID,
        replica: ReplicaView<T>,
    )
        requires
            self.wf(ids),
            later.wf(ids),
            self.grows_into(later, actor, at),
            self.fits(ids, id, replica),
            id != actor,
            later.grants.contains_key((actor, at)) && !self.grants.contains_key((actor, at))
                && later.grants[(actor, at)] == id ==> later.vote_fits(actor, at, replica),
        ensures
            later.fits(ids, id, replica),
    {
        let term = replica.current_term;
        self.lemma_rooted_grows(later, actor, at, replica.log);
        assert(later.logs[0] == self.logs[0]) by {
            assert(self.logs.contains_key(0));
        }
        assert(later.lead_fits(ids, id, replica)) by {
            if replica.state is Leader {
                assert(self.logs.contains_key(term));
            }
        }
        assert(later.votes_fit(id, replica)) by {
            assert forall|t: usize| #[trigger]
                later.voters.contains_key(t) && later.voters[t].contains(id) implies t <= term by {
                assert(later.leaders.contains_key(t));
                if self.leaders.contains_key(t) {
                    assert(self.voters.contains_key(t));
                } else {
                    assert(later.leader_wf(ids, t));
                    assert(later.grants.contains_key((id, t)));
                    assert(self.grants.contains_key((id, t)));
                }
            }
        }
        assert(later.candidacy_fits(ids, id, replica)) by {
            let last = replica.log.len() - 1;
            assert(self.logs.contains_key(replica.log[last].term));
            assert forall|voter: ReplicaID, t: usize| #[trigger]
                later.grants.contains_key((voter, t)) && later.grants[(voter, t)]
                    == id implies later.vote_fits(voter, t, replica) by {
                if self.grants.contains_key((voter, t)) {
                    assert(self.vote_fits(voter, t, replica));
                }
            }
        }
        assert(later.acks_fit(id, replica)) by {
            assert forall|t: usize, n: int| #[trigger]
                later.own(t, n) && later.ack(id, t, n) && later.passed_on(
                    t,
                    reach(replica) + 1,
                    n,
                ) implies later.holds(replica.log, t, n) by {
                self.lemma_ack_was(later, ids, actor, at, id, t, n);
                self.lemma_passed_on_before(later, actor, at, t, reach(replica) + 1, n);
                self.lemma_holds_grows(later, actor, at, replica.log, t, n);
            }
        }
        self.lemma_safe_grows(
            later,
            actor,
            at,
            ids,
            replica.log,
            replica.commit_index,
            reach(replica),
            reach(replica),
        );
    }
}

} // verus!
