//! Laws about a whole cluster, through elections and restarts.

use crate::laws::consistency::{agree_up_to, matching};
use crate::laws::events::{react, term_never_goes_back, Input};
use crate::laws::fitting::reach;
use crate::laws::replication::{applied_by, state_machine_keeps_up, transitions_between};
use crate::laws::storage::{storage_keeps_up, storage_of};
use crate::laws::world::{acts_in, Happening, World};
use crate::message::LogEntry;
use crate::ReplicaID;
use std::sync::Arc;
use vstd::prelude::*;

verus! {

/// Whether a replica starts again with a log of one entry.
pub open spec fn starts_on_one_entry<T>(happening: Happening<T>, at: ReplicaID) -> bool {
    happening matches Happening::Restart { id, stored, .. } && id == at && stored.last_index == 0
}

impl<T> World<T> {
    /// A new cluster is sound.
    pub proof fn new_cluster_is_sound(self)
        requires
            self.is_new(),
        ensures
            self.sound(),
    {
        let record = self.record;
        let log = record.logs[0];
        assert(self.ids.contains(self.ids.choose()));
        assert(log.take(1) =~= log);
        assert(record.logs.contains_key(0));
        assert forall|t: usize| #[trigger] record.logs.contains_key(t) implies t == 0 by {
            assert(record.logs.dom().contains(t));
        }
        assert(record.log_wf(0));
        assert forall|id: ReplicaID, t: usize| !(#[trigger] record.grant_logs.contains_key(
            (id, t),
        )) by {
            assert(!record.grant_logs.dom().contains((id, t)));
        }
        assert(record.wf(self.ids));
        assert forall|id: ReplicaID| #[trigger] self.ids.contains(id) implies record.fits(
            self.ids,
            id,
            self.replicas[id],
        ) by {
            let replica = self.replicas[id];
            assert(record.acks_fit(id, replica));
            assert(record.safe(self.ids, replica.log, 0, replica.current_term));
        }
    }

    /// What becomes of a new cluster is sound, whatever happens.
    pub proof fn cluster_stays_sound(self, happenings: Seq<Happening<T>>)
        requires
            self.is_new(),
            self.can_all_happen(happenings),
        ensures
            self.after_all(happenings).sound(),
        decreases happenings.len(),
    {
        if happenings.len() == 0 {
            self.new_cluster_is_sound();
        } else {
            let before = happenings.drop_last();
            self.cluster_stays_sound(before);
            let world = self.after_all(before);
            match happenings.last() {
                Happening::Event { id, input } => world.every_event_keeps_sound(id, input),
                Happening::Restart { id, stored, heartbeat_timeout, election_timeout, now } => {
                    world.restart_keeps_sound(
                        id,
                        stored,
                        heartbeat_timeout,
                        election_timeout,
                        now,
                    );
                },
            }
        }
    }

    /// The logs of a cluster stay consistent: whatever happens in a new cluster with
    /// messages that come in time, any two replicas hold the same committed entries
    /// as far as both have come.
    pub proof fn cluster_stays_consistent(
        self,
        happenings: Seq<Happening<T>>,
        one: ReplicaID,
        other: ReplicaID,
        index: usize,
    )
        requires
            self.is_new(),
            self.can_all_happen(happenings),
            ({
                let world = self.after_all(happenings);
                &&& world.ids.contains(one)
                &&& world.ids.contains(other)
                &&& index <= world.replicas[one].commit_index
                &&& index <= world.replicas[other].commit_index
            }),
        ensures
            ({
                let world = self.after_all(happenings);
                agree_up_to(world.replicas[one].log, world.replicas[other].log, index)
            }),
    {
        self.cluster_stays_sound(happenings);
        let world = self.after_all(happenings);
        let first = world.replicas[one];
        let second = world.replicas[other];
        assert(world.record.fits(world.ids, one, first));
        assert(world.record.fits(world.ids, other, second));
        world.record.lemma_safe_logs_agree(
            world.ids,
            first.log,
            first.commit_index,
            reach(first),
            second.log,
            second.commit_index,
            reach(second),
            index,
        );
    }

    /// A term has one leader at most: whatever happens in a new cluster with
    /// messages that come in time, two replicas that lead in the same term are one.
    pub proof fn one_leader_per_term(
        self,
        happenings: Seq<Happening<T>>,
        one: ReplicaID,
        other: ReplicaID,
    )
        requires
            self.is_new(),
            self.can_all_happen(happenings),
            ({
                let world = self.after_all(happenings);
                &&& world.ids.contains(one)
                &&& world.ids.contains(other)
                &&& world.replicas[one].state is Leader
                &&& world.replicas[other].state is Leader
                &&& world.replicas[one].current_term == world.replicas[other].current_term
            }),
        ensures
            one == other,
    {
        self.cluster_stays_sound(happenings);
        let world = self.after_all(happenings);
        assert(world.record.fits(world.ids, one, world.replicas[one]));
        assert(world.record.fits(world.ids, other, world.replicas[other]));
    }

    /// The logs of a cluster match: whatever happens in a new cluster with messages
    /// that come in time, two logs with an entry of the same index and term are the
    /// same up to it.
    pub proof fn logs_match(
        self,
        happenings: Seq<Happening<T>>,
        one: ReplicaID,
        other: ReplicaID,
    )
        requires
            self.is_new(),
            self.can_all_happen(happenings),
            self.after_all(happenings).ids.contains(one),
            self.after_all(happenings).ids.contains(other),
        ensures
            ({
                let world = self.after_all(happenings);
                matching(world.replicas[one].log, world.replicas[other].log)
            }),
    {
        self.cluster_stays_sound(happenings);
        let world = self.after_all(happenings);
        assert(world.record.fits(world.ids, one, world.replicas[one]));
        assert(world.record.fits(world.ids, other, world.replicas[other]));
        world.record.lemma_rooted_match(world.replicas[one].log, world.replicas[other].log);
    }

    /// What is committed on a replica stays: no event takes its commit index back,
    /// drops a committed entry or puts another in its place.
    pub proof fn committed_entries_stay_in_cluster(self, id: ReplicaID, input: Input<T>)
        requires
            self.sound(),
            self.can_happen(id, input),
        ensures
            ({
                let before = self.replicas[id];
                let after = react(before, input).state;
                &&& before.commit_index <= after.commit_index
                &&& agree_up_to(before.log, after.log, before.commit_index)
            }),
    {
        let before = self.replicas[id];
        let after = react(before, input).state;
        let at = acts_in(before, input);
        let later = self.after(id, input).record;
        assert(self.record.fits(self.ids, id, before));
        self.lemma_recorded(id, input);
        term_never_goes_back(before, input);
        self.record.lemma_wf_grows(later, self.ids, id, at);
        self.record.lemma_safe_grows(
            later,
            id,
            at,
            self.ids,
            before.log,
            before.commit_index,
            reach(before),
            reach(before),
        );
        assert(later.logs[0] == self.record.logs[0]) by {
            assert(self.record.logs.contains_key(0));
        }
        later.lemma_safe_logs_agree(
            self.ids,
            before.log,
            before.commit_index,
            reach(before),
            after.log,
            after.commit_index,
            reach(after),
            before.commit_index,
        );
    }

    /// A replica can start again at any time, whatever happens in a new cluster: its
    /// storage holds its term, its vote and its log. Left out is what comes after it
    /// has started again with a log of one entry.
    pub proof fn storage_stays_in_step(self, happenings: Seq<Happening<T>>, id: ReplicaID)
        requires
            self.is_new(),
            self.can_all_happen(happenings),
            self.ids.contains(id),
            forall|i: int|
                0 <= i < happenings.len() ==> !starts_on_one_entry(#[trigger] happenings[i], id),
        ensures
            ({
                let world = self.after_all(happenings);
                &&& world.ids == self.ids
                &&& world.storages[id] == storage_of(world.replicas[id])
            }),
        decreases happenings.len(),
    {
        if happenings.len() > 0 {
            let before = happenings.drop_last();
            assert forall|i: int| 0 <= i < before.len() implies !starts_on_one_entry(
                #[trigger] before[i],
                id,
            ) by {
                assert(happenings[i] == before[i]);
            }
            self.storage_stays_in_step(before, id);
            let world = self.after_all(before);
            let last = happenings[happenings.len() - 1];
            match last {
                Happening::Event { id: actor, input } => {
                    storage_keeps_up(world.replicas[id], input);
                },
                Happening::Restart { id: restarted, stored, .. } => {
                    if restarted == id {
                        assert(world.can_restart(id, stored));
                    }
                },
            }
        }
    }

    /// What the state machine of a replica has been given to apply, in order, since
    /// the replica last started.
    pub open spec fn applied(self, happenings: Seq<Happening<T>>, at: ReplicaID) -> Seq<Arc<T>>
        decreases happenings.len(),
    {
        if happenings.len() == 0 {
            seq![]
        } else {
            let before = happenings.drop_last();
            match happenings.last() {
                Happening::Event { id, input } => if id == at {
                    self.applied(before, at) + applied_by(
                        react(self.after_all(before).replicas[id], input).effects,
                    )
                } else {
                    self.applied(before, at)
                },
                Happening::Restart { id, .. } => if id == at {
                    seq![]
                } else {
                    self.applied(before, at)
                },
            }
        }
    }

    /// An event of a replica gives its state machine what follows on what it has
    /// been given so far.
    proof fn lemma_event_continues(self, id: ReplicaID, input: Input<T>)
        requires
            self.sound(),
            self.can_happen(id, input),
            self.replicas[id].last_applied <= self.replicas[id].commit_index,
        ensures
            ({
                let before = self.replicas[id];
                let outcome = react(before, input);
                let after = outcome.state;
                &&& after.last_applied <= after.commit_index
                &&& transitions_between(before.log, 0, before.last_applied) + applied_by(
                    outcome.effects,
                ) == transitions_between(after.log, 0, after.last_applied)
            }),
    {
        let before = self.replicas[id];
        let after = react(before, input).state;
        self.every_event_keeps_sound(id, input);
        assert(self.after(id, input).ids.contains(id));
        assert(self.after(id, input).record.fits(self.ids, id, after));
        self.committed_entries_stay_in_cluster(id, input);
        state_machine_keeps_up(before, input);
        lemma_transitions_continue(
            before.log,
            after.log,
            before.commit_index,
            before.last_applied,
            after.last_applied,
        );
    }

    /// Whatever happens in a new cluster with messages that come in time, the state
    /// machine of a replica has been given the transitions of the replica's log
    /// from the second entry up to the highest applied one, which is committed.
    pub proof fn state_machine_follows_log(self, happenings: Seq<Happening<T>>, id: ReplicaID)
        requires
            self.is_new(),
            self.can_all_happen(happenings),
            self.ids.contains(id),
        ensures
            ({
                let world = self.after_all(happenings);
                let replica = world.replicas[id];
                &&& world.ids == self.ids
                &&& replica.last_applied <= replica.commit_index < replica.log.len()
                &&& self.applied(happenings, id) == transitions_between(
                    replica.log,
                    0,
                    replica.last_applied,
                )
            }),
        decreases happenings.len(),
    {
        let world = self.after_all(happenings);
        let replica = world.replicas[id];
        assert(transitions_between(replica.log, 0, 0) =~= Seq::<Arc<T>>::empty());
        self.cluster_stays_sound(happenings);
        if happenings.len() > 0 {
            let before = happenings.drop_last();
            self.state_machine_follows_log(before, id);
            self.cluster_stays_sound(before);
            if let Happening::Event { id: actor, input } = happenings.last() {
                if actor == id {
                    self.after_all(before).lemma_event_continues(id, input);
                }
            }
        }
        assert(world.ids.contains(id));
        assert(world.record.fits(world.ids, id, replica));
    }

    /// The state machines of a cluster stay consistent: whatever happens in a new
    /// cluster of any size, through any number of elections, with messages lost,
    /// repeated, delayed and overtaken as long as they come in time, and with
    /// replicas that start again on storages that hold what they left, what one
    /// state machine has been given to apply the others have been given, in
    /// the same order, as far as they have come.
    pub proof fn state_machines_agree(
        self,
        happenings: Seq<Happening<T>>,
        one: ReplicaID,
        other: ReplicaID,
    )
        requires
            self.is_new(),
            self.can_all_happen(happenings),
            self.ids.contains(one),
            self.ids.contains(other),
            self.applied(happenings, one).len() <= self.applied(happenings, other).len(),
        ensures
            self.applied(happenings, one).is_prefix_of(self.applied(happenings, other)),
    {
        self.state_machine_follows_log(happenings, one);
        self.state_machine_follows_log(happenings, other);
        let world = self.after_all(happenings);
        let index = world.replicas[one].last_applied;
        self.cluster_stays_consistent(happenings, one, other, index);
        let kept = index + 1;
        assert forall|i: int| 0 <= i < kept implies #[trigger] world.replicas[one].log[i]
            == world.replicas[other].log[i] by {
            assert(world.replicas[one].log.take(kept)[i] == world.replicas[other].log.take(
                kept,
            )[i]);
        }
    }
}

/// What is applied after something else continues it, if the logs agree so far.
proof fn lemma_transitions_continue<T>(
    log: Seq<LogEntry<T>>,
    later: Seq<LogEntry<T>>,
    agreed: usize,
    low: usize,
    high: usize,
)
    requires
        agree_up_to(log, later, agreed),
        low <= agreed,
        low <= high < later.len(),
    ensures
        transitions_between(log, 0, low) + transitions_between(later, low, high)
            == transitions_between(later, 0, high),
{
    assert forall|i: int| 0 <= i <= low implies #[trigger] log[i] == later[i] by {
        assert(log.take(agreed + 1)[i] == later.take(agreed + 1)[i]);
    }
    assert(transitions_between(log, 0, low) + transitions_between(later, low, high)
        =~= transitions_between(later, 0, high));
}

} // verus!
