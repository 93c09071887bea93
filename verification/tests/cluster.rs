use little_raft::effect::Effect;
use little_raft::message::{LogEntry, Message};
use little_raft::model::{State, Stored};
use little_raft::replica::Replica;
use std::sync::Arc;

type Transition = &'static str;

/// Replicas with their storages and state machines, and the messages on their way.
struct Cluster {
    replicas: Vec<Replica<Transition>>,
    terms: Vec<usize>,
    votes: Vec<Option<usize>>,
    logs: Vec<Vec<LogEntry<Transition>>>,
    machines: Vec<Vec<Transition>>,
    mail: Vec<(usize, Message<Transition>)>,
}

fn sender(message: &Message<Transition>) -> usize {
    match message {
        Message::VoteRequest { from_id, .. } => *from_id,
        Message::VoteResponse { from_id, .. } => *from_id,
        Message::AppendEntryRequest { from_id, .. } => *from_id,
        Message::AppendEntryResponse { from_id, .. } => *from_id,
    }
}

impl Cluster {
    fn new(size: usize) -> Cluster {
        let mut cluster = Cluster {
            replicas: Vec::new(),
            terms: vec![0; size],
            votes: vec![None; size],
            logs: vec![Vec::new(); size],
            machines: vec![Vec::new(); size],
            mail: Vec::new(),
        };
        for id in 0..size {
            let (replica, effects) = cluster.start(id);
            cluster.replicas.push(replica);
            cluster.perform(id, effects);
        }
        cluster
    }

    fn start(&self, id: usize) -> (Replica<Transition>, Vec<Effect<Transition>>) {
        let peer_ids = (0..self.terms.len()).filter(|peer_id| *peer_id != id).collect();
        let stored = Stored {
            term: self.terms[id],
            vote: self.votes[id],
            last_index: self.logs[id].len().saturating_sub(1),
            entries: self.logs[id].clone(),
        };
        Replica::new(id, peer_ids, Arc::new("noop"), 50, (100, 200), stored, 0)
    }

    fn restart(&mut self, id: usize) {
        let (replica, effects) = self.start(id);
        self.replicas[id] = replica;
        self.machines[id].clear();
        self.perform(id, effects);
    }

    fn perform(&mut self, id: usize, effects: Vec<Effect<Transition>>) {
        for effect in effects {
            match effect {
                Effect::SendMessage { to_id, message } => self.mail.push((to_id, message)),
                Effect::StoreTerm { term } => self.terms[id] = term,
                Effect::StoreVote { vote } => self.votes[id] = vote,
                Effect::PushEntry { entry } => self.logs[id].push(entry),
                Effect::TruncateEntries { index } => self.logs[id].truncate(index),
                Effect::ApplyTransition { transition } => self.machines[id].push(*transition),
                _ => {}
            }
        }
    }

    fn elect(&mut self, id: usize, reachable: &[usize]) {
        assert!(self.replicas[id].state() != State::Leader);
        let effects = self.replicas[id].become_candidate();
        self.perform(id, effects);
        self.deliver(reachable);
    }

    fn load(&mut self, id: usize, transition: Transition) {
        let effects = self.replicas[id].load_new_transitions(vec![Arc::new(transition)]);
        self.perform(id, effects);
    }

    /// Has a leader send what its peers lack, several times, for as long as it leads.
    fn replicate(&mut self, id: usize, reachable: &[usize]) {
        for _ in 0..8 {
            if self.replicas[id].state() != State::Leader {
                return;
            }
            assert!(self.replicas[id].can_send_to_all());
            let effects = self.replicas[id].broadcast_append_entry_request();
            self.perform(id, effects);
            self.deliver(reachable);
        }
    }

    /// Brings every message between replicas that reach each other; others are lost.
    fn deliver(&mut self, reachable: &[usize]) {
        while !self.mail.is_empty() {
            let (to, message) = self.mail.remove(0);
            if reachable.contains(&to) && reachable.contains(&sender(&message)) {
                assert!(self.replicas[to].understands(&message));
                let effects = self.replicas[to].process_message(message);
                self.perform(to, effects);
                assert!(self.replicas[to].can_apply());
                let effects = self.replicas[to].apply_ready_entries();
                self.perform(to, effects);
            }
        }
    }

    fn leaders(&self) -> Vec<(usize, usize)> {
        (0..self.replicas.len())
            .filter(|id| self.replicas[*id].state() == State::Leader)
            .map(|id| (id, self.terms[id]))
            .collect()
    }
}

fn entries(log: &[LogEntry<Transition>]) -> Vec<(usize, Transition)> {
    log.iter().map(|entry| (entry.term, *entry.transition)).collect()
}

#[test]
fn state_machines_agree_through_elections() {
    let mut cluster = Cluster::new(3);
    cluster.elect(0, &[0, 1, 2]);
    assert_eq!(cluster.leaders(), vec![(0, 1)]);
    cluster.load(0, "a");
    cluster.replicate(0, &[0, 1, 2]);
    assert_eq!(cluster.machines, vec![vec!["noop", "a"]; 3]);
    // Cut off from the others, the leader takes what it cannot commit.
    cluster.load(0, "lost");
    cluster.replicate(0, &[0]);
    cluster.elect(1, &[1, 2]);
    assert_eq!(cluster.leaders(), vec![(0, 1), (1, 2)]);
    cluster.load(1, "b");
    cluster.replicate(1, &[1, 2]);
    assert_eq!(cluster.machines[0], vec!["noop", "a"]);
    assert_eq!(cluster.machines[1], vec!["noop", "a", "noop", "b"]);
    assert_eq!(cluster.machines[2], cluster.machines[1]);
    // Back among the others it learns that it leads no more, and follows.
    cluster.replicate(0, &[0, 1, 2]);
    cluster.replicate(1, &[0, 1, 2]);
    assert_eq!(cluster.leaders(), vec![(1, 2)]);
    assert_eq!(cluster.machines, vec![vec!["noop", "a", "noop", "b"]; 3]);
    let log = vec![(0, "noop"), (1, "noop"), (1, "a"), (2, "noop"), (2, "b")];
    for id in 0..3 {
        assert_eq!(entries(&cluster.logs[id]), log);
    }
}

#[test]
fn replica_that_missed_an_election_follows_the_leader() {
    let mut cluster = Cluster::new(3);
    cluster.elect(0, &[0, 1]);
    cluster.load(0, "a");
    cluster.replicate(0, &[0, 2]);
    // Replica 2 has stayed in its term, and its answers count all the same.
    assert_eq!(cluster.terms, vec![1, 1, 0]);
    assert_eq!(entries(&cluster.logs[2]), vec![(0, "noop"), (1, "noop"), (1, "a")]);
    assert_eq!(cluster.machines, vec![vec!["noop", "a"], vec![], vec!["noop", "a"]]);
    // Its own election comes in the term of the leader, who refuses it.
    cluster.elect(2, &[0, 1, 2]);
    assert_eq!(cluster.leaders(), vec![(0, 1)]);
    assert_eq!(cluster.terms, vec![1, 1, 1]);
}

#[test]
fn restarted_replicas_apply_the_same_again() {
    let mut cluster = Cluster::new(3);
    cluster.elect(0, &[0, 1, 2]);
    cluster.load(0, "a");
    cluster.replicate(0, &[0, 1, 2]);
    cluster.restart(1);
    assert!(cluster.machines[1].is_empty());
    cluster.load(0, "b");
    cluster.replicate(0, &[0, 1, 2]);
    assert_eq!(cluster.machines, vec![vec!["noop", "a", "b"]; 3]);
    cluster.restart(0);
    assert!(cluster.leaders().is_empty());
    cluster.elect(2, &[0, 1, 2]);
    cluster.replicate(2, &[0, 1, 2]);
    assert_eq!(cluster.leaders(), vec![(2, 2)]);
    assert_eq!(cluster.machines, vec![vec!["noop", "a", "b", "noop"]; 3]);
}

#[test]
fn one_of_two_replicas_needs_both_votes() {
    let mut cluster = Cluster::new(2);
    cluster.elect(0, &[0]);
    assert!(cluster.leaders().is_empty());
    cluster.elect(1, &[1]);
    assert!(cluster.leaders().is_empty());
    cluster.elect(0, &[0, 1]);
    assert_eq!(cluster.leaders(), vec![(0, 2)]);
    cluster.load(0, "a");
    cluster.replicate(0, &[0, 1]);
    assert_eq!(cluster.machines, vec![vec!["noop", "a"]; 2]);
}

#[test]
fn five_replicas_have_one_leader_per_term() {
    let mut cluster = Cluster::new(5);
    cluster.elect(0, &[0, 1, 2]);
    cluster.elect(3, &[3, 4]);
    assert_eq!(cluster.leaders(), vec![(0, 1)]);
    cluster.elect(3, &[2, 3, 4]);
    assert_eq!(cluster.leaders(), vec![(0, 1), (3, 2)]);
    cluster.load(0, "x");
    cluster.load(3, "y");
    cluster.replicate(0, &[0, 1]);
    cluster.replicate(3, &[2, 3, 4]);
    assert!(cluster.machines[0].is_empty());
    for id in 2..5 {
        assert_eq!(cluster.machines[id], vec!["noop", "y"]);
    }
}

#[test]
fn two_halves_of_four_replicas_elect_nobody() {
    let mut cluster = Cluster::new(4);
    cluster.elect(0, &[0, 1]);
    cluster.elect(2, &[2, 3]);
    assert!(cluster.leaders().is_empty());
    assert_eq!(cluster.terms, vec![1, 1, 1, 1]);
    cluster.elect(0, &[0, 1, 3]);
    assert_eq!(cluster.leaders(), vec![(0, 2)]);
    cluster.load(0, "a");
    cluster.replicate(0, &[0, 1]);
    assert!(cluster.machines[0].is_empty());
    cluster.replicate(0, &[0, 1, 2, 3]);
    assert_eq!(cluster.machines, vec![vec!["noop", "a"]; 4]);
}
