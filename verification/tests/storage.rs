use little_raft::effect::Effect;
use little_raft::message::{LogEntry, Message};
use little_raft::model::{State, Stored};
use little_raft::replica::Replica;
use std::sync::Arc;

type Transition = &'static str;

struct Disk {
    term: usize,
    vote: Option<usize>,
    log: Vec<LogEntry<Transition>>,
}

impl Disk {
    fn new() -> Disk {
        Disk { term: 0, vote: None, log: Vec::new() }
    }

    fn perform(&mut self, effects: Vec<Effect<Transition>>) {
        for effect in effects {
            match effect {
                Effect::StoreTerm { term } => self.term = term,
                Effect::StoreVote { vote } => self.vote = vote,
                Effect::PushEntry { entry } => self.log.push(entry),
                Effect::TruncateEntries { index } => self.log.truncate(index),
                _ => {}
            }
        }
    }

    fn stored(&self) -> Stored<Transition> {
        Stored {
            term: self.term,
            vote: self.vote,
            last_index: self.log.len().saturating_sub(1),
            entries: self.log.clone(),
        }
    }
}

fn start(disk: &Disk) -> (Replica<Transition>, Vec<Effect<Transition>>) {
    Replica::new(1, vec![2, 3], Arc::new("noop"), 50, (100, 200), disk.stored(), 0)
}

fn entry(index: usize, term: usize, transition: Transition) -> LogEntry<Transition> {
    LogEntry { index, term, transition: Arc::new(transition) }
}

#[test]
fn first_start_opens_the_log() {
    let mut disk = Disk::new();
    let (replica, effects) = start(&disk);
    assert_eq!(replica.state(), State::Follower);
    assert_eq!(effects, vec![Effect::PushEntry { entry: entry(0, 0, "noop") }]);
    disk.perform(effects);
    assert_eq!(disk.log, vec![entry(0, 0, "noop")]);
}

#[test]
fn storage_follows_the_replica() {
    let mut disk = Disk::new();
    let (mut replica, effects) = start(&disk);
    disk.perform(effects);
    disk.perform(replica.become_candidate());
    assert_eq!((disk.term, disk.vote), (1, Some(1)));
    disk.perform(replica.process_message(Message::VoteResponse {
        from_id: 2,
        term: 1,
        vote_granted: true,
    }));
    assert_eq!((disk.term, disk.vote), (1, None));
    disk.perform(replica.load_new_transitions(vec![Arc::new("x")]));
    assert_eq!(disk.log, vec![entry(0, 0, "noop"), entry(1, 1, "noop"), entry(2, 1, "x")]);
    disk.perform(replica.process_message(Message::AppendEntryResponse {
        from_id: 2,
        term: 4,
        success: false,
        last_index: 0,
        mismatch_index: None,
    }));
    assert_eq!((disk.term, disk.vote), (4, None));
    disk.perform(replica.process_message(Message::AppendEntryRequest {
        from_id: 2,
        term: 4,
        prev_log_index: 1,
        prev_log_term: 1,
        entries: vec![entry(2, 4, "noop"), entry(3, 4, "y")],
        commit_index: 0,
    }));
    let log = vec![entry(0, 0, "noop"), entry(1, 1, "noop"), entry(2, 4, "noop"), entry(3, 4, "y")];
    assert_eq!(disk.log, log);
}

#[test]
fn restart_continues_from_the_storage() {
    let mut disk = Disk::new();
    disk.term = 4;
    disk.vote = Some(3);
    disk.log = vec![entry(0, 0, "noop"), entry(1, 2, "x")];
    let (mut replica, effects) = start(&disk);
    assert!(effects.is_empty());
    let vote = Message::VoteRequest { from_id: 2, term: 4, last_log_index: 9, last_log_term: 9 };
    assert_eq!(
        replica.process_message(vote),
        vec![Effect::SendMessage {
            to_id: 2,
            message: Message::VoteResponse { from_id: 1, term: 4, vote_granted: false },
        }]
    );
    let effects = replica.become_candidate();
    assert_eq!(
        effects[2],
        Effect::SendMessage {
            to_id: 2,
            message: Message::VoteRequest {
                from_id: 1,
                term: 5,
                last_log_index: 1,
                last_log_term: 2,
            },
        }
    );
}

#[test]
fn stored_first_entry_alone_is_taken_for_new() {
    let mut disk = Disk::new();
    disk.log = vec![entry(0, 0, "noop")];
    let (_, effects) = start(&disk);
    assert_eq!(effects, vec![Effect::PushEntry { entry: entry(0, 0, "noop") }]);
    disk.perform(effects);
    assert_eq!(disk.log, vec![entry(0, 0, "noop"), entry(0, 0, "noop")]);
}

#[test]
fn term_and_vote_survive_a_restart_on_one_entry() {
    let mut disk = Disk::new();
    let (mut replica, effects) = start(&disk);
    disk.perform(effects);
    let vote = |from_id, term| Message::VoteRequest {
        from_id,
        term,
        last_log_index: 0,
        last_log_term: 0,
    };
    let answer = |to_id, term, vote_granted| Effect::SendMessage {
        to_id,
        message: Message::VoteResponse { from_id: 1, term, vote_granted },
    };
    disk.perform(replica.process_message(vote(2, 7)));
    let (mut replica, effects) = start(&disk);
    disk.perform(effects);
    assert_eq!((disk.term, disk.vote), (7, Some(2)));
    assert_eq!(replica.state(), State::Follower);
    assert_eq!(replica.process_message(vote(3, 7)), vec![answer(3, 7, false)]);
    assert_eq!(replica.process_message(vote(2, 7))[1], answer(2, 7, true));
}
