use little_raft::effect::Effect;
use little_raft::message::{LogEntry, Message};
use little_raft::model::{State, Stored};
use little_raft::poll::WaitEvent;
use little_raft::replica::Replica;
use std::sync::Arc;

type Transition = &'static str;

fn entry(index: usize, term: usize) -> LogEntry<Transition> {
    LogEntry { index, term, transition: Arc::new("entry") }
}

fn follower(term: usize, vote: Option<usize>, entries: Vec<LogEntry<Transition>>) -> Replica<Transition> {
    let last_index = entries.len() - 1;
    let stored = Stored { term, vote, last_index, entries };
    Replica::new(1, vec![2, 3], Arc::new("noop"), 50, (100, 200), stored, 0).0
}

fn new_replica(peer_ids: Vec<usize>) -> Replica<Transition> {
    let stored = Stored { term: 0, vote: None, last_index: 0, entries: Vec::new() };
    Replica::new(1, peer_ids, Arc::new("noop"), 50, (100, 200), stored, 0).0
}

fn vote_request(term: usize, last_log_index: usize, last_log_term: usize) -> Message<Transition> {
    Message::VoteRequest { from_id: 2, term, last_log_index, last_log_term }
}

fn vote_response(from_id: usize, term: usize, vote_granted: bool) -> Message<Transition> {
    Message::VoteResponse { from_id, term, vote_granted }
}

fn answer(to_id: usize, term: usize, vote_granted: bool) -> Effect<Transition> {
    Effect::SendMessage { to_id, message: vote_response(1, term, vote_granted) }
}

#[test]
fn follower_votes_in_its_term() {
    let mut replica = follower(4, None, vec![entry(0, 0), entry(1, 3)]);
    assert_eq!(
        replica.process_message(vote_request(4, 1, 3)),
        vec![
            Effect::RegisterLeader { leader_id: None },
            answer(2, 4, true),
            Effect::StoreVote { vote: Some(2) },
        ]
    );
}

#[test]
fn follower_moves_to_later_term_to_vote() {
    let mut replica = follower(4, Some(3), vec![entry(0, 0), entry(1, 3)]);
    assert_eq!(
        replica.process_message(vote_request(6, 5, 5)),
        vec![
            Effect::RegisterLeader { leader_id: None },
            Effect::StoreTerm { term: 6 },
            Effect::StoreVote { vote: None },
            Effect::RegisterLeader { leader_id: None },
            answer(2, 6, true),
            Effect::StoreVote { vote: Some(2) },
        ]
    );
}

#[test]
fn follower_refuses_shorter_log() {
    let mut replica = follower(4, None, vec![entry(0, 0), entry(1, 3)]);
    assert_eq!(replica.process_message(vote_request(4, 0, 3)), vec![answer(2, 4, false)]);
}

#[test]
fn follower_refuses_log_of_earlier_term() {
    let mut replica = follower(4, None, vec![entry(0, 0), entry(1, 3)]);
    assert_eq!(replica.process_message(vote_request(4, 9, 2)), vec![answer(2, 4, false)]);
}

#[test]
fn follower_votes_for_one_candidate_per_term() {
    let mut replica = follower(4, None, vec![entry(0, 0), entry(1, 3)]);
    let other = Message::VoteRequest { from_id: 3, term: 4, last_log_index: 1, last_log_term: 3 };
    replica.process_message(vote_request(4, 1, 3));
    assert_eq!(replica.process_message(other), vec![answer(3, 4, false)]);
    assert_eq!(replica.process_message(vote_request(4, 1, 3))[1], answer(2, 4, true));
}

#[test]
fn follower_refuses_candidate_that_is_behind() {
    let mut voted = follower(4, Some(3), vec![entry(0, 0), entry(1, 3)]);
    assert_eq!(voted.process_message(vote_request(2, 1, 3)), vec![answer(2, 4, false)]);
    let mut free = follower(4, None, vec![entry(0, 0), entry(1, 3)]);
    assert_eq!(free.process_message(vote_request(2, 1, 3)), vec![answer(2, 4, false)]);
    // The vote of the term is still to be had.
    assert_eq!(free.process_message(vote_request(4, 1, 3))[1], answer(2, 4, true));
}

#[test]
fn new_follower_of_a_later_term_refuses_once() {
    let stored = Stored { term: 5, vote: None, last_index: 0, entries: Vec::new() };
    let mut replica = Replica::new(1, vec![2, 3], Arc::new("noop"), 50, (100, 200), stored, 0).0;
    assert_eq!(replica.process_vote_request_as_follower(2, 3, 0, 0), vec![answer(2, 5, false)]);
    assert_eq!(
        replica.process_vote_request_as_follower(3, 5, 0, 0),
        vec![
            Effect::RegisterLeader { leader_id: None },
            answer(3, 5, true),
            Effect::StoreVote { vote: Some(3) },
        ]
    );
    assert_eq!(replica.process_vote_request_as_follower(2, 5, 9, 9), vec![answer(2, 5, false)]);
    assert_eq!(replica.process_vote_request_as_follower(2, 4, 9, 9), vec![answer(2, 5, false)]);
}

#[test]
fn follower_ignores_answers() {
    let mut replica = new_replica(vec![2, 3]);
    assert!(replica.process_message(vote_response(2, 9, true)).is_empty());
    let answer = Message::AppendEntryResponse {
        from_id: 2,
        term: 9,
        success: true,
        last_index: usize::MAX,
        mismatch_index: None,
    };
    assert!(replica.understands(&answer));
    assert!(replica.process_message(answer).is_empty());
    assert_eq!(replica.state(), State::Follower);
}

#[test]
fn candidate_asks_every_peer() {
    let mut replica = follower(4, Some(3), vec![entry(0, 0), entry(1, 3)]);
    let request = || Message::VoteRequest {
        from_id: 1,
        term: 5,
        last_log_index: 1,
        last_log_term: 3,
    };
    assert_eq!(
        replica.become_candidate(),
        vec![
            Effect::StoreTerm { term: 5 },
            Effect::StoreVote { vote: Some(1) },
            Effect::SendMessage { to_id: 2, message: request() },
            Effect::SendMessage { to_id: 3, message: request() },
        ]
    );
    assert_eq!(replica.state(), State::Candidate);
}

#[test]
fn lone_replica_leads_at_once() {
    let mut replica = new_replica(Vec::new());
    let noop = LogEntry { index: 1, term: 1, transition: Arc::new("noop") };
    assert_eq!(
        replica.become_candidate(),
        vec![
            Effect::StoreTerm { term: 1 },
            Effect::StoreVote { vote: Some(1) },
            Effect::RegisterLeader { leader_id: Some(1) },
            Effect::StoreVote { vote: None },
            Effect::PushEntry { entry: noop },
        ]
    );
    assert_eq!(replica.state(), State::Leader);
}

#[test]
fn candidate_leads_with_the_majority() {
    let mut replica = new_replica(vec![2, 3, 4, 5]);
    replica.become_candidate();
    assert!(replica.process_message(vote_response(2, 1, true)).is_empty());
    assert!(replica.process_message(vote_response(2, 1, true)).is_empty());
    assert!(replica.process_message(vote_response(3, 1, false)).is_empty());
    assert_eq!(replica.state(), State::Candidate);
    let noop = LogEntry { index: 1, term: 1, transition: Arc::new("noop") };
    assert_eq!(
        replica.process_message(vote_response(3, 1, true)),
        vec![
            Effect::RegisterLeader { leader_id: Some(1) },
            Effect::StoreVote { vote: None },
            Effect::PushEntry { entry: noop },
        ]
    );
    assert_eq!(replica.state(), State::Leader);
}

#[test]
fn half_of_an_even_cluster_does_not_elect() {
    let mut replica = new_replica(vec![2, 3, 4]);
    replica.become_candidate();
    assert!(replica.process_vote_response_as_candidate(2, 1, true).is_empty());
    assert_eq!(replica.state(), State::Candidate);
    assert_eq!(
        replica.process_vote_response_as_candidate(3, 1, true)[0],
        Effect::RegisterLeader { leader_id: Some(1) }
    );
    assert_eq!(replica.state(), State::Leader);
}

#[test]
fn candidate_gives_up_for_later_term() {
    let mut replica = new_replica(vec![2, 3]);
    replica.become_candidate();
    assert_eq!(
        replica.process_message(vote_response(2, 7, false)),
        vec![
            Effect::RegisterLeader { leader_id: None },
            Effect::StoreTerm { term: 7 },
            Effect::StoreVote { vote: None },
        ]
    );
    assert_eq!(replica.state(), State::Follower);
}

#[test]
fn candidate_votes_in_later_term_only() {
    let mut replica = new_replica(vec![2, 3]);
    replica.become_candidate();
    assert_eq!(replica.process_message(vote_request(1, 5, 5)), vec![answer(2, 1, false)]);
    assert_eq!(replica.state(), State::Candidate);
    let effects = replica.process_message(vote_request(2, 5, 5));
    assert_eq!(effects.len(), 6);
    assert_eq!(effects[4], answer(2, 2, true));
    assert_eq!(replica.state(), State::Follower);
}

#[test]
fn candidate_follows_leader_of_its_term() {
    let mut replica = new_replica(vec![2, 3]);
    replica.become_candidate();
    let stale = Message::AppendEntryRequest {
        from_id: 2,
        term: 0,
        prev_log_index: 0,
        prev_log_term: 0,
        entries: Vec::new(),
        commit_index: 0,
    };
    assert_eq!(
        replica.process_message(stale),
        vec![Effect::SendMessage {
            to_id: 2,
            message: Message::AppendEntryResponse {
                from_id: 1,
                term: 1,
                success: false,
                last_index: 0,
                mismatch_index: None,
            },
        }]
    );
    let current = Message::AppendEntryRequest {
        from_id: 3,
        term: 1,
        prev_log_index: 0,
        prev_log_term: 0,
        entries: Vec::new(),
        commit_index: 0,
    };
    assert_eq!(
        replica.process_message(current),
        vec![
            Effect::RegisterLeader { leader_id: None },
            Effect::StoreTerm { term: 1 },
            Effect::StoreVote { vote: None },
            Effect::RegisterLeader { leader_id: Some(3) },
            Effect::SendMessage {
                to_id: 3,
                message: Message::AppendEntryResponse {
                    from_id: 1,
                    term: 1,
                    success: true,
                    last_index: 0,
                    mismatch_index: None,
                },
            },
        ]
    );
    assert_eq!(replica.state(), State::Follower);
}

#[test]
fn candidate_ignores_answers_to_append() {
    let mut replica = new_replica(vec![2, 3]);
    replica.become_candidate();
    let answer = Message::AppendEntryResponse {
        from_id: 2,
        term: 9,
        success: false,
        last_index: 0,
        mismatch_index: Some(0),
    };
    assert!(replica.process_message(answer).is_empty());
    assert_eq!(replica.state(), State::Candidate);
}

#[test]
fn last_term_has_no_next() {
    let mut replica = follower(usize::MAX, None, vec![entry(0, 0), entry(1, 3)]);
    let step = replica.poll_as_follower(WaitEvent::Timeout, 0);
    assert!(!step.completed);
    assert!(step.effects.is_empty());
    assert_eq!(replica.state(), State::Follower);
}

#[test]
fn messages_are_taken_in_order() {
    let mut replica = new_replica(vec![2, 3]);
    let step = replica.poll_as_follower(
        WaitEvent::Messages(vec![vote_request(1, 0, 0), vote_request(3, 0, 0)]),
        0,
    );
    assert!(step.completed);
    assert_eq!(step.effects.len(), 12);
    assert_eq!(step.effects[4], answer(2, 1, true));
    assert_eq!(step.effects[10], answer(2, 3, true));
}
