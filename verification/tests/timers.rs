use little_raft::effect::Effect;
use little_raft::message::Message;
use little_raft::model::{State, Stored};
use little_raft::poll::{LeaderEvent, WaitEvent};
use little_raft::replica::Replica;
use little_raft::timer::{time_until, Timer};
use std::sync::Arc;

fn replica(peer_ids: Vec<usize>, range: (u128, u128), now: u128) -> Replica<&'static str> {
    let stored = Stored { term: 0, vote: None, last_index: 0, entries: Vec::new() };
    Replica::new(1, peer_ids, Arc::new("noop"), 50, range, stored, now).0
}

#[test]
fn timer_fires_after_its_timeout() {
    let timer = Timer::new(10, 5);
    assert_eq!(timer.time_left(5), 10);
    assert_eq!(timer.time_left(14), 1);
    assert_eq!(timer.time_left(15), 0);
    assert_eq!(timer.time_left(99), 0);
}

#[test]
fn renewed_timer_waits_its_timeout_again() {
    let mut timer = Timer::new(10, 5);
    timer.renew(100);
    assert_eq!(timer.time_left(101), 9);
    assert_eq!(timer.time_left(110), 0);
}

#[test]
fn timer_stops_at_the_end_of_the_clock() {
    let timer = Timer::new(u128::MAX, 7);
    assert_eq!(timer.deadline, u128::MAX);
}

#[test]
fn deadline_in_the_past_leaves_no_time() {
    assert_eq!(time_until(3, 4), 0);
    assert_eq!(time_until(4, 4), 0);
    assert_eq!(time_until(9, 4), 5);
}

#[test]
fn new_replica_is_due_for_an_election() {
    let replica = replica(vec![2, 3], (100, 200), 40);
    assert_eq!(replica.time_to_die(40), 0);
    assert_eq!(replica.time_to_heartbeat(40), 50);
    assert_eq!(replica.time_to_heartbeat(70), 20);
}

#[test]
fn election_deadline_is_set_exactly() {
    let mut replica = replica(vec![2, 3], (100, 200), 0);
    replica.set_election_deadline(1000, 150);
    assert_eq!(replica.time_to_die(1000), 150);
    assert_eq!(replica.time_to_die(1149), 1);
    assert_eq!(replica.time_to_die(1150), 0);
}

#[test]
fn election_deadline_is_random_within_the_range() {
    let mut replica = replica(vec![2, 3], (1_000, 1_000_000_000), 0);
    let mut drawn: Vec<u128> = Vec::new();
    for _ in 0..64 {
        replica.update_election_deadline(10);
        let left = replica.time_to_die(10);
        assert!(1_000 <= left && left <= 1_000_000_000);
        drawn.push(left);
    }
    assert!(drawn.iter().any(|left| *left != 1_000));
    assert!(drawn.iter().any(|left| *left != 1_000_000_000));
    assert!(drawn.iter().any(|left| *left != drawn[0]));
}

#[test]
fn range_of_one_timeout_leaves_no_choice() {
    let mut replica = replica(vec![2, 3], (70, 70), 0);
    assert!(replica.can_wait(5));
    replica.update_election_deadline(5);
    assert_eq!(replica.time_to_die(5), 70);
}

#[test]
fn empty_range_or_end_of_clock_cannot_be_waited_for() {
    assert!(!replica(vec![2], (200, 100), 0).can_wait(0));
    assert!(!replica(vec![2], (100, 200), 0).can_wait(u128::MAX - 100));
    assert!(replica(vec![2], (100, 200), 0).can_wait(u128::MAX - 200));
}

#[test]
fn messages_put_the_election_off() {
    let mut replica = replica(vec![2, 3], (100, 100), 0);
    let message = Message::VoteResponse { from_id: 2, term: 0, vote_granted: true };
    let step = replica.poll_as_follower(WaitEvent::Messages(vec![message]), 500);
    assert!(step.completed);
    assert!(step.effects.is_empty());
    assert_eq!(replica.time_to_die(500), 100);
}

#[test]
fn no_messages_do_not_put_the_election_off() {
    let mut replica = replica(vec![2, 3], (100, 100), 30);
    let step = replica.poll_as_follower(WaitEvent::Messages(Vec::new()), 500);
    assert!(step.completed);
    assert_eq!(replica.time_to_die(20), 10);
}

#[test]
fn timeout_starts_an_election_and_waits_for_the_next() {
    let mut replica = replica(vec![2, 3], (100, 100), 0);
    let step = replica.poll_as_follower(WaitEvent::Timeout, 500);
    assert!(step.completed);
    assert_eq!(replica.state(), State::Candidate);
    assert_eq!(replica.time_to_die(500), 100);
    let step = replica.poll_as_candidate(WaitEvent::Timeout, 600);
    assert!(step.completed);
    assert_eq!(replica.state(), State::Candidate);
    assert_eq!(step.effects[0], Effect::StoreTerm { term: 2 });
    assert_eq!(replica.time_to_die(600), 100);
}

#[test]
fn event_that_needs_an_empty_range_is_not_completed() {
    let mut replica = replica(vec![2, 3], (200, 100), 0);
    let message = Message::VoteRequest { from_id: 2, term: 1, last_log_index: 0, last_log_term: 0 };
    let step = replica.poll_as_follower(WaitEvent::Messages(vec![message]), 5);
    assert!(!step.completed);
    assert!(step.effects.is_empty());
    let step = replica.poll_as_follower(WaitEvent::Timeout, 5);
    assert!(!step.completed);
    assert_eq!(replica.state(), State::Candidate);
}

#[test]
fn heartbeat_renews_its_timer() {
    let mut replica = replica(Vec::new(), (100, 100), 0);
    replica.poll_as_follower(WaitEvent::Timeout, 0);
    assert_eq!(replica.state(), State::Leader);
    assert_eq!(replica.time_to_heartbeat(80), 0);
    let step = replica.poll_as_leader(LeaderEvent::Heartbeat, 80);
    assert!(step.completed);
    assert_eq!(replica.time_to_heartbeat(80), 50);
}
