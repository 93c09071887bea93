use little_raft::effect::{Effect, TransitionState};
use little_raft::message::{LogEntry, Message};
use little_raft::model::{State, Stored};
use little_raft::poll::LeaderEvent;
use little_raft::replica::Replica;
use std::sync::Arc;

type Transition = &'static str;

fn entry(index: usize, term: usize, transition: Transition) -> LogEntry<Transition> {
    LogEntry { index, term, transition: Arc::new(transition) }
}

fn follower(id: usize, term: usize, entries: Vec<LogEntry<Transition>>) -> Replica<Transition> {
    let last_index = entries.len() - 1;
    let stored = Stored { term, vote: None, last_index, entries };
    let peer_ids = vec![1, 2, 3].into_iter().filter(|peer_id| *peer_id != id).collect();
    Replica::new(id, peer_ids, Arc::new("noop"), 50, (100, 200), stored, 0).0
}

fn new_replica(id: usize, peer_ids: Vec<usize>) -> Replica<Transition> {
    let stored = Stored { term: 0, vote: None, last_index: 0, entries: Vec::new() };
    Replica::new(id, peer_ids, Arc::new("noop"), 50, (100, 200), stored, 0).0
}

/// Replica 1 as leader of replicas 1 to 3 in term 1.
fn leader() -> Replica<Transition> {
    let mut replica = new_replica(1, vec![2, 3]);
    replica.become_candidate();
    replica.process_message(Message::VoteResponse { from_id: 2, term: 1, vote_granted: true });
    assert_eq!(replica.state(), State::Leader);
    replica
}

fn request(
    prev_log_index: usize,
    prev_log_term: usize,
    entries: Vec<LogEntry<Transition>>,
    commit_index: usize,
) -> Message<Transition> {
    Message::AppendEntryRequest {
        from_id: 1,
        term: 5,
        prev_log_index,
        prev_log_term,
        entries,
        commit_index,
    }
}

fn response(from_id: usize, success: bool, last_index: usize, mismatch_index: Option<usize>) -> Message<Transition> {
    Message::AppendEntryResponse { from_id, term: 1, success, last_index, mismatch_index }
}

fn answered(from_id: usize, term: usize, success: bool, last_index: usize, mismatch_index: Option<usize>) -> Effect<Transition> {
    Effect::SendMessage {
        to_id: 1,
        message: Message::AppendEntryResponse { from_id, term, success, last_index, mismatch_index },
    }
}

fn sent_to(effects: Vec<Effect<Transition>>, id: usize) -> Message<Transition> {
    for effect in effects {
        if let Effect::SendMessage { to_id, message } = effect {
            if to_id == id {
                return message;
            }
        }
    }
    panic!("nothing was sent to {}", id)
}

fn applied(effects: Vec<Effect<Transition>>) -> Vec<Transition> {
    let mut transitions = Vec::new();
    for effect in effects {
        if let Effect::ApplyTransition { transition } = effect {
            transitions.push(*transition);
        }
    }
    transitions
}

#[test]
fn cloned_entry_shares_the_transition() {
    let one = entry(3, 2, "x");
    let other = one.clone();
    assert_eq!(one, other);
    assert!(Arc::ptr_eq(&one.transition, &other.transition));
    assert_eq!(Arc::strong_count(&one.transition), 2);
}

#[test]
fn follower_appends_entries() {
    let mut replica = follower(2, 5, vec![entry(0, 0, "noop"), entry(1, 1, "a")]);
    assert_eq!(
        replica.process_message(request(1, 1, vec![entry(2, 5, "b"), entry(3, 5, "c")], 2)),
        vec![
            Effect::PushEntry { entry: entry(2, 5, "b") },
            Effect::PushEntry { entry: entry(3, 5, "c") },
            Effect::RegisterLeader { leader_id: Some(1) },
            answered(2, 5, true, 3, None),
        ]
    );
    assert!(replica.can_apply());
    assert_eq!(
        replica.apply_ready_entries(),
        vec![
            Effect::ApplyTransition { transition: Arc::new("a") },
            Effect::RegisterTransitionState {
                transition: Arc::new("a"),
                state: TransitionState::Applied,
            },
            Effect::ApplyTransition { transition: Arc::new("b") },
            Effect::RegisterTransitionState {
                transition: Arc::new("b"),
                state: TransitionState::Applied,
            },
        ]
    );
    assert!(replica.apply_ready_entries().is_empty());
}

#[test]
fn follower_replaces_entries_of_another_term() {
    let log = vec![entry(0, 0, "noop"), entry(1, 1, "a"), entry(2, 2, "b"), entry(3, 2, "c")];
    let mut replica = follower(2, 5, log);
    assert_eq!(
        replica.process_message(request(0, 0, vec![entry(1, 1, "a"), entry(2, 5, "d")], 0)),
        vec![
            Effect::TruncateEntries { index: 2 },
            Effect::PushEntry { entry: entry(2, 5, "d") },
            Effect::RegisterLeader { leader_id: Some(1) },
            answered(2, 5, true, 2, None),
        ]
    );
}

#[test]
fn follower_keeps_entries_that_it_has() {
    let log = vec![entry(0, 0, "noop"), entry(1, 1, "a"), entry(2, 2, "b")];
    let mut replica = follower(2, 5, log);
    assert_eq!(
        replica.process_message(request(0, 0, vec![entry(1, 1, "a")], 0)),
        vec![Effect::RegisterLeader { leader_id: Some(1) }, answered(2, 5, true, 2, None)]
    );
}

#[test]
fn repeated_request_changes_nothing() {
    let mut replica = follower(2, 5, vec![entry(0, 0, "noop"), entry(1, 1, "a"), entry(2, 1, "b")]);
    let entries = || vec![entry(1, 2, "c"), entry(2, 2, "d"), entry(3, 5, "e")];
    assert_eq!(
        replica.process_append_entry_request_as_follower(1, 5, 0, 0, entries(), 9),
        vec![
            Effect::TruncateEntries { index: 1 },
            Effect::PushEntry { entry: entry(1, 2, "c") },
            Effect::PushEntry { entry: entry(2, 2, "d") },
            Effect::PushEntry { entry: entry(3, 5, "e") },
            Effect::RegisterLeader { leader_id: Some(1) },
            answered(2, 5, true, 3, None),
        ]
    );
    assert_eq!(
        replica.process_append_entry_request_as_follower(1, 5, 0, 0, entries(), 9),
        vec![Effect::RegisterLeader { leader_id: Some(1) }, answered(2, 5, true, 3, None)]
    );
    assert_eq!(applied(replica.apply_ready_entries()), vec!["c", "d", "e"]);
}

#[test]
fn follower_of_the_same_terms_takes_the_leaders_log() {
    let mut leader = leader();
    leader.load_new_transitions(vec![Arc::new("x"), Arc::new("y")]);
    let mut replica = follower(2, 0, vec![entry(0, 0, "noop"), entry(1, 0, "a"), entry(2, 0, "b")]);
    let request = sent_to(leader.broadcast_append_entry_request(), 2);
    let effects = replica.process_message(request);
    assert_eq!(effects[effects.len() - 1], answered(2, 0, true, 3, None));
    assert_eq!(effects[0], Effect::TruncateEntries { index: 1 });
    assert_eq!(effects[3], Effect::PushEntry { entry: entry(3, 1, "y") });
}

#[test]
fn follower_passes_over_entries_beyond_its_log() {
    let mut replica = follower(2, 5, vec![entry(0, 0, "noop"), entry(1, 1, "a")]);
    assert_eq!(
        replica.process_message(request(1, 1, vec![entry(7, 5, "b")], 0)),
        vec![Effect::RegisterLeader { leader_id: Some(1) }, answered(2, 5, true, 1, None)]
    );
}

#[test]
fn follower_refuses_earlier_leader() {
    let mut replica = follower(2, 6, vec![entry(0, 0, "noop"), entry(1, 1, "a")]);
    assert_eq!(
        replica.process_message(request(1, 1, vec![entry(2, 5, "b")], 1)),
        vec![answered(2, 6, false, 1, None)]
    );
}

#[test]
fn follower_names_mismatch() {
    let mut replica = follower(2, 5, vec![entry(0, 0, "noop"), entry(1, 1, "a")]);
    assert_eq!(
        replica.process_message(request(2, 1, Vec::new(), 0)),
        vec![answered(2, 5, false, 1, Some(2))]
    );
    assert_eq!(
        replica.process_message(request(1, 4, Vec::new(), 0)),
        vec![answered(2, 5, false, 1, Some(1))]
    );
}

#[test]
fn follower_commits_no_further_than_its_log() {
    let mut replica = follower(2, 5, vec![entry(0, 0, "noop"), entry(1, 1, "a")]);
    replica.process_message(request(1, 1, Vec::new(), 9));
    assert!(replica.can_apply());
    assert_eq!(applied(replica.apply_ready_entries()), vec!["a"]);
}

#[test]
fn committed_entry_that_was_cut_off_cannot_be_applied() {
    let log = vec![entry(0, 0, "noop"), entry(1, 1, "a"), entry(2, 1, "b")];
    let mut replica = follower(2, 5, log);
    replica.process_message(request(2, 1, Vec::new(), 2));
    replica.process_message(request(0, 0, vec![entry(1, 5, "c")], 0));
    assert!(!replica.can_apply());
}

#[test]
fn new_leader_sends_its_first_entry() {
    let leader = leader();
    assert!(leader.can_send_to_all());
    let expected = |to_id: usize| Effect::SendMessage {
        to_id,
        message: Message::AppendEntryRequest {
            from_id: 1,
            term: 1,
            prev_log_index: 0,
            prev_log_term: 0,
            entries: vec![entry(1, 1, "noop")],
            commit_index: 0,
        },
    };
    assert_eq!(leader.broadcast_append_entry_request(), vec![expected(2), expected(3)]);
}

#[test]
fn peer_is_sent_what_it_lacks() {
    let mut leader = leader();
    assert_eq!(leader.get_entries_for_peer(2), vec![entry(1, 1, "noop")]);
    leader.process_message(response(2, true, 1, None));
    assert!(leader.get_entries_for_peer(2).is_empty());
    leader.load_new_transitions(vec![Arc::new("x"), Arc::new("y")]);
    assert_eq!(leader.get_entries_for_peer(2), vec![entry(2, 1, "x"), entry(3, 1, "y")]);
    assert_eq!(leader.get_entries_for_peer(3).len(), 3);
}

#[test]
fn messages_leave_the_state_machine_alone() {
    let mut replica = follower(2, 5, vec![entry(0, 0, "noop"), entry(1, 1, "a")]);
    for effect in replica.process_message(request(1, 1, vec![entry(2, 5, "b")], 2)) {
        assert!(!matches!(effect, Effect::ApplyTransition { .. }));
        assert!(!matches!(effect, Effect::RegisterTransitionState { .. }));
    }
    assert_eq!(applied(replica.apply_ready_entries()), vec!["a", "b"]);
}

#[test]
fn transitions_are_loaded_and_sent_as_apart() {
    let mut polled = leader();
    let mut apart = leader();
    let step = polled.poll_as_leader(LeaderEvent::Transitions(vec![Arc::new("x")]), 7);
    let mut effects = apart.load_new_transitions(vec![Arc::new("x")]);
    effects.extend(apart.broadcast_append_entry_request());
    assert!(step.completed);
    assert_eq!(step.effects, effects);
    assert_eq!(polled.time_to_heartbeat(0), apart.time_to_heartbeat(0));
}

#[test]
fn leader_takes_transitions_and_sends_them() {
    let mut leader = leader();
    let event = LeaderEvent::Transitions(vec![Arc::new("x"), Arc::new("y")]);
    let step = leader.poll_as_leader(event, 0);
    assert!(step.completed);
    let queued = |transition: Transition| Effect::RegisterTransitionState {
        transition: Arc::new(transition),
        state: TransitionState::Queued,
    };
    assert_eq!(step.effects.len(), 6);
    assert_eq!(step.effects[0], Effect::PushEntry { entry: entry(2, 1, "x") });
    assert_eq!(step.effects[1], queued("x"));
    assert_eq!(step.effects[2], Effect::PushEntry { entry: entry(3, 1, "y") });
    assert_eq!(step.effects[3], queued("y"));
    let message = sent_to(step.effects, 3);
    let entries = vec![entry(1, 1, "noop"), entry(2, 1, "x"), entry(3, 1, "y")];
    assert_eq!(
        message,
        Message::AppendEntryRequest {
            from_id: 1,
            term: 1,
            prev_log_index: 0,
            prev_log_term: 0,
            entries,
            commit_index: 0,
        }
    );
}

#[test]
fn others_ignore_transitions() {
    let mut replica = new_replica(1, vec![2, 3]);
    assert!(replica.load_new_transitions(vec![Arc::new("x")]).is_empty());
    replica.become_candidate();
    assert!(replica.load_new_transitions(vec![Arc::new("x")]).is_empty());
}

#[test]
fn leader_commits_what_the_majority_holds() {
    let mut leader = leader();
    leader.load_new_transitions(vec![Arc::new("x"), Arc::new("y")]);
    assert!(leader.apply_ready_entries().is_empty());
    assert!(leader.process_message(response(2, true, 2, None)).is_empty());
    let committed = |transition: Transition| Effect::RegisterTransitionState {
        transition: Arc::new(transition),
        state: TransitionState::Committed,
    };
    let effects = leader.apply_ready_entries();
    assert_eq!(effects.len(), 6);
    assert_eq!(effects[0], committed("noop"));
    assert_eq!(effects[1], committed("x"));
    assert_eq!(applied(effects), vec!["noop", "x"]);
    leader.process_message(response(3, true, 3, None));
    assert_eq!(applied(leader.apply_ready_entries()), vec!["y"]);
}

#[test]
fn leader_of_five_needs_two_answers() {
    let mut leader = new_replica(1, vec![2, 3, 4, 5]);
    leader.become_candidate();
    leader.process_message(Message::VoteResponse { from_id: 2, term: 1, vote_granted: true });
    leader.process_message(Message::VoteResponse { from_id: 3, term: 1, vote_granted: true });
    assert_eq!(leader.state(), State::Leader);
    leader.process_message(response(4, true, 1, None));
    assert!(leader.apply_ready_entries().is_empty());
    leader.process_message(response(5, true, 1, None));
    assert_eq!(applied(leader.apply_ready_entries()), vec!["noop"]);
}

#[test]
fn earlier_terms_are_committed_along_with_the_leaders() {
    let mut leader = follower(1, 1, vec![entry(0, 0, "noop"), entry(1, 1, "old")]);
    leader.become_candidate();
    leader.process_message(Message::VoteResponse { from_id: 2, term: 2, vote_granted: true });
    assert_eq!(leader.state(), State::Leader);
    leader.process_message(response(2, true, 1, None));
    assert!(leader.apply_ready_entries().is_empty());
    leader.process_message(response(2, true, 2, None));
    assert_eq!(applied(leader.apply_ready_entries()), vec!["old", "noop"]);
}

#[test]
fn leader_goes_back_on_mismatch() {
    let mut leader = leader();
    leader.load_new_transitions(vec![Arc::new("x"), Arc::new("y")]);
    leader.process_message(response(2, true, 3, None));
    leader.process_message(response(2, false, 1, Some(3)));
    match sent_to(leader.broadcast_append_entry_request(), 2) {
        Message::AppendEntryRequest { prev_log_index, entries, .. } => {
            assert_eq!(prev_log_index, 1);
            assert_eq!(entries, vec![entry(2, 1, "x"), entry(3, 1, "y")]);
        }
        other => panic!("{:?}", other),
    }
    leader.process_message(response(2, false, 5, Some(1)));
    match sent_to(leader.broadcast_append_entry_request(), 2) {
        Message::AppendEntryRequest { prev_log_index, .. } => assert_eq!(prev_log_index, 0),
        other => panic!("{:?}", other),
    }
}

#[test]
fn leader_ignores_mismatch_that_is_out_of_date() {
    let mut leader = leader();
    leader.process_message(response(2, false, 0, Some(1)));
    match sent_to(leader.broadcast_append_entry_request(), 2) {
        Message::AppendEntryRequest { prev_log_index, .. } => assert_eq!(prev_log_index, 0),
        other => panic!("{:?}", other),
    }
}

#[test]
fn leader_ignores_requests() {
    let mut leader = leader();
    let vote = Message::VoteRequest { from_id: 2, term: 9, last_log_index: 9, last_log_term: 9 };
    assert!(leader.process_message(vote).is_empty());
    assert!(leader.process_message(request(0, 0, Vec::new(), 0)).is_empty());
    assert_eq!(leader.state(), State::Leader);
}

#[test]
fn leader_gives_up_for_later_term() {
    let mut leader = leader();
    let later = Message::AppendEntryResponse {
        from_id: 2,
        term: 3,
        success: false,
        last_index: usize::MAX,
        mismatch_index: None,
    };
    assert_eq!(
        leader.process_message(later),
        vec![
            Effect::RegisterLeader { leader_id: None },
            Effect::StoreTerm { term: 3 },
            Effect::StoreVote { vote: None },
        ]
    );
    assert_eq!(leader.state(), State::Follower);
}

#[test]
fn leader_does_not_understand_strangers_or_the_last_index() {
    let mut leader = leader();
    assert!(!leader.understands(&response(9, false, 0, Some(0))));
    assert!(leader.understands(&response(9, false, 0, None)));
    assert!(leader.understands(&response(9, true, 0, None)));
    assert!(!leader.understands(&response(2, true, usize::MAX, None)));
    assert!(!leader.understands(&response(2, false, usize::MAX, Some(0))));
    assert!(leader.understands(&response(2, false, usize::MAX, Some(1))));
    let step = leader.poll_as_leader(
        LeaderEvent::Messages(vec![
            response(2, true, 1, None),
            response(9, false, 0, Some(0)),
            response(3, true, 1, None),
        ]),
        0,
    );
    assert!(!step.completed);
    match sent_to(leader.broadcast_append_entry_request(), 3) {
        Message::AppendEntryRequest { prev_log_index, .. } => assert_eq!(prev_log_index, 0),
        other => panic!("{:?}", other),
    }
    match sent_to(leader.broadcast_append_entry_request(), 2) {
        Message::AppendEntryRequest { prev_log_index, .. } => assert_eq!(prev_log_index, 1),
        other => panic!("{:?}", other),
    }
}

#[test]
fn leader_cannot_send_beyond_its_log() {
    let mut leader = leader();
    leader.process_message(response(2, true, 7, None));
    assert!(!leader.can_send_to_all());
    let step = leader.poll_as_leader(LeaderEvent::Heartbeat, 0);
    assert!(!step.completed);
    assert!(step.effects.is_empty());
    let step = leader.poll_as_leader(LeaderEvent::Transitions(vec![Arc::new("x")]), 0);
    assert!(!step.completed);
    assert_eq!(step.effects.len(), 2);
}

#[test]
fn exchanges_bring_follower_the_leaders_log() {
    let mut leader = leader();
    leader.load_new_transitions(vec![Arc::new("x")]);
    let mut behind = follower(
        2,
        1,
        vec![entry(0, 0, "noop"), entry(1, 0, "stale"), entry(2, 0, "stale")],
    );
    leader.process_message(response(2, true, 2, None));
    let mut accepted = false;
    for _ in 0..3 {
        let request = sent_to(leader.broadcast_append_entry_request(), 2);
        let answer = sent_to(behind.process_message(request), 1);
        accepted = matches!(answer, Message::AppendEntryResponse { success: true, .. });
        leader.process_message(answer);
        if accepted {
            break;
        }
    }
    assert!(accepted);
    assert_eq!(applied(leader.apply_ready_entries()), vec!["noop", "x"]);
    let heartbeat = sent_to(leader.broadcast_append_entry_request(), 2);
    assert_eq!(
        heartbeat,
        Message::AppendEntryRequest {
            from_id: 1,
            term: 1,
            prev_log_index: 2,
            prev_log_term: 1,
            entries: Vec::new(),
            commit_index: 2,
        }
    );
    behind.process_message(heartbeat);
    assert_eq!(applied(behind.apply_ready_entries()), vec!["noop", "x"]);
}

#[test]
fn cluster_applies_the_same_transitions() {
    let mut leader = leader();
    let mut followers = vec![new_replica(2, vec![1, 3]), new_replica(3, vec![1, 2])];
    let mut machines: Vec<Vec<Transition>> = vec![Vec::new(), Vec::new(), Vec::new()];
    for transition in ["x", "y", "z"] {
        leader.load_new_transitions(vec![Arc::new(transition)]);
        for _ in 0..2 {
            for i in 0..2 {
                let request = sent_to(leader.broadcast_append_entry_request(), i + 2);
                let again = sent_to(leader.broadcast_append_entry_request(), i + 2);
                followers[i].process_message(again);
                let answer = sent_to(followers[i].process_message(request), 1);
                leader.process_message(answer);
                machines[i + 1].extend(applied(followers[i].apply_ready_entries()));
            }
            machines[0].extend(applied(leader.apply_ready_entries()));
        }
    }
    assert_eq!(machines[0], vec!["noop", "x", "y", "z"]);
    assert_eq!(machines[1], machines[0]);
    assert_eq!(machines[2], machines[0]);
}
