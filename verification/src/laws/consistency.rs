//! Laws about the logs of leader and follower: how they come to agree, and how
//! what has been committed stays the same on all replicas.

use crate::effect::EffectView;
use crate::laws::events::{appending_keeps_log_numbered, numbered, possible, react, Input};
use crate::laws::replication::{applied_by, state_machine_keeps_up, transitions_between};
use crate::message::{LogEntry, MessageView};
use crate::model::{install, install_all, install_all_effects, ReplicaView};
use crate::ReplicaID;
use vstd::prelude::*;

verus! {

/// Whether two logs are the same up to every entry of the same index and term.
pub open spec fn matching<T>(one: Seq<LogEntry<T>>, other: Seq<LogEntry<T>>) -> bool {
    forall|i: int|
        0 <= i < one.len() && i < other.len() && (#[trigger] one[i]).term == other[i].term
            ==> one.take(i + 1) == other.take(i + 1)
}

/// Whether a log is another's start, up to and with the entry of an index.
pub open spec fn agree_up_to<T>(
    one: Seq<LogEntry<T>>,
    other: Seq<LogEntry<T>>,
    index: usize,
) -> bool {
    &&& index < one.len()
    &&& index < other.len()
    &&& one.take(index + 1) == other.take(index + 1)
}

/// Whether a request to append is cut out of a log: its entries come right after
/// the previous one, and it does not call more committed than it reaches to.
pub open spec fn cut_from<T>(message: MessageView<T>, log: Seq<LogEntry<T>>) -> bool {
    message matches MessageView::AppendEntryRequest {
        prev_log_index,
        prev_log_term,
        entries,
        commit_index,
        ..
    } && {
        let end = prev_log_index + 1 + entries.len();
        &&& end <= log.len()
        &&& prev_log_term == log[prev_log_index as int].term
        &&& entries == log.subrange(prev_log_index + 1, end)
        &&& commit_index < end
    }
}

/// What a leader asks its peers to append is cut out of its log, and out of any
/// log that its log grows into.
pub proof fn requests_are_cut_from_log<T>(
    leader: ReplicaView<T>,
    peer_id: ReplicaID,
    log: Seq<LogEntry<T>>,
)
    requires
        leader.can_send_to(peer_id),
        leader.commit_index < leader.log.len(),
        leader.log.is_prefix_of(log),
    ensures
        cut_from(leader.append_request(peer_id), log),
{
    let next = leader.next_index[peer_id] as int;
    let end = leader.log.len() as int;
    assert(leader.log.skip(next) =~= log.subrange(next, end));
}

/// Entries cut out of a log that follow on a common start make a log that starts
/// with that log up to their end: the log itself if it does already, and nothing
/// but that start if not.
pub proof fn installing_follows_log<T>(
    log: Seq<LogEntry<T>>,
    leader_log: Seq<LogEntry<T>>,
    start: int,
    end: int,
)
    requires
        numbered(leader_log),
        leader_log.len() <= usize::MAX,
        matching(log, leader_log),
        0 <= start <= end <= leader_log.len(),
        start <= log.len(),
        log.take(start) == leader_log.take(start),
    ensures
        install_all(log, leader_log.subrange(start, end)) == if end <= log.len() && log.take(end)
            == leader_log.take(end) {
            log
        } else {
            leader_log.take(end)
        },
    decreases end,
{
    let entries = leader_log.subrange(start, end);
    if start == end {
        assert(entries.len() == 0);
    } else {
        let before = end - 1;
        assert(entries.drop_last() =~= leader_log.subrange(start, before));
        installing_follows_log(log, leader_log, start, before);
        let entry = leader_log[before];
        assert(entries.last() == entry);
        assert(leader_log.take(before).push(entry) =~= leader_log.take(end));
        let installed = install_all(log, entries.drop_last());
        if before <= log.len() && log.take(before) == leader_log.take(before) {
            assert(installed == log);
            if before == log.len() {
                assert(log.take(before) =~= log);
            } else if log[before].term == entry.term {
                assert(log.take(end) == leader_log.take(end));
            } else {
                assert(log.take(end)[before] == log[before]);
                assert(leader_log.take(end)[before] == entry);
            }
        } else {
            assert(installed == leader_log.take(before));
            if end <= log.len() && log.take(end) == leader_log.take(end) {
                assert(log.take(before) =~= log.take(end).take(before));
                assert(leader_log.take(before) =~= leader_log.take(end).take(before));
            }
        }
    }
}

/// Whether entries are numbered one after the other from an index.
pub open spec fn numbered_from<T>(entries: Seq<LogEntry<T>>, start: int) -> bool {
    forall|k: int| 0 <= k < entries.len() ==> (#[trigger] entries[k]).index == start + k
}

/// Installing entries that follow on the start of a log leaves that start in place,
/// and brings their terms after it.
pub(crate) proof fn lemma_installed_terms<T>(log: Seq<LogEntry<T>>, entries: Seq<LogEntry<T>>, start: int)
    requires
        0 <= start <= log.len(),
        numbered_from(entries, start),
    ensures
        ({
            let installed = install_all(log, entries);
            &&& start + entries.len() <= installed.len()
            &&& installed.take(start) == log.take(start)
            &&& forall|k: int|
                0 <= k < entries.len() ==> installed[start + k].term == (#[trigger] entries[k]).term
        }),
    decreases entries.len(),
{
    if entries.len() > 0 {
        let before = entries.drop_last();
        assert forall|k: int| 0 <= k < before.len() implies (#[trigger] before[k]).index == start
            + k by {
            assert(entries[k] == before[k]);
        }
        lemma_installed_terms(log, before, start);
        let so_far = install_all(log, before);
        let installed = install_all(log, entries);
        let entry = entries[entries.len() - 1];
        assert(entry.index == start + before.len());
        assert(installed.take(start) =~= so_far.take(start));
        assert forall|k: int| 0 <= k < entries.len() implies installed[start + k].term == (
        #[trigger] entries[k]).term by {
            if k < before.len() {
                assert(before[k] == entries[k]);
                assert(installed[start + k] == so_far[start + k]);
            }
        }
    }
}

/// Installing entries that a log holds already changes nothing.
proof fn lemma_installed_already<T>(log: Seq<LogEntry<T>>, entries: Seq<LogEntry<T>>, start: int)
    requires
        0 <= start,
        start + entries.len() <= log.len(),
        numbered_from(entries, start),
        forall|k: int|
            0 <= k < entries.len() ==> log[start + k].term == (#[trigger] entries[k]).term,
    ensures
        install_all(log, entries) == log,
        install_all_effects(log, entries) == Seq::<EffectView<T>>::empty(),
    decreases entries.len(),
{
    if entries.len() > 0 {
        let before = entries.drop_last();
        assert forall|k: int| 0 <= k < before.len() implies (#[trigger] before[k]).index == start
            + k && log[start + k].term == before[k].term by {
            assert(entries[k] == before[k]);
        }
        lemma_installed_already(log, before, start);
        assert(entries[entries.len() - 1].index == start + before.len());
        assert(install_all_effects(log, entries) =~= Seq::<EffectView<T>>::empty());
    }
}

/// A request to append that comes a second time, with nothing in between, changes
/// nothing: log and commit index stay, nothing is stored, and the answer is the same.
pub proof fn repeated_request_changes_nothing<T>(
    replica: ReplicaView<T>,
    from_id: ReplicaID,
    term: usize,
    prev_log_index: usize,
    prev_log_term: usize,
    entries: Seq<LogEntry<T>>,
    commit_index: usize,
)
    requires
        replica.current_term <= term,
        replica.holds(prev_log_index, prev_log_term),
        numbered_from(entries, prev_log_index + 1),
    ensures
        ({
            let first = replica.append_request_as_follower(
                from_id,
                term,
                prev_log_index,
                prev_log_term,
                entries,
                commit_index,
            );
            let second = first.state.append_request_as_follower(
                from_id,
                term,
                prev_log_index,
                prev_log_term,
                entries,
                commit_index,
            );
            let answer = first.state.answer_append(from_id, true, None);
            &&& first.effects.last() == answer
            &&& second.state == first.state
            &&& second.effects == seq![
                EffectView::RegisterLeader { leader_id: Some(from_id) },
                answer,
            ]
        }),
{
    let start = prev_log_index + 1;
    let first = replica.append_request_as_follower(
        from_id,
        term,
        prev_log_index,
        prev_log_term,
        entries,
        commit_index,
    ).state;
    lemma_installed_terms(replica.log, entries, start);
    assert(first.log.take(start)[prev_log_index as int] == replica.log.take(
        start,
    )[prev_log_index as int]);
    lemma_installed_already(first.log, entries, start);
    let second = first.append_request_as_follower(
        from_id,
        term,
        prev_log_index,
        prev_log_term,
        entries,
        commit_index,
    );
    assert(second.effects =~= seq![
        EffectView::RegisterLeader { leader_id: Some(from_id) },
        first.answer_append(from_id, true, None),
    ]);
}

/// A follower that holds entries of the same terms as a leader up to where the
/// leader's request begins takes the request: it has the leader's terms up to the
/// end of the leader's log then, numbered by their places, and it answers with a
/// success that reaches at least so far.
pub proof fn request_brings_leader_terms<T>(leader: ReplicaView<T>, follower: ReplicaView<T>)
    requires
        leader.can_send_to(follower.id),
        follower.current_term <= leader.current_term,
        numbered(leader.log),
        numbered(follower.log),
        leader.next_index[follower.id] <= follower.log.len(),
        forall|i: int|
            0 <= i < leader.next_index[follower.id] ==> (#[trigger] follower.log[i]).term
                == leader.log[i].term,
    ensures
        ({
            let request = leader.append_request(follower.id);
            let outcome = follower.message_as_follower(request);
            let after = outcome.state;
            &&& numbered(after.log)
            &&& leader.log.len() <= after.log.len()
            &&& forall|i: int|
                0 <= i < leader.log.len() ==> (#[trigger] after.log[i]).term == leader.log[i].term
            &&& outcome.effects.last() == (EffectView::<T>::SendMessage {
                to_id: leader.id,
                message: MessageView::AppendEntryResponse {
                    from_id: follower.id,
                    term: follower.current_term,
                    success: true,
                    last_index: after.last_index(),
                    mismatch_index: None,
                },
            })
            &&& leader.log.len() - 1 <= after.last_index()
        }),
{
    let next = leader.next_index[follower.id] as int;
    let entries = leader.entries_for(follower.id);
    let after = follower.message_as_follower(leader.append_request(follower.id)).state;
    assert(follower.log[next - 1].term == leader.log[next - 1].term);
    lemma_installed_terms(follower.log, entries, next);
    appending_keeps_log_numbered(
        follower,
        leader.id,
        leader.current_term,
        (next - 1) as usize,
        leader.log[next - 1].term,
        entries,
        leader.commit_index,
    );
    assert forall|i: int| 0 <= i < leader.log.len() implies (#[trigger] after.log[i]).term
        == leader.log[i].term by {
        if i < next {
            assert(after.log.take(next)[i] == follower.log.take(next)[i]);
        } else {
            assert(entries[i - next] == leader.log[i]);
        }
    }
    assert(after.log[after.log.len() - 1].index == after.log.len() - 1);
}

/// Whether none of some entries stands against a committed one: where an entry has
/// the index of a committed one, it has its term too.
pub open spec fn respects_committed<T>(
    replica: ReplicaView<T>,
    entries: Seq<LogEntry<T>>,
) -> bool {
    forall|i: int|
        0 <= i < entries.len() && (#[trigger] entries[i]).index <= replica.commit_index
            ==> entries[i].term == replica.log[entries[i].index as int].term
}

/// Installing entries that respect the committed ones leaves these in place.
proof fn lemma_installing_keeps_committed<T>(replica: ReplicaView<T>, entries: Seq<LogEntry<T>>)
    requires
        numbered(replica.log),
        replica.commit_index < replica.log.len(),
        respects_committed(replica, entries),
    ensures
        ({
            let log = install_all(replica.log, entries);
            &&& numbered(log)
            &&& replica.commit_index < log.len()
            &&& log.take(replica.commit_index + 1) == replica.log.take(replica.commit_index + 1)
        }),
    decreases entries.len(),
{
    if entries.len() > 0 {
        let before = entries.drop_last();
        assert forall|i: int|
            0 <= i < before.len() && (#[trigger] before[i]).index
                <= replica.commit_index implies before[i].term
            == replica.log[before[i].index as int].term by {
            assert(entries[i] == before[i]);
        }
        lemma_installing_keeps_committed(replica, before);
        let log = install_all(replica.log, before);
        let entry = entries.last();
        let kept = replica.commit_index + 1;
        if entry.index < kept {
            assert(log[entry.index as int] == log.take(kept)[entry.index as int]);
            assert(replica.log[entry.index as int] == replica.log.take(kept)[entry.index as int]);
        }
        assert(install(log, entry).take(kept) =~= log.take(kept));
    }
}

/// What is committed on a replica stays: no event takes the commit index back,
/// drops a committed entry or puts another in its place. Left out are requests
/// with an entry that stands against a committed one.
pub proof fn committed_entries_stay<T>(replica: ReplicaView<T>, input: Input<T>)
    requires
        possible(replica, input),
        numbered(replica.log),
        replica.commit_index < replica.log.len(),
        input matches Input::Message(MessageView::AppendEntryRequest { entries, .. })
            ==> respects_committed(replica, entries),
    ensures
        ({
            let after = react(replica, input).state;
            &&& replica.commit_index <= after.commit_index < after.log.len()
            &&& after.log.take(replica.commit_index + 1) == replica.log.take(
                replica.commit_index + 1,
            )
        }),
{
    let after = react(replica, input).state;
    if let Input::Message(MessageView::AppendEntryRequest { entries, .. }) = input {
        lemma_installing_keeps_committed(replica, entries);
    } else {
        assert(after.log.take(replica.commit_index + 1) =~= replica.log.take(
            replica.commit_index + 1,
        ));
    }
}

/// Whether a replica is in line with the log of a leader: the logs match, and what
/// the replica holds committed stands in the leader's log too.
pub open spec fn in_line_with<T>(replica: ReplicaView<T>, leader_log: Seq<LogEntry<T>>) -> bool {
    &&& numbered(replica.log)
    &&& matching(replica.log, leader_log)
    &&& agree_up_to(replica.log, leader_log, replica.commit_index)
}

/// A follower that takes the entries of a leader holds the leader's log up to the
/// last of them, and stays in line with it.
pub proof fn request_brings_leader_log<T>(
    replica: ReplicaView<T>,
    message: MessageView<T>,
    leader_log: Seq<LogEntry<T>>,
)
    requires
        replica.state is Follower,
        numbered(leader_log),
        leader_log.len() <= usize::MAX,
        in_line_with(replica, leader_log),
        cut_from(message, leader_log),
    ensures
        in_line_with(replica.message(message).state, leader_log),
        message matches MessageView::AppendEntryRequest {
            term,
            prev_log_index,
            prev_log_term,
            entries,
            commit_index,
            ..
        } && (replica.current_term <= term && replica.holds(prev_log_index, prev_log_term) ==> {
            let after = replica.message(message).state;
            &&& agree_up_to(after.log, leader_log, (prev_log_index + entries.len()) as usize)
            &&& commit_index <= after.commit_index
        }),
{
    if let MessageView::AppendEntryRequest {
        term,
        prev_log_index,
        prev_log_term,
        entries,
        commit_index,
        ..
    } = message {
        if replica.current_term <= term && replica.holds(prev_log_index, prev_log_term) {
            let start = prev_log_index + 1;
            let end = start + entries.len();
            let log = replica.log;
            let after = replica.message(message).state;
            assert(log[prev_log_index as int].term == leader_log[prev_log_index as int].term);
            installing_follows_log(log, leader_log, start, end as int);
            let kept = replica.commit_index + 1;
            if end <= log.len() && log.take(end as int) == leader_log.take(end as int) {
                assert(after.log == log);
            } else {
                assert(after.log == leader_log.take(end as int));
                if end < kept {
                    assert(log.take(end as int) =~= log.take(kept).take(end as int));
                    assert(leader_log.take(end as int) =~= leader_log.take(kept).take(end as int));
                }
                assert(after.log.take(kept) =~= leader_log.take(kept));
                assert forall|i: int|
                    0 <= i < after.log.len() && i < leader_log.len() && (#[trigger] after.log[i]).term
                        == leader_log[i].term implies after.log.take(i + 1) == leader_log.take(
                    i + 1,
                ) by {
                    assert(after.log.take(i + 1) =~= leader_log.take(i + 1));
                }
            }
            assert(after.log.take(end as int) =~= leader_log.take(end as int));
            let reached = after.commit_index + 1;
            if after.commit_index != replica.commit_index {
                assert(after.commit_index == commit_index);
                assert(after.log.take(reached) =~= after.log.take(end as int).take(reached));
                assert(leader_log.take(reached) =~= leader_log.take(end as int).take(reached));
            }
        }
    }
}

/// A follower stays in line with a leader's log through any messages, as long as
/// the requests to append among them are cut out of that log. They may be lost,
/// repeated or out of order.
pub proof fn follower_stays_in_line<T>(
    replica: ReplicaView<T>,
    messages: Seq<MessageView<T>>,
    leader_log: Seq<LogEntry<T>>,
)
    requires
        replica.state is Follower,
        numbered(leader_log),
        leader_log.len() <= usize::MAX,
        in_line_with(replica, leader_log),
        forall|i: int|
            0 <= i < messages.len() && (#[trigger] messages[i]) is AppendEntryRequest ==> cut_from(
                messages[i],
                leader_log,
            ),
    ensures
        replica.messages(messages).state.state is Follower,
        in_line_with(replica.messages(messages).state, leader_log),
    decreases messages.len(),
{
    if messages.len() > 0 {
        let before = messages.drop_last();
        assert forall|i: int|
            0 <= i < before.len() && (#[trigger] before[i]) is AppendEntryRequest implies cut_from(
            before[i],
            leader_log,
        ) by {
            assert(messages[i] == before[i]);
        }
        follower_stays_in_line(replica, before, leader_log);
        let reached = replica.messages(before).state;
        let message = messages.last();
        assert(messages[messages.len() - 1] == message);
        if message is AppendEntryRequest {
            request_brings_leader_log(reached, message, leader_log);
        } else {
            assert(reached.message(message).state.log == reached.log);
        }
    }
}

/// What a follower in line with a leader's log applies to its state machine are
/// the leader's entries, each once and in the leader's order.
pub proof fn follower_applies_leader_log<T>(
    replica: ReplicaView<T>,
    leader_log: Seq<LogEntry<T>>,
)
    requires
        replica.state is Follower,
        in_line_with(replica, leader_log),
    ensures
        ({
            let outcome = react(replica, Input::Commit(replica.commit_index));
            &&& possible(replica, Input::Commit(replica.commit_index))
            &&& applied_by(outcome.effects) == transitions_between(
                leader_log,
                replica.last_applied,
                replica.commit_index,
            )
        }),
{
    let input = Input::Commit(replica.commit_index);
    state_machine_keeps_up(replica, input);
    let kept = replica.commit_index + 1;
    assert forall|i: int| 0 <= i < kept implies #[trigger] replica.log[i] == leader_log[i] by {
        assert(replica.log.take(kept)[i] == leader_log.take(kept)[i]);
    }
    assert(applied_by(react(replica, input).effects) =~= transitions_between(
        leader_log,
        replica.last_applied,
        replica.commit_index,
    ));
}

/// Two replicas in line with one leader's log hold the same committed entries, as
/// far as both have come.
pub proof fn replicas_in_line_agree<T>(
    one: ReplicaView<T>,
    other: ReplicaView<T>,
    leader_log: Seq<LogEntry<T>>,
    index: usize,
)
    requires
        in_line_with(one, leader_log),
        in_line_with(other, leader_log),
        index <= one.commit_index,
        index <= other.commit_index,
    ensures
        agree_up_to(one.log, other.log, index),
{
    let kept = index + 1;
    assert(one.log.take(kept) =~= one.log.take(one.commit_index + 1).take(kept));
    assert(other.log.take(kept) =~= other.log.take(other.commit_index + 1).take(kept));
    assert(leader_log.take(kept) =~= leader_log.take(one.commit_index + 1).take(kept));
    assert(leader_log.take(kept) =~= leader_log.take(other.commit_index + 1).take(kept));
}

/// What a follower answers to a message that it is asked to append by.
pub open spec fn answer<T>(replica: ReplicaView<T>, message: MessageView<T>) -> MessageView<T> {
    replica.message(message).effects.last()->SendMessage_message
}

/// A leader sends a follower what it lacks, the follower takes it, and the leader
/// takes the answer: the states of both after that.
pub open spec fn exchange<T>(leader: ReplicaView<T>, follower: ReplicaView<T>) -> (
    ReplicaView<T>,
    ReplicaView<T>,
) {
    let request = leader.append_request(follower.id);
    (leader.message(answer(follower, request)).state, follower.message(request).state)
}

/// The states of a leader and a follower after a number of exchanges.
pub open spec fn exchanges<T>(
    leader: ReplicaView<T>,
    follower: ReplicaView<T>,
    count: nat,
) -> (ReplicaView<T>, ReplicaView<T>)
    decreases count,
{
    if count == 0 {
        (leader, follower)
    } else {
        let (later_leader, later_follower) = exchange(leader, follower);
        exchanges(later_leader, later_follower, (count - 1) as nat)
    }
}

/// Whether a leader and a follower are fit for exchanges: the leader leads in a
/// term not before the follower's and has something before what it sends next,
/// the follower is in line with it, and their logs begin alike.
pub open spec fn fit_for_exchange<T>(leader: ReplicaView<T>, follower: ReplicaView<T>) -> bool {
    &&& leader.state is Leader
    &&& follower.state is Follower
    &&& follower.current_term <= leader.current_term
    &&& leader.can_send_to(follower.id)
    &&& leader.commit_index < leader.log.len() <= usize::MAX
    &&& numbered(leader.log)
    &&& in_line_with(follower, leader.log)
    &&& 0 < follower.log.len() <= usize::MAX
    &&& follower.log[0].term == leader.log[0].term
}

/// An exchange either brings the follower the whole log of the leader, who then
/// knows how far the follower's log goes, or makes the leader send from an earlier
/// entry next time.
pub proof fn exchange_makes_progress<T>(leader: ReplicaView<T>, follower: ReplicaView<T>)
    requires
        fit_for_exchange(leader, follower),
    ensures
        ({
            let (later_leader, later_follower) = exchange(leader, follower);
            ||| {
                &&& leader.log.is_prefix_of(later_follower.log)
                &&& later_leader.match_index[follower.id] == later_follower.log.len() - 1
                &&& later_leader.log == leader.log
            }
            ||| {
                &&& fit_for_exchange(later_leader, later_follower)
                &&& later_leader.next_index[follower.id] < leader.next_index[follower.id]
                &&& later_leader.log == leader.log
                &&& later_follower == follower
            }
        }),
{
    let request = leader.append_request(follower.id);
    let (later_leader, later_follower) = exchange(leader, follower);
    let next = leader.next_index[follower.id];
    let end = leader.log.len();
    requests_are_cut_from_log(leader, follower.id, leader.log);
    if follower.holds((next - 1) as usize, leader.log[next - 1].term) {
        request_brings_leader_log(follower, request, leader.log);
        assert(leader.log.skip(next as int) =~= leader.log.subrange(next as int, end as int));
        assert(follower.log[next - 1].term == leader.log[next - 1].term);
        installing_follows_log(follower.log, leader.log, next as int, end as int);
        assert(later_follower.log.take(end as int) =~= leader.log);
        assert(answer(follower, request) == (MessageView::<T>::AppendEntryResponse {
            from_id: follower.id,
            term: follower.current_term,
            success: true,
            last_index: (later_follower.log.len() - 1) as usize,
            mismatch_index: None,
        }));
    } else {
        assert(answer(follower, request) == (MessageView::<T>::AppendEntryResponse {
            from_id: follower.id,
            term: follower.current_term,
            success: false,
            last_index: (follower.log.len() - 1) as usize,
            mismatch_index: Some((next - 1) as usize),
        }));
        assert(next - 1 != 0);
    }
}

/// Within as many exchanges as there are entries before the next one to send, the
/// follower holds the whole log of the leader.
pub proof fn exchanges_bring_whole_log<T>(
    leader: ReplicaView<T>,
    follower: ReplicaView<T>,
) -> (count: nat)
    requires
        fit_for_exchange(leader, follower),
    ensures
        0 < count <= leader.next_index[follower.id],
        leader.log.is_prefix_of(exchanges(leader, follower, count).1.log),
    decreases leader.next_index[follower.id],
{
    exchange_makes_progress(leader, follower);
    let (later_leader, later_follower) = exchange(leader, follower);
    if leader.log.is_prefix_of(later_follower.log) {
        assert(exchanges(later_leader, later_follower, 0) == (later_leader, later_follower));
        1
    } else {
        let more = exchanges_bring_whole_log(later_leader, later_follower);
        more + 1
    }
}

} // verus!
