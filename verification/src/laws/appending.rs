//! Laws about a request to append and its answers: what it makes of the log, entry by
//! entry, and of the commit index.

use crate::effect::EffectView;
use crate::message::{LogEntry, MessageView};
use crate::model::{install_all, install_all_effects, ReplicaView};
use crate::ReplicaID;
use vstd::prelude::*;

verus! {

/// A request to append of an earlier term is refused without a mismatch, and one whose
/// previous entry the log does not hold with that entry as the mismatch; nothing changes.
pub proof fn request_that_does_not_fit_is_refused<T>(
    replica: ReplicaView<T>,
    from_id: ReplicaID,
    term: usize,
    prev_log_index: usize,
    prev_log_term: usize,
    entries: Seq<LogEntry<T>>,
    commit_index: usize,
)
    requires
        term < replica.current_term || replica.log.len() <= prev_log_index
            || replica.log[prev_log_index as int].term != prev_log_term,
    ensures
        ({
            let outcome = replica.append_request_as_follower(
                from_id,
                term,
                prev_log_index,
                prev_log_term,
                entries,
                commit_index,
            );
            &&& outcome.state == replica
            &&& outcome.effects == seq![
                EffectView::<T>::SendMessage {
                    to_id: from_id,
                    message: MessageView::AppendEntryResponse {
                        from_id: replica.id,
                        term: replica.current_term,
                        success: false,
                        last_index: (replica.log.len() - 1) as usize,
                        mismatch_index: if term < replica.current_term {
                            None
                        } else {
                            Some(prev_log_index)
                        },
                    },
                },
            ]
        }),
{
}

/// A request to append that fits changes the log and the commit index and nothing else.
/// The commit index becomes the leader's if that is higher, but not beyond the index of
/// the last entry. At last the leader is registered and told of a success up to the last
/// entry.
pub proof fn request_that_fits_is_acknowledged<T>(
    replica: ReplicaView<T>,
    from_id: ReplicaID,
    term: usize,
    prev_log_index: usize,
    prev_log_term: usize,
    entries: Seq<LogEntry<T>>,
    commit_index: usize,
)
    requires
        replica.current_term <= term,
        prev_log_index < replica.log.len(),
        replica.log[prev_log_index as int].term == prev_log_term,
    ensures
        ({
            let outcome = replica.append_request_as_follower(
                from_id,
                term,
                prev_log_index,
                prev_log_term,
                entries,
                commit_index,
            );
            let after = outcome.state;
            let last = after.log[after.log.len() - 1];
            let told = outcome.effects.len();
            &&& after == (ReplicaView {
                log: after.log,
                commit_index: after.commit_index,
                ..replica
            })
            &&& commit_index <= replica.commit_index ==> after.commit_index
                == replica.commit_index
            &&& replica.commit_index < commit_index <= last.index ==> after.commit_index
                == commit_index
            &&& replica.commit_index < commit_index && last.index < commit_index
                ==> after.commit_index == last.index
            &&& told >= 2
            &&& outcome.effects[told - 2] == (EffectView::<T>::RegisterLeader {
                leader_id: Some(from_id),
            })
            &&& outcome.effects[told - 1] == (EffectView::<T>::SendMessage {
                to_id: from_id,
                message: MessageView::AppendEntryResponse {
                    from_id: replica.id,
                    term: replica.current_term,
                    success: true,
                    last_index: (after.log.len() - 1) as usize,
                    mismatch_index: None,
                },
            })
        }),
{
}

/// A request without entries leaves the log as it is, and nothing is stored.
pub proof fn request_without_entries_keeps_log<T>(
    replica: ReplicaView<T>,
    from_id: ReplicaID,
    term: usize,
    prev_log_index: usize,
    prev_log_term: usize,
    commit_index: usize,
)
    requires
        replica.current_term <= term,
        prev_log_index < replica.log.len(),
        replica.log[prev_log_index as int].term == prev_log_term,
    ensures
        ({
            let outcome = replica.append_request_as_follower(
                from_id,
                term,
                prev_log_index,
                prev_log_term,
                seq![],
                commit_index,
            );
            outcome.state.log == replica.log && outcome.effects.len() == 2
        }),
{
}

/// One more entry in a request makes this of the log that the others make: if the log has
/// an entry of another term in its place, it is cut off there and the entry is put there;
/// if its place is the end of the log, it is added; if not, it is passed over. The storage
/// is told the same, after what it is told of the others.
pub proof fn one_more_entry_is_installed<T>(
    replica: ReplicaView<T>,
    from_id: ReplicaID,
    term: usize,
    prev_log_index: usize,
    prev_log_term: usize,
    entries: Seq<LogEntry<T>>,
    entry: LogEntry<T>,
    commit_index: usize,
)
    requires
        replica.current_term <= term,
        prev_log_index < replica.log.len(),
        replica.log[prev_log_index as int].term == prev_log_term,
    ensures
        ({
            let before = replica.append_request_as_follower(
                from_id,
                term,
                prev_log_index,
                prev_log_term,
                entries,
                commit_index,
            );
            let after = replica.append_request_as_follower(
                from_id,
                term,
                prev_log_index,
                prev_log_term,
                entries.push(entry),
                commit_index,
            );
            let log = before.state.log;
            let place = entry.index as int;
            let told = before.effects.take(before.effects.len() - 2);
            let told_more = after.effects.take(after.effects.len() - 2);
            if place < log.len() && log[place].term != entry.term {
                &&& after.state.log == log.take(place).push(entry)
                &&& told_more == told.push(
                    EffectView::TruncateEntries { index: entry.index },
                ).push(EffectView::PushEntry { entry })
            } else if place == log.len() {
                &&& after.state.log == log.push(entry)
                &&& told_more == told.push(EffectView::PushEntry { entry })
            } else {
                &&& after.state.log == log
                &&& told_more == told
            }
        }),
{
    let more = entries.push(entry);
    assert(more.drop_last() =~= entries);
    let before = replica.append_request_as_follower(
        from_id,
        term,
        prev_log_index,
        prev_log_term,
        entries,
        commit_index,
    );
    let after = replica.append_request_as_follower(
        from_id,
        term,
        prev_log_index,
        prev_log_term,
        more,
        commit_index,
    );
    assert(before.effects.take(before.effects.len() - 2) =~= install_all_effects(
        replica.log,
        entries,
    ));
    assert(after.effects.take(after.effects.len() - 2) =~= install_all_effects(
        replica.log,
        more,
    ));
    let log = install_all(replica.log, entries);
    let told = install_all_effects(replica.log, entries);
    if entry.index < log.len() && log[entry.index as int].term != entry.term {
        assert(install_all_effects(replica.log, more) =~= told.push(
            EffectView::TruncateEntries { index: entry.index },
        ).push(EffectView::PushEntry { entry }));
    } else if entry.index == log.len() {
        assert(install_all_effects(replica.log, more) =~= told.push(
            EffectView::PushEntry { entry },
        ));
    } else {
        assert(install_all_effects(replica.log, more) =~= told);
    }
}

} // verus!
