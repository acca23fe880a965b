//! Durable consensus state: what a node must find again after a restart.
use vstd::prelude::*;
use crate::types::{entries_view, last_index_of, EntryView, LogEntry, RaftNodeId};

verus! {

/// What a store holds: the current term, the vote cast in it, the log, the
/// commit index, and the index up to which entries have been applied to
/// the state machine.
#[verifier::ext_equal]
pub struct StoreModel {
    pub term: u64,
    pub voted_for: Option<RaftNodeId>,
    pub log: Seq<EntryView>,
    pub commit_index: u64,
    pub applied: u64,
}

/// The entries of `log` whose index lies below `from`, in their order.
pub open spec fn entries_before(log: Seq<EntryView>, from: u64) -> Seq<EntryView>
    decreases log.len(),
{
    if log.len() == 0 {
        Seq::empty()
    } else {
        let rest = entries_before(log.drop_last(), from);
        if log.last().index < from {
            rest.push(log.last())
        } else {
            rest
        }
    }
}

/// Where a node keeps the state that must survive a restart. Every write is
/// visible to the reads that follow it.
pub trait RaftStateStore: Send {
    /// The state this store holds: what a node finds again when it is
    /// recovered from the store. For a store that keeps it on disk, this is
    /// what the disk holds, and the contracts below say that every write
    /// has reached it when the call returns. A store implemented outside
    /// Verus promises these contracts; nothing here checks them.
    spec fn persisted(&self) -> StoreModel;

    fn current_term(&self) -> (r: u64)
        ensures
            r == self.persisted().term,
    ;

    fn set_current_term(&mut self, term: u64)
        ensures
            final(self).persisted() == (StoreModel { term, ..old(self).persisted() }),
    ;

    fn voted_for(&self) -> (r: Option<RaftNodeId>)
        ensures
            r == self.persisted().voted_for,
    ;

    fn set_voted_for(&mut self, node: Option<RaftNodeId>)
        ensures
            final(self).persisted() == (StoreModel { voted_for: node, ..old(self).persisted() }),
    ;

    fn append_entry(&mut self, entry: LogEntry)
        ensures
            final(self).persisted() == (StoreModel {
                log: old(self).persisted().log.push(entry@),
                ..old(self).persisted()
            }),
    ;

    fn entries(&self) -> (r: &[LogEntry])
        ensures
            entries_view(r@) == self.persisted().log,
    ;

    /// Truncate log from index onwards (used during conflict resolution)
    fn truncate_from(&mut self, from_index: u64)
        ensures
            final(self).persisted() == (StoreModel {
                log: entries_before(old(self).persisted().log, from_index),
                ..old(self).persisted()
            }),
    ;

    /// Get the last log entry's index, or 0 if empty
    fn last_log_index(&self) -> (r: u64)
        ensures
            r == last_index_of(self.persisted().log),
    ;

    /// Get the commit_index persisted to disk
    fn commit_index(&self) -> (r: u64)
        ensures
            r == self.persisted().commit_index,
    ;

    fn set_commit_index(&mut self, idx: u64)
        ensures
            final(self).persisted() == (StoreModel { commit_index: idx, ..old(self).persisted() }),
    ;

    /// The index up to which committed entries have been applied to the
    /// state machine.
    fn applied_index(&self) -> (r: u64)
        ensures
            r == self.persisted().applied,
    ;

    fn set_applied_index(&mut self, idx: u64)
        ensures
            final(self).persisted() == (StoreModel { applied: idx, ..old(self).persisted() }),
    ;
}

/// A store that keeps everything in memory.
#[derive(Debug)]
pub struct InMemoryStateStore {
    term: u64,
    voted_for: Option<RaftNodeId>,
    log: Vec<LogEntry>,
    commit_index: u64,
    applied: u64,
}

impl Default for InMemoryStateStore {
    fn default() -> (r: Self)
        ensures
            r.persisted() == (StoreModel {
                term: 0,
                voted_for: None,
                log: Seq::empty(),
                commit_index: 0,
                applied: 0,
            }),
    {
        let r = InMemoryStateStore { term: 0, voted_for: None, log: Vec::new(), commit_index: 0, applied: 0 };
        assert(entries_view(r.log@) =~= Seq::empty());
        r
    }
}

impl RaftStateStore for InMemoryStateStore {
    closed spec fn persisted(&self) -> StoreModel {
        StoreModel {
            term: self.term,
            voted_for: self.voted_for,
            log: entries_view(self.log@),
            commit_index: self.commit_index,
            applied: self.applied,
        }
    }

    fn current_term(&self) -> (r: u64) {
        self.term
    }

    fn set_current_term(&mut self, term: u64) {
        self.term = term;
    }

    fn voted_for(&self) -> (r: Option<RaftNodeId>) {
        self.voted_for
    }

    fn set_voted_for(&mut self, node: Option<RaftNodeId>) {
        self.voted_for = node;
    }

    fn append_entry(&mut self, entry: LogEntry) {
        self.log.push(entry);
        assert(entries_view(self.log@) =~= entries_view(old(self).log@).push(entry@));
    }

    fn entries(&self) -> (r: &[LogEntry]) {
        self.log.as_slice()
    }

    fn truncate_from(&mut self, from_index: u64) {
        let ghost old_log = entries_view(self.log@);
        let mut kept: Vec<LogEntry> = Vec::new();
        let mut old_entries: Vec<LogEntry> = Vec::new();
        std::mem::swap(&mut old_entries, &mut self.log);
        assert(entries_view(old_entries@) == old_log);
        let mut i: usize = 0;
        while i < old_entries.len()
            invariant
                i <= old_entries.len(),
                entries_view(old_entries@) == old_log,
                entries_view(kept@) == entries_before(old_log.take(i as int), from_index),
            decreases old_entries.len() - i,
        {
            assert(old_log.take(i as int + 1).drop_last() =~= old_log.take(i as int));
            if old_entries[i].index < from_index {
                let e = old_entries[i].clone();
                kept.push(e);
                assert(entries_view(kept@) =~= entries_before(old_log.take(i as int), from_index).push(
                    old_log[i as int],
                ));
            }
            i = i + 1;
        }
        assert(old_log.take(old_entries.len() as int) =~= old_log);
        self.log = kept;
    }

    fn last_log_index(&self) -> (r: u64) {
        if self.log.len() == 0 {
            0
        } else {
            self.log[self.log.len() - 1].index
        }
    }

    fn commit_index(&self) -> (r: u64) {
        self.commit_index
    }

    fn set_commit_index(&mut self, idx: u64) {
        self.commit_index = idx;
    }

    fn applied_index(&self) -> (r: u64) {
        self.applied
    }

    fn set_applied_index(&mut self, idx: u64) {
        self.applied = idx;
    }
}

} // verus!
