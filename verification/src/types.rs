//! Identifiers, roles and log entries shared by the consensus engine and its
//! messages.
use vstd::prelude::*;

verus! {

/// The identity of one member of the cluster.
#[derive(Clone, Copy, Debug, PartialEq, Eq, Hash, Structural)]
pub struct RaftNodeId(pub u64);

/// The role a node currently plays in the consensus protocol.
#[derive(Clone, Copy, Debug, PartialEq, Eq, Structural)]
pub enum Role {
    Follower,
    Candidate,
    Leader,
}

/// One replicated command: its position in the log, the term in which a
/// leader created it, and the opaque command bytes.
#[derive(Debug)]
pub struct LogEntry {
    pub index: u64,
    pub term: u64,
    pub payload: Vec<u8>,
}

/// The mathematical content of a [`LogEntry`].
#[verifier::ext_equal]
pub struct EntryView {
    pub index: u64,
    pub term: u64,
    pub payload: Seq<u8>,
}

impl View for LogEntry {
    type V = EntryView;

    open spec fn view(&self) -> EntryView {
        EntryView { index: self.index, term: self.term, payload: self.payload@ }
    }
}

/// Copies a byte buffer element by element.
pub fn copy_bytes(v: &Vec<u8>) -> (r: Vec<u8>)
    ensures
        r@ == v@,
{
    let mut r: Vec<u8> = Vec::with_capacity(v.len());
    let mut i: usize = 0;
    while i < v.len()
        invariant
            i <= v.len(),
            r@ == v@.take(i as int),
        decreases v.len() - i,
    {
        r.push(v[i]);
        i = i + 1;
        assert(r@ =~= v@.take(i as int));
    }
    assert(v@.take(v.len() as int) =~= v@);
    r
}

impl Clone for LogEntry {
    fn clone(&self) -> (r: Self)
        ensures
            r@ == self@,
    {
        LogEntry { index: self.index, term: self.term, payload: copy_bytes(&self.payload) }
    }
}

/// The views of a sequence of entries.
pub open spec fn entries_view(v: Seq<LogEntry>) -> Seq<EntryView> {
    v.map_values(|e: LogEntry| e@)
}

/// Index of the last entry of a log, or 0 for an empty log.
pub open spec fn last_index_of(log: Seq<EntryView>) -> u64 {
    if log.len() == 0 {
        0
    } else {
        log.last().index
    }
}

/// Term of the last entry of a log, or 0 for an empty log.
pub open spec fn last_term_of(log: Seq<EntryView>) -> u64 {
    if log.len() == 0 {
        0
    } else {
        log.last().term
    }
}

/// Whether every entry sits at the position its index names (index `i + 1`
/// at offset `i`).
pub open spec fn well_indexed(log: Seq<EntryView>) -> bool {
    forall|i: int| 0 <= i < log.len() ==> #[trigger] log[i].index == i + 1
}

/// Clones the entries of `v` from position `start` on.
pub fn clone_entries_from(v: &[LogEntry], start: usize) -> (r: Vec<LogEntry>)
    requires
        start <= v.len(),
    ensures
        entries_view(r@) == entries_view(v@).subrange(start as int, v@.len() as int),
{
    let mut r: Vec<LogEntry> = Vec::new();
    let mut i: usize = start;
    while i < v.len()
        invariant
            start <= i <= v.len(),
            r.len() == i - start,
            forall|k: int| 0 <= k < i - start ==> #[trigger] r@[k]@ == v@[k + start]@,
        decreases v.len() - i,
    {
        let e = v[i].clone();
        r.push(e);
        i = i + 1;
    }
    assert(entries_view(r@) =~= entries_view(v@).subrange(start as int, v@.len() as int));
    r
}

} // verus!
