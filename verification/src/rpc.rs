//! The messages that cluster members exchange.
use vstd::prelude::*;
use crate::types::{clone_entries_from, copy_bytes, entries_view, EntryView, LogEntry, RaftNodeId};

verus! {

/// A candidate's request for a vote.
#[derive(Clone, Copy, Debug, PartialEq, Eq, Structural)]
pub struct RequestVoteArgs {
    pub term: u64,
    pub candidate_id: RaftNodeId,
    pub last_log_index: u64,
    pub last_log_term: u64,
}

/// The answer to a vote request.
#[derive(Clone, Copy, Debug, PartialEq, Eq, Structural)]
pub struct RequestVoteReply {
    pub term: u64,
    pub vote_granted: bool,
}

/// A leader's replication request (a heartbeat when `entries` is empty).
#[derive(Debug)]
pub struct AppendEntriesArgs {
    pub term: u64,
    pub leader_id: RaftNodeId,
    pub prev_log_index: u64,
    pub prev_log_term: u64,
    pub entries: Vec<LogEntry>,
    pub leader_commit: u64,
}

/// The answer to a replication request.
#[derive(Clone, Copy, Debug, PartialEq, Eq, Structural)]
pub struct AppendEntriesReply {
    pub term: u64,
    pub success: bool,
    pub match_index: u64,
}

/// A leader's offer of a snapshot.
#[derive(Debug)]
pub struct InstallSnapshotArgs {
    pub term: u64,
    pub leader_id: RaftNodeId,
    pub last_included_index: u64,
    pub last_included_term: u64,
    pub data: Vec<u8>,
}

/// The answer to a snapshot offer.
#[derive(Clone, Copy, Debug, PartialEq, Eq, Structural)]
pub struct InstallSnapshotReply {
    pub term: u64,
}

/// The content of a message.
#[derive(Debug)]
pub enum MessagePayload {
    RequestVote(RequestVoteArgs),
    RequestVoteReply(RequestVoteReply),
    AppendEntries(AppendEntriesArgs),
    AppendEntriesReply(AppendEntriesReply),
    InstallSnapshot(InstallSnapshotArgs),
    InstallSnapshotReply(InstallSnapshotReply),
}

/// A message from one node to another.
#[derive(Debug)]
pub struct RaftMessage {
    pub from: RaftNodeId,
    pub to: RaftNodeId,
    pub payload: MessagePayload,
}

/// The content of an [`AppendEntriesArgs`].
#[verifier::ext_equal]
pub struct AppendEntriesView {
    pub term: u64,
    pub leader_id: RaftNodeId,
    pub prev_log_index: u64,
    pub prev_log_term: u64,
    pub entries: Seq<EntryView>,
    pub leader_commit: u64,
}

/// The content of an [`InstallSnapshotArgs`].
#[verifier::ext_equal]
pub struct InstallSnapshotView {
    pub term: u64,
    pub leader_id: RaftNodeId,
    pub last_included_index: u64,
    pub last_included_term: u64,
    pub data: Seq<u8>,
}

/// The content of a [`MessagePayload`].
#[verifier::ext_equal]
pub enum PayloadView {
    RequestVote(RequestVoteArgs),
    RequestVoteReply(RequestVoteReply),
    AppendEntries(AppendEntriesView),
    AppendEntriesReply(AppendEntriesReply),
    InstallSnapshot(InstallSnapshotView),
    InstallSnapshotReply(InstallSnapshotReply),
}

/// The content of a [`RaftMessage`].
#[verifier::ext_equal]
pub struct MessageView {
    pub from: RaftNodeId,
    pub to: RaftNodeId,
    pub payload: PayloadView,
}

impl View for AppendEntriesArgs {
    type V = AppendEntriesView;

    open spec fn view(&self) -> AppendEntriesView {
        AppendEntriesView {
            term: self.term,
            leader_id: self.leader_id,
            prev_log_index: self.prev_log_index,
            prev_log_term: self.prev_log_term,
            entries: entries_view(self.entries@),
            leader_commit: self.leader_commit,
        }
    }
}

impl View for InstallSnapshotArgs {
    type V = InstallSnapshotView;

    open spec fn view(&self) -> InstallSnapshotView {
        InstallSnapshotView {
            term: self.term,
            leader_id: self.leader_id,
            last_included_index: self.last_included_index,
            last_included_term: self.last_included_term,
            data: self.data@,
        }
    }
}

impl View for MessagePayload {
    type V = PayloadView;

    open spec fn view(&self) -> PayloadView {
        match self {
            MessagePayload::RequestVote(a) => PayloadView::RequestVote(*a),
            MessagePayload::RequestVoteReply(r) => PayloadView::RequestVoteReply(*r),
            MessagePayload::AppendEntries(a) => PayloadView::AppendEntries(a@),
            MessagePayload::AppendEntriesReply(r) => PayloadView::AppendEntriesReply(*r),
            MessagePayload::InstallSnapshot(a) => PayloadView::InstallSnapshot(a@),
            MessagePayload::InstallSnapshotReply(r) => PayloadView::InstallSnapshotReply(*r),
        }
    }
}

impl View for RaftMessage {
    type V = MessageView;

    open spec fn view(&self) -> MessageView {
        MessageView { from: self.from, to: self.to, payload: self.payload@ }
    }
}

/// The views of a sequence of messages.
pub open spec fn messages_view(v: Seq<RaftMessage>) -> Seq<MessageView> {
    v.map_values(|m: RaftMessage| m@)
}

/// The term that a message carries, whatever its kind.
pub open spec fn payload_term(p: PayloadView) -> u64 {
    match p {
        PayloadView::RequestVote(a) => a.term,
        PayloadView::RequestVoteReply(r) => r.term,
        PayloadView::AppendEntries(a) => a.term,
        PayloadView::AppendEntriesReply(r) => r.term,
        PayloadView::InstallSnapshot(a) => a.term,
        PayloadView::InstallSnapshotReply(r) => r.term,
    }
}

impl Clone for AppendEntriesArgs {
    fn clone(&self) -> (r: Self)
        ensures
            r@ == self@,
    {
        AppendEntriesArgs {
            term: self.term,
            leader_id: self.leader_id,
            prev_log_index: self.prev_log_index,
            prev_log_term: self.prev_log_term,
            entries: clone_entries_from(self.entries.as_slice(), 0),
            leader_commit: self.leader_commit,
        }
    }
}

impl Clone for InstallSnapshotArgs {
    fn clone(&self) -> (r: Self)
        ensures
            r@ == self@,
    {
        InstallSnapshotArgs {
            term: self.term,
            leader_id: self.leader_id,
            last_included_index: self.last_included_index,
            last_included_term: self.last_included_term,
            data: copy_bytes(&self.data),
        }
    }
}

impl Clone for MessagePayload {
    fn clone(&self) -> (r: Self)
        ensures
            r@ == self@,
    {
        match self {
            MessagePayload::RequestVote(a) => MessagePayload::RequestVote(*a),
            MessagePayload::RequestVoteReply(r) => MessagePayload::RequestVoteReply(*r),
            MessagePayload::AppendEntries(a) => MessagePayload::AppendEntries(a.clone()),
            MessagePayload::AppendEntriesReply(r) => MessagePayload::AppendEntriesReply(*r),
            MessagePayload::InstallSnapshot(a) => MessagePayload::InstallSnapshot(a.clone()),
            MessagePayload::InstallSnapshotReply(r) => MessagePayload::InstallSnapshotReply(*r),
        }
    }
}

impl Clone for RaftMessage {
    fn clone(&self) -> (r: Self)
        ensures
            r@ == self@,
    {
        RaftMessage { from: self.from, to: self.to, payload: self.payload.clone() }
    }
}

/// The term that a message carries, whatever its kind.
pub fn message_term(p: &MessagePayload) -> (t: u64)
    ensures
        t == payload_term(p@),
{
    match p {
        MessagePayload::RequestVote(a) => a.term,
        MessagePayload::RequestVoteReply(r) => r.term,
        MessagePayload::AppendEntries(a) => a.term,
        MessagePayload::AppendEntriesReply(r) => r.term,
        MessagePayload::InstallSnapshot(a) => a.term,
        MessagePayload::InstallSnapshotReply(r) => r.term,
    }
}

} // verus!
