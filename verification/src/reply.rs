//! What a client's write request is answered, once the handler knows how
//! the write ended.
use vstd::prelude::*;
use vstd::string::StringExecFns;
use crate::health::{role_name, role_text};
use crate::text::{decimal, push_decimal};
use crate::types::Role;

verus! {

/// How a write through the replicated log ended, as the request handler
/// saw it.
#[derive(Debug, Clone)]
pub enum WriteOutcome {
    /// A transaction with no statements.
    Empty,
    /// Statement `statement` (counted from 1) failed validation with
    /// `message`.
    Invalid { statement: usize, message: String },
    /// This node is not the leader; it plays `Role`.
    NotLeader(Role),
    /// The leader could not append the entry.
    AppendRefused,
    /// Appended at this log index; the client did not wait for the commit.
    Accepted(u64),
    /// Committed at this log index.
    Committed(u64),
    /// Appended at this log index, but the commit confirmation was lost.
    ConfirmationDropped(u64),
    /// Appended at this log index, but the commit was not confirmed in time.
    TimedOut(u64),
}

/// The answer to a write request.
#[derive(Debug, Clone)]
pub struct WriteReply {
    pub success: bool,
    pub message: String,
    pub log_index: Option<u64>,
    pub committed: bool,
}

/// The log index a write reached, where it reached one.
pub open spec fn outcome_index(o: WriteOutcome) -> Option<u64> {
    match o {
        WriteOutcome::Accepted(i) => Some(i),
        WriteOutcome::Committed(i) => Some(i),
        WriteOutcome::ConfirmationDropped(i) => Some(i),
        WriteOutcome::TimedOut(i) => Some(i),
        _ => None,
    }
}

/// The message that answers a single statement.
pub open spec fn execute_message(o: WriteOutcome) -> Seq<char> {
    match o {
        WriteOutcome::Empty => "No statements provided"@,
        WriteOutcome::Invalid { statement, message } => message@,
        WriteOutcome::NotLeader(role) => "This node is not the Leader. Current role: "@ + role_text(
            role,
        ) + ". Try another node."@,
        WriteOutcome::AppendRefused => "Failed to append entry. Node may have lost leadership."@,
        WriteOutcome::Accepted(i) => "SQL accepted and replicating across cluster (log index "@
            + decimal(i as nat) + ")"@,
        WriteOutcome::Committed(i) => "✅ SQL committed across cluster at log index "@ + decimal(
            i as nat,
        ),
        WriteOutcome::ConfirmationDropped(i) => "SQL accepted (log index "@ + decimal(i as nat)
            + "), but confirmation channel dropped. Entry may still commit."@,
        WriteOutcome::TimedOut(i) => "SQL accepted (log index "@ + decimal(i as nat)
            + "), but commit confirmation timed out after 5s. Entry is still replicating."@,
    }
}

/// The message that answers a transaction of `n` statements.
pub open spec fn transaction_message(o: WriteOutcome, n: usize) -> Seq<char> {
    match o {
        WriteOutcome::Empty => "No statements provided"@,
        WriteOutcome::Invalid { statement, message } => "Statement "@ + decimal(statement as nat)
            + " failed validation: "@ + message@,
        WriteOutcome::NotLeader(role) => "This node is not the Leader. Current role: "@ + role_text(
            role,
        ) + "."@,
        WriteOutcome::AppendRefused => "Failed to append entry."@,
        WriteOutcome::Accepted(i) => "Transaction ("@ + decimal(n as nat) + " statements) accepted at log index "@
            + decimal(i as nat),
        WriteOutcome::Committed(i) => "Transaction ("@ + decimal(n as nat) + " statements) committed at log index "@
            + decimal(i as nat),
        WriteOutcome::ConfirmationDropped(i) => "Transaction accepted but confirmation channel dropped."@,
        WriteOutcome::TimedOut(i) => "Transaction accepted but commit timed out."@,
    }
}

/// Whether `r` answers `o` with `message`: success and the log index once
/// the entry is in the log, committed only on confirmation.
pub open spec fn answers(r: WriteReply, o: WriteOutcome, message: Seq<char>) -> bool {
    &&& r.success == outcome_index(o) is Some
    &&& r.log_index == outcome_index(o)
    &&& r.committed == (o is Committed)
    &&& r.message@ == message
}

fn failed(message: String) -> (r: WriteReply)
    ensures
        r.message@ == message@,
        !r.success && r.log_index is None && !r.committed,
{
    WriteReply { success: false, message, log_index: None, committed: false }
}

fn succeeded(message: String, i: u64, committed: bool) -> (r: WriteReply)
    ensures
        r.message@ == message@,
        r.success && r.log_index == Some(i) && r.committed == committed,
{
    WriteReply { success: true, message, log_index: Some(i), committed }
}

/// `head`, the decimal digits of `i`, then `tail`.
fn around_number(head: &str, i: u64, tail: &str) -> (r: String)
    ensures
        r@ == head@ + decimal(i as nat) + tail@,
{
    let mut s = head.to_string();
    push_decimal(&mut s, i);
    s.append(tail);
    s
}

/// Whether `r` says how a write of `statements` statements is refused
/// before it reaches the log: a transaction with none; else the first
/// statement that failed validation (counted from 1, with its message);
/// else a node that is not leader. `None` lets the write go to the log.
pub open spec fn refused_as(
    statements: usize,
    first_invalid: Option<(usize, Seq<char>)>,
    role: Role,
    r: Option<WriteOutcome>,
) -> bool {
    if statements == 0 {
        r == Some(WriteOutcome::Empty)
    } else {
        match first_invalid {
            Some((i, m)) => r matches Some(WriteOutcome::Invalid { statement, message })
                && statement == i && message@ == m,
            None => if role != Role::Leader {
                r == Some(WriteOutcome::NotLeader(role))
            } else {
                r is None
            },
        }
    }
}

/// Decides whether a write is refused before it reaches the log; see
/// [`refused_as`].
pub fn refuse_write(statements: usize, first_invalid: Option<(usize, String)>, role: Role) -> (r:
    Option<WriteOutcome>)
    ensures
        refused_as(
            statements,
            match first_invalid {
                Some((i, m)) => Some((i, m@)),
                None => None,
            },
            role,
            r,
        ),
{
    if statements == 0 {
        return Some(WriteOutcome::Empty);
    }
    match first_invalid {
        Some((statement, message)) => Some(WriteOutcome::Invalid { statement, message }),
        None => if role != Role::Leader {
            Some(WriteOutcome::NotLeader(role))
        } else {
            None
        },
    }
}

/// The answer to a single-statement write.
pub fn execute_reply(o: &WriteOutcome) -> (r: WriteReply)
    ensures
        answers(r, *o, execute_message(*o)),
{
    match o {
        WriteOutcome::Empty => failed("No statements provided".to_string()),
        WriteOutcome::Invalid { statement, message } => failed(message.clone()),
        WriteOutcome::NotLeader(role) => {
            let mut s = "This node is not the Leader. Current role: ".to_string();
            s.append(role_name(*role));
            s.append(". Try another node.");
            failed(s)
        },
        WriteOutcome::AppendRefused => failed(
            "Failed to append entry. Node may have lost leadership.".to_string(),
        ),
        WriteOutcome::Accepted(i) => succeeded(
            around_number("SQL accepted and replicating across cluster (log index ", *i, ")"),
            *i,
            false,
        ),
        WriteOutcome::Committed(i) => {
            let mut s = "✅ SQL committed across cluster at log index ".to_string();
            push_decimal(&mut s, *i);
            succeeded(s, *i, true)
        },
        WriteOutcome::ConfirmationDropped(i) => succeeded(
            around_number(
                "SQL accepted (log index ",
                *i,
                "), but confirmation channel dropped. Entry may still commit.",
            ),
            *i,
            false,
        ),
        WriteOutcome::TimedOut(i) => succeeded(
            around_number(
                "SQL accepted (log index ",
                *i,
                "), but commit confirmation timed out after 5s. Entry is still replicating.",
            ),
            *i,
            false,
        ),
    }
}

/// The answer to a transaction of `n` statements.
pub fn transaction_reply(o: &WriteOutcome, n: usize) -> (r: WriteReply)
    ensures
        answers(r, *o, transaction_message(*o, n)),
{
    match o {
        WriteOutcome::Empty => failed("No statements provided".to_string()),
        WriteOutcome::Invalid { statement, message } => {
            let mut s = around_number("Statement ", *statement as u64, " failed validation: ");
            s.append(message.as_str());
            failed(s)
        },
        WriteOutcome::NotLeader(role) => {
            let mut s = "This node is not the Leader. Current role: ".to_string();
            s.append(role_name(*role));
            s.append(".");
            failed(s)
        },
        WriteOutcome::AppendRefused => failed("Failed to append entry.".to_string()),
        WriteOutcome::Accepted(i) => {
            let mut s = around_number("Transaction (", n as u64, " statements) accepted at log index ");
            push_decimal(&mut s, *i);
            succeeded(s, *i, false)
        },
        WriteOutcome::Committed(i) => {
            let mut s = around_number("Transaction (", n as u64, " statements) committed at log index ");
            push_decimal(&mut s, *i);
            succeeded(s, *i, true)
        },
        WriteOutcome::ConfirmationDropped(i) => succeeded(
            "Transaction accepted but confirmation channel dropped.".to_string(),
            *i,
            false,
        ),
        WriteOutcome::TimedOut(i) => succeeded(
            "Transaction accepted but commit timed out.".to_string(),
            *i,
            false,
        ),
    }
}

} // verus!
