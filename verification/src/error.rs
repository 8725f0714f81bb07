//! Coordinator error type.

use vstd::prelude::*;

use crate::codec::{decimal, spec_decimal};
use crate::types::{PeriodId, SequenceNumber};

verus! {

/// Errors raised by the coordinator state machine.
#[derive(Debug, PartialEq, Eq)]
pub enum CoordinatorError {
    /// No `StartPeriod` has been received yet.
    PeriodNotInitialized,
    /// The instance belongs to a period older than the current one.
    StalePeriod { current: PeriodId, received: PeriodId },
    /// The instance belongs to a period newer than the current one.
    FuturePeriod { current: PeriodId, received: PeriodId },
    /// The sequence number does not advance past the last accepted one.
    StaleSequence { last: SequenceNumber, received: SequenceNumber },
    /// No pending XT has this id.
    InstanceNotFound(String),
    /// An XT with this id is already pending.
    InstanceAlreadyPending(String),
    /// The submission carries no transactions.
    NoTransactions,
    /// Publisher mode was requested without a publisher.
    PublisherNotConnected,
    /// Too many undecided XTs are pending.
    TooManyPendingInstances(usize),
    /// No putInbox builder is configured.
    PutInboxNotConfigured,
    /// A mailbox queue or sender failed.
    Mailbox(String),
    /// Reading the signer nonce failed.
    Nonce(String),
    /// Any other failure.
    Other(String),
}

/// `prefix`, then `a`, then `middle`, then `b`.
fn join4(prefix: &str, a: u64, middle: &str, b: u64) -> (s: String)
    ensures
        s@ == prefix@ + spec_decimal(a) + middle@ + spec_decimal(b),
{
    let mut s = String::from_str(prefix);
    s.append(decimal(a).as_str());
    s.append(middle);
    s.append(decimal(b).as_str());
    s
}

/// `prefix`, then `text`.
pub(crate) fn join2(prefix: &str, text: &str) -> (s: String)
    ensures
        s@ == prefix@ + text@,
{
    let mut s = String::from_str(prefix);
    s.append(text);
    s
}

impl CoordinatorError {
    /// The message text of each error.
    pub open spec fn spec_message(&self) -> Seq<char> {
        match self {
            CoordinatorError::PeriodNotInitialized => "period not initialized"@,
            CoordinatorError::StalePeriod { current, received } => "stale period: current "@
                + spec_decimal(current.0) + ", received "@ + spec_decimal(received.0),
            CoordinatorError::FuturePeriod { current, received } => "future period: current "@
                + spec_decimal(current.0) + ", received "@ + spec_decimal(received.0),
            CoordinatorError::StaleSequence { last, received } => "stale sequence: last "@
                + spec_decimal(last.0) + ", received "@ + spec_decimal(received.0),
            CoordinatorError::InstanceNotFound(id) => "instance not found: "@ + id@,
            CoordinatorError::InstanceAlreadyPending(id) => "instance already pending: "@ + id@,
            CoordinatorError::NoTransactions => "no transactions"@,
            CoordinatorError::PublisherNotConnected => "publisher not connected"@,
            CoordinatorError::TooManyPendingInstances(n) => "too many pending instances, limit "@
                + spec_decimal(*n as u64),
            CoordinatorError::PutInboxNotConfigured => "putInbox builder not configured"@,
            CoordinatorError::Mailbox(m) => "mailbox error: "@ + m@,
            CoordinatorError::Nonce(m) => "nonce error: "@ + m@,
            CoordinatorError::Other(m) => m@,
        }
    }

    /// The error's message text.
    pub fn message(&self) -> (s: String)
        ensures
            s@ == self.spec_message(),
    {
        match self {
            CoordinatorError::PeriodNotInitialized => String::from_str("period not initialized"),
            CoordinatorError::StalePeriod { current, received } => join4(
                "stale period: current ",
                current.0,
                ", received ",
                received.0,
            ),
            CoordinatorError::FuturePeriod { current, received } => join4(
                "future period: current ",
                current.0,
                ", received ",
                received.0,
            ),
            CoordinatorError::StaleSequence { last, received } => join4(
                "stale sequence: last ",
                last.0,
                ", received ",
                received.0,
            ),
            CoordinatorError::InstanceNotFound(id) => join2("instance not found: ", id.as_str()),
            CoordinatorError::InstanceAlreadyPending(id) => join2(
                "instance already pending: ",
                id.as_str(),
            ),
            CoordinatorError::NoTransactions => String::from_str("no transactions"),
            CoordinatorError::PublisherNotConnected => String::from_str("publisher not connected"),
            CoordinatorError::TooManyPendingInstances(n) => {
                let mut s = String::from_str("too many pending instances, limit ");
                s.append(decimal(*n as u64).as_str());
                s
            },
            CoordinatorError::PutInboxNotConfigured => String::from_str(
                "putInbox builder not configured",
            ),
            CoordinatorError::Mailbox(m) => join2("mailbox error: ", m.as_str()),
            CoordinatorError::Nonce(m) => join2("nonce error: ", m.as_str()),
            CoordinatorError::Other(m) => m.clone(),
        }
    }
}

} // verus!
