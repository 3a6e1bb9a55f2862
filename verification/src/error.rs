//! What can go wrong in a transfer, and what each failure calls for.

use vstd::prelude::*;

use crate::text;

verus! {

/// A failure of a transfer.
#[derive(Debug)]
pub enum StrawsError {
    /// Reading or writing failed; the text is the cause.
    Io(String),
    /// The agent broke the protocol.
    Protocol(String),
    /// The agent reported a failure of its own.
    Remote(String),
    /// No data came for so many seconds.
    Stall(u64),
    /// The connection to an agent failed.
    Connection(String),
    /// No agent is left.
    AllAgentsUnhealthy,
    /// The digests of the two sides differ.
    Md5Mismatch { path: String, expected: String, actual: String },
    /// The transfer as a whole failed.
    TransferFailed(String),
    /// A path that cannot be used.
    InvalidPath(String),
    /// SSH itself failed.
    Ssh(String),
    /// The configuration cannot be used.
    Config(String),
    /// The user stopped the transfer.
    Aborted,
    /// There is no such file.
    NotFound(String),
    /// The file may not be touched.
    PermissionDenied(String),
}

/// A failure, with its texts as sequences of characters.
pub enum ErrorView {
    Io(Seq<char>),
    Protocol(Seq<char>),
    Remote(Seq<char>),
    Stall(u64),
    Connection(Seq<char>),
    AllAgentsUnhealthy,
    Md5Mismatch { path: Seq<char>, expected: Seq<char>, actual: Seq<char> },
    TransferFailed(Seq<char>),
    InvalidPath(Seq<char>),
    Ssh(Seq<char>),
    Config(Seq<char>),
    Aborted,
    NotFound(Seq<char>),
    PermissionDenied(Seq<char>),
}

impl View for StrawsError {
    type V = ErrorView;

    open spec fn view(&self) -> ErrorView {
        match *self {
            StrawsError::Io(m) => ErrorView::Io(m@),
            StrawsError::Protocol(m) => ErrorView::Protocol(m@),
            StrawsError::Remote(m) => ErrorView::Remote(m@),
            StrawsError::Stall(n) => ErrorView::Stall(n),
            StrawsError::Connection(m) => ErrorView::Connection(m@),
            StrawsError::AllAgentsUnhealthy => ErrorView::AllAgentsUnhealthy,
            StrawsError::Md5Mismatch { path, expected, actual } => ErrorView::Md5Mismatch {
                path: path@,
                expected: expected@,
                actual: actual@,
            },
            StrawsError::TransferFailed(m) => ErrorView::TransferFailed(m@),
            StrawsError::InvalidPath(m) => ErrorView::InvalidPath(m@),
            StrawsError::Ssh(m) => ErrorView::Ssh(m@),
            StrawsError::Config(m) => ErrorView::Config(m@),
            StrawsError::Aborted => ErrorView::Aborted,
            StrawsError::NotFound(m) => ErrorView::NotFound(m@),
            StrawsError::PermissionDenied(m) => ErrorView::PermissionDenied(m@),
        }
    }
}

/// What the user is told of a failure.
pub open spec fn error_text(e: ErrorView) -> Seq<char> {
    match e {
        ErrorView::Io(m) => "IO error: "@ + m,
        ErrorView::Protocol(m) => "Protocol error: "@ + m,
        ErrorView::Remote(m) => "Remote error: "@ + m,
        ErrorView::Stall(n) => "Transfer stalled (no data received for "@ + text::decimal_text(n as nat)
            + " seconds, network or remote issue)"@,
        ErrorView::Connection(m) => "Agent connection failed: "@ + m,
        ErrorView::AllAgentsUnhealthy => "All SSH connections failed or became unavailable"@,
        ErrorView::Md5Mismatch { path, expected, actual } => "MD5 verification failed for "@ + path
            + ": expected "@ + expected + ", got "@ + actual,
        ErrorView::TransferFailed(m) => m,
        ErrorView::InvalidPath(m) => "Invalid path: "@ + m,
        ErrorView::Ssh(m) => "SSH error: "@ + m,
        ErrorView::Config(m) => "Configuration error: "@ + m,
        ErrorView::Aborted => "Operation aborted"@,
        ErrorView::NotFound(m) => "File not found: "@ + m,
        ErrorView::PermissionDenied(m) => "Permission denied: "@ + m,
    }
}

/// Failures after which the job is tried again.
pub open spec fn retryable(e: ErrorView) -> bool {
    e is Stall || e is Protocol || e is Remote || e is Connection || e is Md5Mismatch
}

/// Failures after which the agent cannot be trusted any more.
pub open spec fn agent_failure(e: ErrorView) -> bool {
    e is Stall || e is Protocol || e is Connection
}

/// Failures after which nothing is left to be done.
pub open spec fn fatal(e: ErrorView) -> bool {
    e is AllAgentsUnhealthy || e is Config || e is Aborted || e is TransferFailed
}

impl StrawsError {
    /// Whether the job is worth another try.
    pub fn is_retryable(&self) -> (r: bool)
        ensures
            r == retryable(self@),
    {
        match self {
            StrawsError::Stall(_)
            | StrawsError::Protocol(_)
            | StrawsError::Remote(_)
            | StrawsError::Connection(_)
            | StrawsError::Md5Mismatch { .. } => true,
            _ => false,
        }
    }

    /// Whether the agent is to blame, so that another one should be tried.
    pub fn is_agent_failure(&self) -> (r: bool)
        ensures
            r == agent_failure(self@),
    {
        match self {
            StrawsError::Stall(_) | StrawsError::Protocol(_) | StrawsError::Connection(_) => true,
            _ => false,
        }
    }

    /// Whether the whole transfer has to stop.
    pub fn is_fatal(&self) -> (r: bool)
        ensures
            r == fatal(self@),
    {
        match self {
            StrawsError::AllAgentsUnhealthy
            | StrawsError::Config(_)
            | StrawsError::Aborted
            | StrawsError::TransferFailed(_) => true,
            _ => false,
        }
    }

    /// What the user is told.
    pub fn message(&self) -> (r: String)
        ensures
            r@ == error_text(self@),
    {
        match self {
            StrawsError::Io(m) => text::cat("IO error: ", m.as_str()),
            StrawsError::Protocol(m) => text::cat("Protocol error: ", m.as_str()),
            StrawsError::Remote(m) => text::cat("Remote error: ", m.as_str()),
            StrawsError::Stall(n) => text::cat3(
                "Transfer stalled (no data received for ",
                text::decimal(*n).as_str(),
                " seconds, network or remote issue)",
            ),
            StrawsError::Connection(m) => text::cat("Agent connection failed: ", m.as_str()),
            StrawsError::AllAgentsUnhealthy => {
                "All SSH connections failed or became unavailable".to_owned()
            },
            StrawsError::Md5Mismatch { path, expected, actual } => text::cat(
                text::cat5(
                    "MD5 verification failed for ",
                    path.as_str(),
                    ": expected ",
                    expected.as_str(),
                    ", got ",
                ).as_str(),
                actual.as_str(),
            ),
            StrawsError::TransferFailed(m) => m.clone(),
            StrawsError::InvalidPath(m) => text::cat("Invalid path: ", m.as_str()),
            StrawsError::Ssh(m) => text::cat("SSH error: ", m.as_str()),
            StrawsError::Config(m) => text::cat("Configuration error: ", m.as_str()),
            StrawsError::Aborted => "Operation aborted".to_owned(),
            StrawsError::NotFound(m) => text::cat("File not found: ", m.as_str()),
            StrawsError::PermissionDenied(m) => text::cat("Permission denied: ", m.as_str()),
        }
    }
}

/// A failure that is blamed on the agent is always tried again: with another agent.
pub proof fn lemma_agent_failure_is_retried(e: ErrorView)
    requires
        agent_failure(e),
    ensures
        retryable(e),
{
}

/// What stops the whole transfer is never tried again, nor blamed on an agent.
pub proof fn lemma_fatal_is_final(e: ErrorView)
    requires
        fatal(e),
    ensures
        !retryable(e),
        !agent_failure(e),
{
}

/// What each failure calls for. A lost connection, a stall and a broken protocol are the agent's
/// fault; those, a complaint of the agent and digests that differ are worth another try; a wrong
/// configuration, a stop by the user, the loss of all agents and a failed transfer end everything.
/// All others end the job alone.
pub proof fn lemma_what_failures_call_for(e: &StrawsError, again: bool, agent: bool, end: bool)
    requires
        call_ensures(StrawsError::is_retryable, (e,), again),
        call_ensures(StrawsError::is_agent_failure, (e,), agent),
        call_ensures(StrawsError::is_fatal, (e,), end),
    ensures
        match *e {
            StrawsError::Stall(_)
            | StrawsError::Protocol(_)
            | StrawsError::Connection(_) => again && agent && !end,
            StrawsError::Remote(_) | StrawsError::Md5Mismatch { .. } => again && !agent && !end,
            StrawsError::AllAgentsUnhealthy
            | StrawsError::Config(_)
            | StrawsError::Aborted
            | StrawsError::TransferFailed(_) => !again && !agent && end,
            StrawsError::Io(_)
            | StrawsError::InvalidPath(_)
            | StrawsError::Ssh(_)
            | StrawsError::NotFound(_)
            | StrawsError::PermissionDenied(_) => !again && !agent && !end,
        },
{
}

/// The cause of a failure stands at the end of what the user is told, whole.
pub proof fn lemma_cause_is_told(e: &StrawsError, r: String)
    requires
        call_ensures(StrawsError::message, (e,), r),
    ensures
        match *e {
            StrawsError::Io(m)
            | StrawsError::Protocol(m)
            | StrawsError::Remote(m)
            | StrawsError::Connection(m)
            | StrawsError::InvalidPath(m)
            | StrawsError::Ssh(m)
            | StrawsError::Config(m)
            | StrawsError::NotFound(m)
            | StrawsError::PermissionDenied(m) => r@.len() > m@.len() && r@.skip(
                r@.len() - m@.len(),
            ) == m@,
            StrawsError::TransferFailed(m) => r@ == m@,
            StrawsError::Md5Mismatch { path, expected, actual } => exists|a: Seq<char>, b: Seq<char>|
                r@ == #[trigger] (a + path@ + b) + expected@ + ", got "@ + actual@,
            _ => r@.len() > 0,
        },
{
    reveal_strlit("IO error: ");
    reveal_strlit("Protocol error: ");
    reveal_strlit("Remote error: ");
    reveal_strlit("Agent connection failed: ");
    reveal_strlit("Invalid path: ");
    reveal_strlit("SSH error: ");
    reveal_strlit("Configuration error: ");
    reveal_strlit("File not found: ");
    reveal_strlit("Permission denied: ");
    reveal_strlit("Operation aborted");
    reveal_strlit("All SSH connections failed or became unavailable");
    reveal_strlit("Transfer stalled (no data received for ");
    match *e {
        StrawsError::Io(m)
        | StrawsError::Protocol(m)
        | StrawsError::Remote(m)
        | StrawsError::Connection(m)
        | StrawsError::InvalidPath(m)
        | StrawsError::Ssh(m)
        | StrawsError::Config(m)
        | StrawsError::NotFound(m)
        | StrawsError::PermissionDenied(m) => {
            assert(r@.skip(r@.len() - m@.len()) =~= m@);
        },
        StrawsError::Md5Mismatch { path, expected, actual } => {
            let a = "MD5 verification failed for "@;
            let b = ": expected "@;
            assert(r@ == (a + path@ + b) + expected@ + ", got "@ + actual@);
        },
        _ => {},
    }
}

} // verus!
