//! What a client does when a command on a dedicated connection fails.
//!
//! A failure of the connection itself is answered once: the connection is
//! marked unhealthy, the handle asks the pool for another one, and the command
//! is sent again. Whatever the second attempt brings goes to the caller.

use vstd::prelude::*;

verus! {

/// The kinds of failure that the command layer reports.
#[derive(Clone, Copy, Debug, PartialEq, Eq, Structural)]
pub enum ErrorKind {
    /// The server answered with an error.
    ResponseError,
    /// The client was used in a way it does not support.
    ClientError,
    /// Reading from or writing to the connection failed.
    IoError,
    /// The node refused the connection.
    ConnectionRefused,
    /// The node did not answer in time.
    Timeout,
}

/// Whether a failure of this kind is one of the connection rather than of the
/// command.
pub open spec fn connection_class(kind: ErrorKind) -> bool {
    kind is IoError || kind is ConnectionRefused || kind is Timeout
}

/// Whether `kind` is a failure of the connection: an I/O error, a refused
/// connection or a timeout.
pub fn is_connection_error(kind: &ErrorKind) -> (connection_error: bool)
    ensures
        connection_error == connection_class(*kind),
{
    match kind {
        ErrorKind::IoError | ErrorKind::ConnectionRefused | ErrorKind::Timeout => true,
        ErrorKind::ResponseError | ErrorKind::ClientError => false,
    }
}

/// Which attempt at a command is under way.
#[derive(Clone, Copy, Debug, PartialEq, Eq, Structural)]
pub enum Attempt {
    /// The command is sent for the first time.
    First,
    /// The command is sent again, on a fresh connection.
    Second,
}

/// How an attempt ended.
#[derive(Clone, Copy, Debug, PartialEq, Eq, Structural)]
pub enum Outcome {
    /// The command was answered.
    Answered,
    /// The command failed with an error of the given kind.
    Failed(ErrorKind),
}

/// What the client does next.
#[derive(Clone, Copy, Debug, PartialEq, Eq, Structural)]
pub enum NextStep {
    /// Hand the outcome of the attempt to the caller, answer or error.
    Return,
    /// Mark the connection unhealthy, ask the pool for the handle's
    /// connection again, and make the second attempt on it.
    Retry,
}

/// The step that follows an attempt: only a failure of the connection in the
/// first attempt is answered with a retry.
pub open spec fn step_after(attempt: Attempt, outcome: Outcome) -> NextStep {
    match (attempt, outcome) {
        (Attempt::First, Outcome::Failed(kind)) => if connection_class(kind) {
            NextStep::Retry
        } else {
            NextStep::Return
        },
        _ => NextStep::Return,
    }
}

/// Decides what follows an attempt at a command on a dedicated connection.
pub fn next_step(attempt: Attempt, outcome: &Outcome) -> (step: NextStep)
    ensures
        step == step_after(attempt, *outcome),
{
    match attempt {
        Attempt::First => match outcome {
            Outcome::Failed(kind) => if is_connection_error(kind) {
                NextStep::Retry
            } else {
                NextStep::Return
            },
            Outcome::Answered => NextStep::Return,
        },
        Attempt::Second => NextStep::Return,
    }
}

/// A command is sent at most twice: whatever the second attempt brings, and
/// whatever an answered attempt brings, goes to the caller.
pub proof fn lemma_at_most_one_retry(attempt: Attempt, outcome: Outcome)
    ensures
        step_after(Attempt::Second, outcome) == NextStep::Return,
        step_after(attempt, Outcome::Answered) == NextStep::Return,
{
}

} // verus!
