//! Whether the standard streams are attached to a terminal.
use vstd::prelude::*;
use std::io::{IsTerminal, Stderr, Stdin, Stdout};

verus! {

#[verifier::external_type_specification]
#[verifier::external_body]
pub struct ExStdout(Stdout);

#[verifier::external_type_specification]
#[verifier::external_body]
pub struct ExStderr(Stderr);

#[verifier::external_type_specification]
#[verifier::external_body]
pub struct ExStdin(Stdin);

/// The standard streams of a process.
#[derive(Clone, Copy, Debug, PartialEq, Eq, Structural)]
pub enum Stream {
    Stdout,
    Stderr,
    Stdin,
}

/// Calls `std::io::stdout`. Nothing is claimed.
#[verifier::external_body]
fn stdout_handle() -> (r: Stdout) {
    std::io::stdout()
}

/// Calls `std::io::stderr`. Nothing is claimed.
#[verifier::external_body]
fn stderr_handle() -> (r: Stderr) {
    std::io::stderr()
}

/// Calls `std::io::stdin`. Nothing is claimed.
#[verifier::external_body]
fn stdin_handle() -> (r: Stdin) {
    std::io::stdin()
}

/// Calls `IsTerminal::is_terminal` on standard output. Nothing is claimed:
/// the answer depends on where the process's output goes.
#[verifier::external_body]
fn stdout_is_terminal(h: &Stdout) -> (r: bool) {
    h.is_terminal()
}

/// Calls `IsTerminal::is_terminal` on standard error. Nothing is claimed.
#[verifier::external_body]
fn stderr_is_terminal(h: &Stderr) -> (r: bool) {
    h.is_terminal()
}

/// Calls `IsTerminal::is_terminal` on standard input. Nothing is claimed.
#[verifier::external_body]
fn stdin_is_terminal(h: &Stdin) -> (r: bool) {
    h.is_terminal()
}

/// Whether `stream` is a terminal, as the standard library reports it; a
/// redirected stream is not one.
pub fn is(stream: Stream) -> bool {
    match stream {
        Stream::Stdout => stdout_is_terminal(&stdout_handle()),
        Stream::Stderr => stderr_is_terminal(&stderr_handle()),
        Stream::Stdin => stdin_is_terminal(&stdin_handle()),
    }
}

/// The answer of `isnt` for a stream whose terminal status is `is_terminal`.
pub fn not_terminal(is_terminal: bool) -> (r: bool)
    ensures
        r == !is_terminal,
{
    !is_terminal
}

/// Whether `stream` is not a terminal: the negation of a fresh `is` query.
pub fn isnt(stream: Stream) -> bool {
    not_terminal(self::is(stream))
}

} // verus!
