use relaisdesk::{is, isnt, Stream};
use std::io::{self, IsTerminal};

#[test]
fn matches_standard_library() {
    for (stream, expected) in [
        (Stream::Stdin, io::stdin().is_terminal()),
        (Stream::Stdout, io::stdout().is_terminal()),
        (Stream::Stderr, io::stderr().is_terminal()),
    ] {
        assert_eq!(is(stream), expected);
        assert_eq!(isnt(stream), !expected);
    }
}

#[test]
fn not_terminal_negates() {
    assert!(relaisdesk::terminal::not_terminal(false));
    assert!(!relaisdesk::terminal::not_terminal(true));
}
