//! How long an escape sequence is.

use xfx::tui::pacer::escape_at;

#[test]
fn a_control_sequence_runs_to_its_final_byte() {
    assert_eq!(escape_at("\u{1b}[31mred"), Some(5));
    assert_eq!(escape_at("\u{1b}[2J"), Some(4));
    assert_eq!(escape_at("\u{1b}[38;5;240m "), Some(11));
}

#[test]
fn a_string_sequence_runs_to_its_terminator() {
    assert_eq!(escape_at("\u{1b}]0;t\u{7}x"), Some(6));
    assert_eq!(escape_at("\u{1b}]0;t\u{1b}\\x"), Some(7));
    assert_eq!(escape_at("\u{1b}P+q\u{1b}\\"), Some(6));
    // Another sequence cuts it short.
    assert_eq!(escape_at("\u{1b}]0;t\u{1b}[m"), Some(5));
}

#[test]
fn a_plain_escape_runs_to_its_letter() {
    assert_eq!(escape_at("\u{1b}c"), Some(2));
    assert_eq!(escape_at("\u{1b}(Bx"), Some(3));
}

#[test]
fn a_sequence_that_has_not_finished_takes_what_has_arrived() {
    assert_eq!(escape_at("\u{1b}"), Some(1));
    assert_eq!(escape_at("\u{1b}[3"), Some(3));
    assert_eq!(escape_at("\u{1b}]11;"), Some(5));
    assert_eq!(escape_at("\u{1b}]11;\u{1b}"), Some(6));
    assert_eq!(escape_at("\u{1b}("), Some(2));
}

#[test]
fn a_sequence_ends_in_front_of_a_byte_no_sequence_holds() {
    assert_eq!(escape_at("\u{1b}[3\u{e9}"), Some(3));
    assert_eq!(escape_at("\u{1b}\u{e9}"), Some(1));
    assert_eq!(escape_at("\u{1b}\u{1b}[m"), Some(1));
}

#[test]
fn text_that_does_not_begin_with_one_holds_none() {
    assert_eq!(escape_at(""), None);
    assert_eq!(escape_at("plain"), None);
    assert_eq!(escape_at("x\u{1b}[m"), None);
}
