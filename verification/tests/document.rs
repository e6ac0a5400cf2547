use xfx::tui::document::{Document, Mark};

fn rows(document: &mut Document) -> Vec<String> {
    document
        .take_pending()
        .into_iter()
        .flat_map(|append| append.rows)
        .collect()
}

#[test]
fn a_line_lands_where_it_was_said_wherever_the_clock_cuts_the_stream() {
    let stream = "one two three";
    for cut in 0..=stream.len() {
        let mut document = Document::new(80);
        document.stream("one ");
        document.say("first");
        document.say("second");
        document.stream("two three");
        if cut > 0 {
            document.release(&stream[..cut], cut);
        }
        if cut < stream.len() {
            document.release(&stream[cut..], stream.len() - cut);
        }
        let rows = rows(&mut document);
        let first = rows.iter().position(|row| row == "first").expect("the line");
        assert_eq!(rows[first - 1], "one ", "{cut}: {rows:?}");
        assert_eq!(rows[first + 1], "second", "{cut}: {rows:?}");
        assert_eq!(rows.last().map(String::as_str), Some("two three"), "{cut}");
        assert_eq!(document.paced_backlog(), 0);
    }
}

#[test]
fn what_an_emission_reopens_stands_in_front_of_its_first_piece_only() {
    let mut document = Document::new(80);
    document.stream("ab");
    document.say("line");
    document.stream("cd");
    document.release("\u{1b}[1mabcd", 4);
    assert_eq!(
        rows(&mut document),
        vec!["\u{1b}[1mab".to_string(), "line".to_string(), "cd".to_string()]
    );
}

#[test]
fn a_line_behind_text_of_more_than_one_byte_is_cut_between_characters() {
    let mut document = Document::new(80);
    document.stream("caf\u{e9}");
    document.say("line");
    document.stream("\u{d55c}\u{ae00}");
    document.release("caf\u{e9}\u{d55c}\u{ae00}", 11);
    assert_eq!(
        rows(&mut document),
        vec![
            "caf\u{e9}".to_string(),
            "line".to_string(),
            "\u{d55c}\u{ae00}".to_string()
        ]
    );
    assert_eq!(document.enqueued(), 11);
}

#[test]
fn the_end_of_a_line_that_has_not_begun_is_no_row() {
    let mut document = Document::new(80);
    document.mark(Mark::EndOfLine);
    assert!(rows(&mut document).is_empty());
    document.write_document_line("said");
    document.mark(Mark::EndOfLine);
    assert_eq!(rows(&mut document), vec!["said".to_string()]);
}

#[test]
fn a_frame_is_owed_for_a_write_and_only_once() {
    let mut document = Document::new(80);
    assert!(!document.take_frame());
    document.write_transcript("text");
    assert!(document.take_frame());
    assert!(!document.take_frame());
    document.end_transcript_line();
    assert!(!document.take_frame(), "a line already written was written again");
}

#[test]
fn a_document_that_is_cleared_waits_for_nothing() {
    let mut document = Document::new(80);
    document.stream("never read");
    document.say("never said");
    document.write_transcript("never shown");
    document.clear(40);
    assert_eq!(document.paced_backlog(), 0);
    document.say("afterwards");
    assert_eq!(rows(&mut document), vec!["afterwards".to_string()]);
}

#[test]
fn a_wider_screen_rewraps_only_the_line_that_has_begun() {
    let mut document = Document::new(4);
    document.write_transcript("abcdef");
    assert_eq!(rows(&mut document), vec!["abcd".to_string(), "ef".to_string()]);
    document.resize_unfinished(10);
    document.write_transcript("g");
    assert_eq!(rows(&mut document), vec!["abcdefg".to_string()]);
}
