//! The transcript.

use xfx::tui::transcript::{normalize, Append, Transcript};

#[test]
fn the_first_fragment_takes_one_row_of_the_screen() {
    let mut transcript = Transcript::new(80);
    assert_eq!(
        transcript.push("answer"),
        Append {
            scroll: 1,
            rows: vec!["answer".to_string()]
        }
    );
}

#[test]
fn a_fragment_that_fits_the_tail_repaints_it_without_scrolling() {
    let mut transcript = Transcript::new(80);
    transcript.push("ans");
    assert_eq!(
        transcript.push("wer"),
        Append {
            scroll: 0,
            rows: vec!["answer".to_string()]
        }
    );
}

#[test]
fn a_fragment_that_wraps_the_tail_scrolls_by_exactly_the_rows_it_added() {
    let mut transcript = Transcript::new(4);
    transcript.push("abcd");
    assert_eq!(
        transcript.push("efgh"),
        Append {
            scroll: 1,
            rows: vec!["abcd".to_string(), "efgh".to_string()]
        }
    );
}

#[test]
fn a_finished_line_is_left_in_the_document_and_the_next_one_starts_fresh() {
    let mut transcript = Transcript::new(80);
    transcript.push("first");
    transcript.end_line();
    assert_eq!(transcript.tail_rows(), 0);
    assert_eq!(
        transcript.push("second"),
        Append {
            scroll: 1,
            rows: vec!["second".to_string()]
        }
    );
}

#[test]
fn carriage_returns_are_normalized_so_a_row_cannot_overwrite_itself() {
    // A bare CR would rewind the terminal's cursor
    // over a row this module believes it has already written.
    assert_eq!(normalize("a\r\nb"), "a\nb");
    assert_eq!(normalize("a\rb"), "a\nb");
    assert_eq!(normalize("plain"), "plain");
}

#[test]
fn a_line_that_is_already_on_the_screen_is_finished_without_a_write() {
    // The rows are the terminal's now. Rewriting them would cost a scroll
    // that pushes a blank row into the document.
    let mut transcript = Transcript::new(80);
    transcript.push("first");
    assert_eq!(transcript.end_line(), Append::nothing());
}

#[test]
fn a_break_inside_a_push_finishes_the_line_before_it() {
    let mut transcript = Transcript::new(80);
    assert_eq!(
        transcript.push("first\nsecond"),
        Append {
            scroll: 2,
            rows: vec!["first".to_string(), "second".to_string()]
        }
    );
    assert_eq!(
        transcript.tail_rows(),
        1,
        "only the unfinished line is still this module's"
    );
    // and the finished one is not rewritten by what follows
    assert_eq!(
        transcript.push("!"),
        Append {
            scroll: 0,
            rows: vec!["second!".to_string()]
        }
    );
}

#[test]
fn a_blank_line_between_two_answers_takes_a_row_of_its_own() {
    // Two breaks in a row. Without a row for the empty line between them
    // the paragraph break the model wrote disappears.
    let mut transcript = Transcript::new(80);
    assert_eq!(
        transcript.push("a\n\nb"),
        Append {
            scroll: 3,
            rows: vec!["a".to_string(), String::new(), "b".to_string()]
        }
    );
}

/// The document a sequence of pushes leaves behind, replayed exactly as
/// `frame::render_append` applies an [`Append`]: scroll by `scroll`, then
/// write `rows` onto the last `rows.len()` lines of what is there.
fn document(cols: u16, chunks: &[&str]) -> Vec<String> {
    let mut transcript = Transcript::new(cols);
    let mut document: Vec<String> = Vec::new();
    for chunk in chunks {
        let append = transcript.push(chunk);
        let kept = (document.len() + append.scroll).saturating_sub(append.rows.len());
        document.truncate(kept);
        document.extend(append.rows);
    }
    document
}

#[test]
fn a_push_is_invariant_under_chunking() {
    // The property the carry exists for. A stream is cut wherever the
    // socket cut it, so every split of the same bytes must leave the same
    // document -- and the CR cases are the ones where a naive carry gets it
    // wrong in *both* directions: swallowing a break that was really there,
    // or inventing one that was not.
    for stream in [
        "a\r\nb",
        "a\r\rb",
        "a\r\r\nb",
        "a\rb\r\nc\r",
        "\r\n",
        "\r",
        "one\r\ntwo\r\nthree",
        "no breaks at all",
    ] {
        let whole = document(80, &[stream]);
        for at in 0..=stream.len() {
            if !stream.is_char_boundary(at) {
                continue;
            }
            let (head, tail) = stream.split_at(at);
            assert_eq!(
                document(80, &[head, tail]),
                whole,
                "{stream:?} split at {at} left a different document"
            );
            // and a chunk boundary that carries no bytes changes nothing
            assert_eq!(
                document(80, &[head, "", tail]),
                whole,
                "{stream:?} split at {at} around an empty push"
            );
        }
    }
}

#[test]
fn a_chunk_that_opens_with_its_own_carriage_return_keeps_its_break() {
    // The carry is not "strip the next newline you see". `a\r` + `\rb` is
    // two breaks: the first chunk's CR and the second chunk's own. Reading
    // the *normalized* chunk cannot tell them apart, because `normalize`
    // has already turned both into LFs.
    assert_eq!(
        document(80, &["a\r", "\rb"]),
        vec!["a".to_string(), String::new(), "b".to_string()]
    );
    assert_eq!(document(80, &["a\r", "\rb"]), document(80, &["a\r\rb"]));
}

#[test]
fn a_chunk_that_opens_with_a_crlf_of_its_own_is_one_break_not_two() {
    // `a\r` + `\r\nb`: the first chunk's CR is one break and the second
    // chunk's CRLF is one more -- not two, which is what dropping
    // `normalize`'s CRLF pairing would give, and not zero, which is what
    // stripping on the carry alone would give.
    assert_eq!(
        document(80, &["a\r", "\r\nb"]),
        vec!["a".to_string(), String::new(), "b".to_string()]
    );
    assert_eq!(document(80, &["a\r", "\r\nb"]), document(80, &["a\r\r\nb"]));
}

#[test]
fn an_empty_push_between_the_halves_of_a_crlf_is_transparent() {
    // A delta that carried no text at all still arrives as a push. If it
    // cleared the carry, the LF that follows becomes a second break and the
    // answer grows a blank line the model never wrote.
    assert_eq!(
        document(80, &["a\r", "", "\nb"]),
        vec!["a".to_string(), "b".to_string()]
    );
    assert_eq!(document(80, &["a\r", "", "\nb"]), document(80, &["a\r\nb"]));
}

#[test]
fn a_crlf_split_across_two_pushes_is_one_line_break() {
    // A stream is cut wherever the socket cut it. A CR that ends one push
    // and an LF that opens the next are the same break, and answering both
    // would put a blank row in the middle of an answer.
    let mut split = Transcript::new(80);
    assert_eq!(
        split.push("a\r"),
        Append {
            scroll: 2,
            rows: vec!["a".to_string(), String::new()]
        },
        "the line and the row its successor starts on"
    );
    assert_eq!(
        split.push("\nb"),
        Append {
            scroll: 0,
            rows: vec!["b".to_string()]
        },
        "the leading newline was answered a second time"
    );

    let mut whole = Transcript::new(80);
    assert_eq!(
        whole.push("a\r\nb"),
        Append {
            scroll: 2,
            rows: vec!["a".to_string(), "b".to_string()]
        }
    );
}

#[test]
fn a_push_with_nothing_in_it_asks_the_terminal_for_nothing() {
    // Not a scroll of one blank row: an empty delta is a delta that said
    // nothing, and the wrap of an empty string is still one row.
    let mut transcript = Transcript::new(80);
    assert_eq!(transcript.push(""), Append::nothing());
    assert_eq!(transcript.tail_rows(), 0);
    transcript.push("text");
    assert_eq!(transcript.push(""), Append::nothing());
    assert_eq!(transcript.tail_rows(), 1);
}

#[test]
fn no_row_of_an_append_carries_a_line_break() {
    // A row that still held one would move the terminal's cursor off the
    // row it was placed on, and every row written after it would land a row
    // too high (`frame::render_append`).
    let mut transcript = Transcript::new(12);
    for text in ["one\r\ntwo", "\rthree\n", "a very long line that wraps\n"] {
        for row in transcript.push(text).rows {
            assert!(
                !row.contains(['\r', '\n']),
                "a line break survived into a document row: {row:?}"
            );
        }
    }
}

#[test]
fn a_wrapped_tail_scrolls_once_per_row_it_gained() {
    // The number that matters: scroll by fewer rows than were added and the
    // band paints over the transcript; by more and the document grows blank
    // rows nobody wrote.
    let mut transcript = Transcript::new(4);
    assert_eq!(transcript.push("abcdefghijkl").scroll, 3);
    assert_eq!(transcript.tail_rows(), 3);
    assert_eq!(transcript.push("mnop").scroll, 1);
}

#[test]
fn a_line_with_more_rows_than_a_u16_is_counted_in_full() {
    // The count is a property of the text. `editor::MAX_COMPOSER_BYTES` is
    // 8 MiB, and a submission anywhere near it, echoed here and wrapped on
    // a narrow terminal, is past 65535 rows long before it is unusual.
    // Counting these in a `u16` saturates, and `Append::scroll` then
    // understates the rows it carries -- which the renderer reads as "the
    // difference was already painted" and never paints. This is the count
    // path, at the boundary and past it.
    let boundary = usize::from(u16::MAX);
    for rows in [boundary - 1, boundary, boundary + 1, boundary + 2] {
        let mut transcript = Transcript::new(1);
        let append = transcript.push(&"x".repeat(rows));
        assert_eq!(append.rows.len(), rows, "{rows} rows of text");
        assert_eq!(
            append.scroll, rows,
            "a fresh line of {rows} rows scrolled in fewer than it wrote"
        );
        assert_eq!(transcript.tail_rows(), rows);
        // and the next push is still measured against all of them, so the
        // saturation cannot reappear one delta later
        assert_eq!(
            transcript.push("y"),
            Append {
                scroll: 1,
                rows: {
                    let mut all = vec!["x".to_string(); rows];
                    all.push("y".to_string());
                    all
                }
            }
        );
    }
}

#[test]
fn the_rows_of_an_append_are_the_text_that_was_pushed() {
    // Every character in, every character out, in order -- across wrapping
    // and across breaks. A wrap that dropped a byte would be invisible in
    // the counts above.
    let mut transcript = Transcript::new(7);
    // The document the terminal ends up holding, replayed from the appends
    // exactly as `frame::render_append` applies them: scroll by `scroll`,
    // then write `rows` onto the last `rows.len()` rows of what is there.
    let mut document: Vec<String> = Vec::new();
    for text in ["alpha bra", "vo\ncharlie ", "delta\n", "echo"] {
        let append = transcript.push(text);
        let kept = (document.len() + append.scroll).saturating_sub(append.rows.len());
        document.truncate(kept);
        document.extend(append.rows);
    }
    assert_eq!(
        document,
        vec!["alpha ", "bravo", "charlie ", "delta", "echo"]
    );
    assert_eq!(
        document.join("").replace(' ', ""),
        "alphabravocharliedeltaecho",
        "a character was dropped or repeated between the wrap and the append"
    );
}
