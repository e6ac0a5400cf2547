//! The soft-wrap.

use xfx::tui::wrap::{cursor_point, expand_tabs, width, wrap, Row, TAB_WIDTH};

fn texts<'a>(text: &'a str, rows: &[Row]) -> Vec<&'a str> {
    rows.iter().map(|row| &text[row.start..row.end]).collect()
}

#[test]
fn a_word_that_does_not_fit_the_rest_of_a_row_wraps_whole() {
    let text = "alpha bravo";
    assert_eq!(texts(text, &wrap(text, 8)), vec!["alpha ", "bravo"]);
}

#[test]
fn spaces_hang_past_the_right_margin_instead_of_wrapping() {
    // row starts at the word rather than at a column of blanks.
    let text = "alpha     bravo";
    let rows = wrap(text, 6);
    assert_eq!(texts(text, &rows), vec!["alpha     ", "bravo"]);
    assert_eq!(
        rows[0].width, 10,
        "a hanging space is measured, then clipped"
    );
}

#[test]
fn a_word_wider_than_a_row_splits_per_grapheme() {
    let text = "abcdefghij";
    assert_eq!(texts(text, &wrap(text, 4)), vec!["abcd", "efgh", "ij"]);
}

#[test]
fn a_hard_newline_always_breaks() {
    let text = "a\nb";
    assert_eq!(texts(text, &wrap(text, 80)), vec!["a\n", "b"]);
}

#[test]
fn a_wide_glyph_costs_two_cells_and_never_straddles_the_margin() {
    let text = "\u{c548}\u{b155}\u{d558}\u{c138}\u{c694}";
    let rows = wrap(text, 5);
    assert_eq!(
        texts(text, &rows),
        vec!["\u{c548}\u{b155}", "\u{d558}\u{c138}", "\u{c694}"]
    );
}

#[test]
fn a_cursor_at_a_soft_wrap_boundary_belongs_to_the_following_row() {
    let text = "alpha bravo";
    let rows = wrap(text, 8);
    assert_eq!(cursor_point(text, &rows, 6), (1, 0));
    assert_eq!(cursor_point(text, &rows, 11), (1, 5));
}

#[test]
fn a_cursor_after_a_wide_glyph_is_a_column_of_cells_rather_than_of_bytes() {
    // Why `cursor_point` takes the text. Each of these glyphs is three
    // bytes and two cells, so a column derived from `cursor - row.start`
    // puts the caret at column 6 on a row that is 4 cells wide, three
    // columns past the character it is supposed to sit on.
    let text = "\u{c548}\u{b155}";
    let rows = wrap(text, 80);
    assert_eq!(cursor_point(text, &rows, text.len()), (0, 4));
    assert_eq!(cursor_point(text, &rows, 3), (0, 2));
}

#[test]
fn a_composed_grapheme_is_one_column_however_many_bytes_it_took() {
    // A cluster is one cell's worth of caret movement whatever it cost in
    // bytes: `e` + a combining acute is three bytes and one column, and a
    // ZWJ family emoji is eighteen bytes and two. A caret stepped in bytes,
    // or in `char`s, lands somewhere the terminal drew nothing.
    let acute = "e\u{301}";
    let family = "\u{1f468}\u{200d}\u{1f469}\u{200d}\u{1f467}";
    let text = format!("{acute}{family}!");
    let rows = wrap(&text, 80);
    assert_eq!(rows.len(), 1, "one row: {rows:?}");

    assert_eq!(cursor_point(&text, &rows, 0), (0, 0));
    assert_eq!(
        cursor_point(&text, &rows, acute.len()),
        (0, 1),
        "the accent is composed onto the letter, not a column of its own"
    );
    assert_eq!(
        cursor_point(&text, &rows, acute.len() + family.len()),
        (0, 3),
        "the family emoji is one cluster and two cells"
    );
    assert_eq!(cursor_point(&text, &rows, text.len()), (0, 4));
}

#[test]
fn a_cursor_before_a_hard_newline_stays_on_the_row_that_break_ended() {
    // The break's own bytes belong to the row it ended, so an offset
    // *inside* the break is still that row -- and the offset after it is
    // the first column of the next one, which is where the caret goes the
    // instant the newline is typed.
    let text = "ab\ncd";
    let rows = wrap(text, 80);
    assert_eq!(cursor_point(text, &rows, 2), (0, 2));
    assert_eq!(cursor_point(text, &rows, 3), (1, 0));
    assert_eq!(cursor_point(text, &rows, 5), (1, 2));
}

#[test]
fn a_text_that_ends_in_a_newline_has_an_empty_row_after_it() {
    // Otherwise the caret after a typed newline is reported on the row the
    // newline ended, which is the row above the one it is really on.
    let text = "line\n";
    let rows = wrap(text, 80);
    assert_eq!(texts(text, &rows), vec!["line\n", ""]);
    assert_eq!(cursor_point(text, &rows, 5), (1, 0));
}

#[test]
fn an_empty_text_is_one_empty_row_rather_than_no_rows() {
    let rows = wrap("", 80);
    assert_eq!(
        rows,
        vec![Row {
            start: 0,
            end: 0,
            width: 0
        }]
    );
    assert_eq!(cursor_point("", &rows, 0), (0, 0));
}

#[test]
fn the_rows_tile_the_text_with_no_gap_and_no_overlap() {
    // The property every caller rests on: a row is a *range*, so a break
    // that dropped or repeated a byte would show up as text the transcript
    // never printed or printed twice, and no single example above would
    // catch it.
    for text in [
        "",
        "a",
        "alpha bravo charlie delta",
        "alpha     bravo",
        "abcdefghij",
        "a\nb\n",
        "\u{c548}\u{b155}\u{d558}\u{c138}\u{c694} ok",
        "   leading",
        "trailing   ",
    ] {
        for cols in [1u16, 2, 4, 6, 8, 80] {
            let rows = wrap(text, cols);
            assert!(!rows.is_empty(), "{text:?} at {cols} produced no rows");
            assert_eq!(rows[0].start, 0, "{text:?} at {cols}");
            assert_eq!(
                rows.last().expect("a row").end,
                text.len(),
                "{text:?} at {cols} lost the end of the text"
            );
            for pair in rows.windows(2) {
                assert_eq!(
                    pair[0].end, pair[1].start,
                    "{text:?} at {cols} has a gap or an overlap between rows"
                );
                assert!(
                    pair[0].start < pair[0].end,
                    "{text:?} at {cols} produced an empty row in the middle"
                );
            }
        }
    }
}

#[test]
fn a_glyph_wider_than_the_whole_row_takes_the_row_rather_than_looping() {
    // Two cells will not fit one column, and a break that fired anyway
    // would push an empty row and meet the same glyph again.
    let text = "\u{c548}\u{b155}";
    let rows = wrap(text, 1);
    assert_eq!(texts(text, &rows), vec!["\u{c548}", "\u{b155}"]);
    assert_eq!(rows[0].width, 2, "the glyph is measured, then clipped");
}

#[test]
fn control_characters_cost_no_cells() {
    // They are obeyed by the terminal rather than painted, and
    // `unicode_width` gives a lone control character a column of its own.
    assert_eq!(width("a\nb"), 2);
    assert_eq!(width("\r\n"), 0);
    assert_eq!(width(""), 0);
    assert_eq!(width("\u{c548}"), 2);
}

#[test]
fn a_tab_measures_the_cells_the_painter_writes_for_it() {
    // A paste is the one way a tab reaches a draft, and the painter's
    // expansion is the same number the wrap measures. It is spelled out as
    // well as read from the constant: a test that took the width from the
    // thing enforcing it would pass for any width.
    assert_eq!(TAB_WIDTH, 4);
    assert_eq!(width("\t"), TAB_WIDTH);
    assert_eq!(width("a\tb"), TAB_WIDTH + 2);
    let painted = format!("a{}b", " ".repeat(usize::from(TAB_WIDTH)));
    assert_eq!(expand_tabs("a\tb"), painted);
    assert_eq!(
        width(&painted),
        width("a\tb"),
        "the painted row is a different number of cells from the measured one"
    );
    // Borrowed when there is nothing to expand, which is every row of
    // nearly every session.
    assert!(matches!(
        expand_tabs("plain"),
        std::borrow::Cow::Borrowed(_)
    ));
    // And the cells are cells the break is taken on: four of them do not
    // fit beside `ab` in a four-column row, so the tab takes a row of its
    // own -- which a control measured at nothing never could.
    let text = "ab\tcd";
    let rows = wrap(text, 4);
    assert_eq!(texts(text, &rows), vec!["ab", "\t", "cd"]);
}

#[test]
fn an_escape_sequence_is_free_whole_rather_than_only_its_escape_byte() {
    // Counting only the `ESC` as a control would leave `[31m` measured as
    // four printing characters, and a row with two colours in it would lose
    // eight columns of text to instructions that paint nothing.
    assert_eq!(width("\u{1b}[31m"), 0);
    assert_eq!(width("\u{1b}[1;38;5;200mred\u{1b}[0m"), 3);
    // **Every** sequence, not only the ones a row may keep. Measuring a
    // rejected one as text is how a narrow row comes to break inside it,
    // and a removal that only knows how to take a whole sequence out then
    // leaves the printable half of one on the screen.
    assert_eq!(width("\u{1b}[2J"), 0, "the erase was measured as text");
    assert_eq!(width("a\u{1b}[?1049hb"), 2);
    assert_eq!(width("a\u{1b}]0;title\u{7}b"), 2);
    // A sequence that has not finished is still not text: the bytes that
    // have arrived travel together and paint nothing.
    assert_eq!(width("ab\u{1b}[3"), 2);
}

#[test]
fn a_colour_never_takes_the_break_that_belongs_to_the_text_around_it() {
    // A row is broken where the *text* crosses the margin. A sequence that
    // took a break point with it would put the colour on one row and the
    // word it colours on the next, and -- because a break is where a row's
    // bytes end -- could cut the sequence itself in half.
    let text = "alpha \u{1b}[31mbravo";
    assert_eq!(
        texts(text, &wrap(text, 8)),
        vec!["alpha ", "\u{1b}[31mbravo"]
    );
    let split = "abcd\u{1b}[31mefgh";
    assert_eq!(
        texts(split, &wrap(split, 4)),
        vec!["abcd", "\u{1b}[31mefgh"],
        "a row ended inside an escape sequence"
    );
}

#[test]
fn a_word_that_moved_down_is_still_broken_at_the_margin() {
    // The word moves behind the space in front of it, and what moved is too long
    // for a row with the wide glyph at its end: no glyph straddles the margin.
    let text = " bbb\u{d55c}";
    let rows = wrap(text, 4);
    assert_eq!(texts(text, &rows), vec![" ", "bbb", "\u{d55c}"]);
    assert_eq!(
        rows.iter().map(|row| row.width).collect::<Vec<_>>(),
        vec![1, 3, 2]
    );
}

/// Texts whose clusters are cut in every way there is: marks behind a letter, a
/// space or nothing, marks that take what follows, joined emoji, flags, jamo,
/// conjuncts, controls and escape sequences.
const ODD: [&str; 16] = [
    "",
    "plain words, and  two   spaces  ",
    "a\u{301}b \u{301}c \u{301}\u{302} d",
    "\u{301}\u{301}x",
    "\u{600} 1\u{600}\u{301} 2",
    "\u{1f468}\u{200d}\u{1f469}\u{200d}\u{1f467} family \u{200d}\u{2764}",
    "\u{1f1e6}\u{1f1e7}\u{1f1e8} \u{1f1e9}\u{1f1ea}",
    "\u{1100}\u{1161}\u{11a8}\u{1100} \u{11a8}",
    "\u{915}\u{94d}\u{937} \u{94d}\u{937}",
    "\u{4f60}\u{597d} wide \u{4e16}\u{754c} words",
    "one\ntwo\r\nthree\rfour\n",
    "\u{7f}\u{9f}\u{301} \u{85}",
    "\u{1b}[31mred\u{1b}[0m and \u{1b}]0;t\u{7}title",
    "x\u{1b}]open \u{1b}[1my",
    "\u{1f44d}\u{1f3fb} \u{1f3fb}\u{fe0f} \u{fe0f}",
    "  \u{e33}\u{e01}\u{e33} ",
];

#[test]
fn every_row_is_as_wide_as_its_own_text() {
    for text in ODD {
        for cols in [0, 1, 2, 3, 5, 8, 40] {
            for row in wrap(text, cols) {
                assert_eq!(
                    row.width,
                    width(&text[row.start..row.end]),
                    "{text:?} at {cols}: {row:?}"
                );
            }
        }
    }
    let hanging = wrap("ab   cd", 3);
    assert_eq!((hanging[0].start, hanging[0].end, hanging[0].width), (0, 5, 5));
    let broken = wrap("ab\ncd", 9);
    assert_eq!((broken[0].start, broken[0].end, broken[0].width), (0, 3, 2));
}

#[test]
fn the_column_of_an_offset_is_the_width_of_its_row_up_to_it() {
    for text in ODD {
        for cols in [1, 3, 8] {
            let rows = wrap(text, cols);
            let offsets: Vec<usize> = text
                .char_indices()
                .map(|(at, _)| at)
                .chain([text.len()])
                .collect();
            for cursor in offsets {
                let (row, column) = cursor_point(text, &rows, cursor);
                let last = row + 1 == rows.len();
                assert!(rows[row].start <= cursor, "{text:?} at {cols}: {cursor}");
                assert!(
                    cursor < rows[row].end || last,
                    "{text:?} at {cols}: {cursor}"
                );
                assert_eq!(
                    column,
                    width(&text[rows[row].start..cursor]),
                    "{text:?} at {cols}: {cursor}"
                );
                if cursor == rows[row].start {
                    assert_eq!(column, 0);
                }
            }
        }
    }
}

#[test]
fn a_text_measures_what_it_measures_with_its_tabs_expanded() {
    for before in ODD {
        for behind in ODD {
            let text = format!("{before}\t{behind}\t\t{before}").replace('\u{1b}', "");
            let expanded = expand_tabs(&text);
            assert_eq!(width(&expanded), width(&text), "{text:?}");
            assert!(!expanded.contains('\t'));
            assert_eq!(expanded.len(), text.len() + 3 * 3);
        }
    }
    assert_eq!(width("\t"), 4);
    assert_eq!(width("a\tb"), 6);
    assert_eq!(width("    "), 4);
}

#[test]
fn a_space_is_a_cell_of_its_own_in_whatever_cluster_it_is() {
    for (text, cells) in [
        (" ", 1),
        (" \u{301}", 1),
        ("\u{600} ", 2),
        ("\u{600} \u{301}", 2),
        (" \u{1f3fb}", 3),
        ("  \u{fe0f}", 2),
    ] {
        assert_eq!(width(text), cells, "{text:?}");
    }
}
