use xfx::tui::band::{
    band_rows, clip, composer_cursor, fit, painted, text_cols, Geometry, Shown, PROMPT_CELLS,
};
use xfx::tui::theme::{Depth, Mode, Palette};
use xfx::tui::wrap::width;

const PALETTE: Palette = Palette {
    mode: Mode::Dark,
    depth: Depth::Ansi256,
};

fn geometry(cols: u16, input_rows: u16) -> Geometry {
    Geometry {
        rows: 24,
        cols,
        band_rows: input_rows + 2,
        activity: None,
        panel: 0,
        panel_first: 24 - input_rows - 1,
        divider: 24 - input_rows - 1,
        input_first: 24 - input_rows,
        input_rows,
    }
}

fn divider(cols: usize) -> String {
    format!("{}{}{}", PALETTE.divider(), "\u{2500}".repeat(cols), PALETTE.reset())
}

fn lines(texts: &[&str]) -> Vec<String> {
    texts.iter().map(|text| text.to_string()).collect()
}

#[test]
fn the_band_is_a_rule_the_composer_and_a_hint_row() {
    let rows = band_rows(
        &geometry(80, 1),
        &PALETTE,
        &Shown {
            activity: None,
            block: &[],
            composer: &lines(&[""]),
            first: 0,
            last: 1,
            hint: "ask",
        },
    );
    assert_eq!(
        rows,
        vec![
            divider(80),
            "> ".to_string(),
            format!("{}ask{}", PALETTE.hint(), PALETTE.reset()),
        ]
    );
}

#[test]
fn the_divider_spans_the_screen_it_was_solved_for() {
    for cols in [20u16, 80, 133] {
        let rows = band_rows(
            &geometry(cols, 1),
            &PALETTE,
            &Shown {
                activity: None,
                block: &[],
                composer: &lines(&[""]),
                first: 0,
                last: 1,
                hint: "",
            },
        );
        assert_eq!(rows[0], divider(usize::from(cols)));
        assert_eq!(rows[2], "", "a row with nothing on it was given a colour");
    }
}

#[test]
fn a_taller_composer_gets_one_row_each_and_the_marker_stays_on_the_first() {
    let rows = band_rows(
        &geometry(80, 3),
        &PALETTE,
        &Shown {
            activity: None,
            block: &[],
            composer: &lines(&["one", "two"]),
            first: 0,
            last: 2,
            hint: "ask",
        },
    );
    assert_eq!(rows.len(), 5);
    assert_eq!(rows[1], "> one");
    assert_eq!(rows[2], "  two");
    assert_eq!(rows[3], "", "a row the composer does not use was left out");
}

#[test]
fn a_composer_scrolled_past_its_first_row_shows_no_marker() {
    let rows = band_rows(
        &geometry(80, 1),
        &PALETTE,
        &Shown {
            activity: None,
            block: &[],
            composer: &lines(&["one", "two"]),
            first: 1,
            last: 2,
            hint: "",
        },
    );
    assert_eq!(rows[1], "  two");
}

#[test]
fn the_rows_above_the_rule_are_shown_where_the_geometry_has_them() {
    let mut place = geometry(80, 1);
    place.activity = Some(20);
    place.panel = 2;
    place.band_rows = 6;
    let block = lines(&["first", "second"]);
    let composer = lines(&["text"]);
    let shown = Shown {
        activity: Some("Thinking"),
        block: &block,
        composer: &composer,
        first: 0,
        last: 1,
        hint: "ask",
    };
    let rows = band_rows(&place, &PALETTE, &shown);
    assert_eq!(rows.len(), 6);
    assert_eq!(rows[0], "Thinking");
    assert_eq!(rows[1], "first");
    assert_eq!(rows[2], "second");
    assert_eq!(rows[3], divider(80));
    place.panel = 0;
    place.activity = None;
    place.band_rows = 3;
    assert_eq!(band_rows(&place, &PALETTE, &shown).len(), 3);
}

#[test]
fn a_band_row_never_outgrows_the_screen_and_so_never_loses_its_reset() {
    let row = painted(PALETTE.hint(), "a hint too long for it", 6, PALETTE.reset());
    assert_eq!(row, format!("{}a hint{}", PALETTE.hint(), PALETTE.reset()));
    assert_eq!(painted("", "plain", 3, PALETTE.reset()), "plain");
}

#[test]
fn a_cut_stops_at_the_first_cell_that_does_not_fit() {
    assert_eq!(clip("abcdef", 4), "abcd");
    assert_eq!(clip("abc", 4), "abc");
    assert_eq!(clip("abc\u{d55c}d", 4), "abc", "a wide glyph was cut in half");
    assert_eq!(clip("", 4), "");
    assert_eq!(clip("ab", 0), "");
    assert_eq!(
        clip("\u{1b}[31mab\u{1b}[0mcd", 3),
        "\u{1b}[31mab\u{1b}[0mc",
        "a colour was charged a cell"
    );
}

#[test]
fn the_composer_is_measured_without_its_gutter() {
    assert_eq!(text_cols(80), 78);
    assert_eq!(text_cols(2), 1);
    assert_eq!(text_cols(0), 1);
    assert_eq!(PROMPT_CELLS, 2);
}

#[test]
fn a_draft_with_more_rows_than_a_u16_still_shows_its_end_and_places_the_caret() {
    let place = geometry(80, 3);
    assert_eq!(composer_cursor(&place, (70_000, 4), 69_998), (23, 6));
    assert_eq!(composer_cursor(&place, (70_000, 4), 0), (23, 6));
    assert_eq!(composer_cursor(&place, (0, 0), 5), (21, 2));
    assert_eq!(composer_cursor(&place, (0, u16::MAX), 0), (21, u16::MAX));
}

#[test]
fn the_composer_gives_way_one_row_at_a_time() {
    let solved = [Some(geometry(80, 1)), Some(geometry(80, 2)), None, None];
    assert_eq!(fit(9, 4, &solved), Some(geometry(80, 2)));
    assert_eq!(fit(1, 4, &solved), Some(geometry(80, 1)));
    assert_eq!(fit(0, 4, &solved), Some(geometry(80, 1)));
    assert_eq!(fit(3, 1, &[None]), None);
}

#[test]
fn what_is_cut_measures_no_more_than_the_cells_it_is_cut_for() {
    for text in [
        "abcdef",
        "ab \u{301}cd\u{301}",
        "\u{d55c}\u{ae00} wide",
        "\u{1b}[31mred\u{1b}[0m and more",
        "\u{1f468}\u{200d}\u{1f469} x",
        "a\tb\tc",
        "\u{1b}]0;title\u{7}\u{1b}[1mbold",
    ] {
        for cols in 0..12 {
            let cut = clip(text, cols);
            assert!(width(&cut) <= cols, "{text:?} at {cols}: {cut:?}");
            assert!(text.starts_with(&cut));
        }
    }
}
