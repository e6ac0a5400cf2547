//! The band at the bottom of the screen: its rows, its caret and its height.
//!
//! The band is a divider, the composer and a hint row, with a row above the
//! divider while a turn runs and a block of rows while a question or a menu is
//! up. The composer's text is written into a gutter of two cells that it never
//! uses, so a wrapped row starts under the row above it; the prompt marker
//! stands in the gutter of the composer's first row.

use vstd::prelude::*;
use vstd::string::*;
use vstd::utf8::*;

use crate::text;
use crate::tui::theme::{self, Palette};
use crate::tui::wrap;

verus! {

/// The divider's rule, one cell wide.
pub const RULE: char = '\u{2500}';

/// What stands in front of what is typed.
pub const PROMPT: &'static str = "> ";

/// What a continued row is written into instead.
pub const GUTTER: &'static str = "  ";

/// How many cells the gutter takes.
pub const PROMPT_CELLS: u16 = 2;

/// Where everything in a band is.
#[derive(Debug, Clone, Copy, PartialEq, Eq, Structural)]
pub struct Geometry {
    /// The screen's height.
    pub rows: u16,
    /// The screen's width.
    pub cols: u16,
    /// How many rows the band has.
    pub band_rows: u16,
    /// The row that says what a turn is doing, while there is one.
    pub activity: Option<u16>,
    /// How many rows a question or a menu has.
    pub panel: u16,
    /// The first of them.
    pub panel_first: u16,
    /// The divider's row.
    pub divider: u16,
    /// The composer's first row.
    pub input_first: u16,
    /// How many rows the composer has.
    pub input_rows: u16,
}

/// How many clusters fit on `cols` cells, counted from the cluster `from` on,
/// where everything in front of it does.
pub open spec fn fitting(p: Seq<wrap::Piece>, from: int, cols: nat) -> int
    decreases p.len() - from,
{
    if from >= p.len() {
        p.len() as int
    } else if wrap::cells_between(p, 0, from + 1) > cols {
        from
    } else {
        fitting(p, from + 1, cols)
    }
}

/// A text cut at the first cluster that does not fit on `cols` cells.
pub open spec fn clipped(text: Seq<char>, cols: u16) -> Seq<char> {
    let bytes = encode_utf8(text);
    let p = wrap::pieces(bytes);
    let kept = fitting(p, 0, cols as nat);
    if kept == p.len() {
        text
    } else {
        decode_utf8(bytes.subrange(0, wrap::offset(p, kept) as int))
    }
}

/// What is kept of a text fits on the cells it is kept for, and the next
/// cluster would not.
pub proof fn law_what_is_kept_fits(p: Seq<wrap::Piece>, from: int, cols: nat)
    requires
        0 <= from <= p.len(),
        wrap::cells_between(p, 0, from) <= cols,
    ensures
        from <= fitting(p, from, cols) <= p.len(),
        wrap::cells_between(p, 0, fitting(p, from, cols)) <= cols,
        fitting(p, from, cols) < p.len() ==> wrap::cells_between(
            p,
            0,
            fitting(p, from, cols) + 1,
        ) > cols,
    decreases p.len() - from,
{
    if from < p.len() && wrap::cells_between(p, 0, from + 1) <= cols {
        law_what_is_kept_fits(p, from + 1, cols);
    }
}

/// `text` cut at the first cluster that does not fit on `cols` cells. What is
/// left measures no more than them.
pub fn clip(text: &str, cols: u16) -> (cut: String)
    ensures
        cut@ == clipped(text@, cols),
        wrap::width_of(encode_utf8(cut@)) <= cols,
{
    let painted: Vec<wrap::Painted> = wrap::painting(text);
    let ghost p = wrap::views(painted@);
    let ghost bytes = text.spec_bytes();
    let ghost trailing = wrap::offset(p, p.len() as int) as int;
    let mut cells: usize = 0;
    let mut end: usize = 0;
    let mut at: usize = 0;
    proof {
        encode_utf8_valid_utf8(text@);
        is_char_boundary_start_end_of_seq(bytes);
    }
    while at < painted.len()
        invariant
            at <= painted@.len(),
            p == wrap::views(painted@),
            p == wrap::pieces(bytes),
            bytes == text.spec_bytes(),
            bytes == encode_utf8(text@),
            wrap::tiled(p, bytes.len()),
            wrap::on_boundaries(bytes, p),
            wrap::cuts_are_clean(bytes, p),
            valid_utf8(bytes),
            trailing + wrap::escapes_len(bytes.skip(trailing)) == bytes.len(),
            trailing == wrap::offset(p, p.len() as int),
            cells == wrap::cells_between(p, 0, at as int),
            cells <= cols,
            end == wrap::offset(p, at as int),
            end <= bytes.len(),
            is_char_boundary(bytes, 0),
            is_char_boundary(bytes, end as int),
            fitting(p, 0, cols as nat) == fitting(p, at as int, cols as nat),
        decreases painted@.len() - at,
    {
        proof {
            assert(p[at as int] == painted@[at as int]@);
        }
        if painted[at].cells > cols as usize - cells {
            proof {
                assert(bytes.subrange(0, end as int).len() == end);
                wrap::lemma_head_width(bytes, at as int);
            }
            return text::slice(text, 0, end).to_owned();
        }
        cells = cells + painted[at].cells;
        end = painted[at].end;
        at = at + 1;
    }
    text.to_owned()
}

/// A text in a colour, ended.
pub open spec fn in_colour(colour: Seq<char>, text: Seq<char>, cols: u16, reset: Seq<char>) -> Seq<
    char,
> {
    if colour.len() == 0 || text.len() == 0 {
        text
    } else {
        colour + clipped(text, cols) + reset
    }
}

/// `text` in a colour, ended. It is cut before the colour is wrapped around it,
/// so the end of the colour is never what a row too long for the screen loses.
/// A row with nothing on it has no colour.
pub fn painted(colour: &str, text: &str, cols: u16, reset: &str) -> (row: String)
    ensures
        row@ == in_colour(colour@, text@, cols, reset@),
        colour@.len() > 0 && text@.len() > 0 ==> wrap::width_of(
            encode_utf8(clipped(text@, cols)),
        ) <= cols,
{
    if colour.is_empty() || text.is_empty() {
        return text.to_owned();
    }
    let mut row: String = colour.to_owned();
    row.append(clip(text, cols).as_str());
    row.append(reset);
    row
}

/// The divider across `cols` cells.
pub open spec fn rule(cols: nat) -> Seq<char>
    decreases cols,
{
    if cols == 0 {
        Seq::empty()
    } else {
        rule((cols - 1) as nat).push(RULE)
    }
}

fn ruled(cols: u16) -> (text: String)
    ensures
        text@ == rule(cols as nat),
{
    let mut text: String = String::new();
    let mut at: u16 = 0;
    while at < cols
        invariant
            at <= cols,
            text@ == rule(at as nat),
        decreases cols - at,
    {
        text.push(RULE);
        at = at + 1;
    }
    text
}

/// The composer's row `index`, in its gutter.
pub open spec fn composed(composer: Seq<Seq<char>>, index: int) -> Seq<char> {
    (if index == 0 {
        PROMPT@
    } else {
        GUTTER@
    }) + composer[index]
}

/// The composer's rows from `first` up to `last`, each in its gutter.
pub open spec fn composer_rows(composer: Seq<Seq<char>>, first: int, last: int) -> Seq<Seq<char>>
    decreases last - first,
{
    if last <= first {
        Seq::empty()
    } else {
        composer_rows(composer, first, last - 1).push(composed(composer, last - 1))
    }
}

/// `rows` with blank rows behind them, up to `count` in all.
pub open spec fn filled(rows: Seq<Seq<char>>, count: int) -> Seq<Seq<char>>
    decreases count - rows.len(),
{
    if rows.len() >= count {
        rows
    } else {
        filled(rows.push(Seq::empty()), count)
    }
}

/// What a band shows, beside its geometry and its colours.
pub struct Shown<'a> {
    /// What a turn is doing.
    pub activity: Option<&'a str>,
    /// The rows of the question or the menu that is up.
    pub block: &'a [String],
    /// The composer's rows.
    pub composer: &'a [String],
    /// The first of them the band shows.
    pub first: usize,
    /// The first behind them that it does not.
    pub last: usize,
    /// What the last row says.
    pub hint: &'a str,
}

/// [`Shown`] in mathematical terms.
pub struct Said {
    pub activity: Option<Seq<char>>,
    pub block: Seq<Seq<char>>,
    pub composer: Seq<Seq<char>>,
    pub first: int,
    pub last: int,
    pub hint: Seq<char>,
}

impl<'a> View for Shown<'a> {
    type V = Said;

    open spec fn view(&self) -> Said {
        Said {
            activity: match self.activity {
                Some(row) => Some(row@),
                None => None,
            },
            block: text::texts(self.block@),
            composer: text::texts(self.composer@),
            first: self.first as int,
            last: self.last as int,
            hint: self.hint@,
        }
    }
}

/// The rows of a band above its hint row, before it is filled.
pub open spec fn upper_rows(geometry: Geometry, palette: Palette, shown: Said) -> Seq<Seq<char>> {
    let activity = if geometry.activity is Some {
        seq![
            match shown.activity {
                Some(row) => row,
                None => Seq::empty(),
            },
        ]
    } else {
        Seq::empty()
    };
    let block = if geometry.panel > 0 {
        shown.block
    } else {
        Seq::empty()
    };
    let divider = in_colour(
        theme::painted(palette, theme::DIVIDER as int),
        rule(geometry.cols as nat),
        geometry.cols,
        theme::RESET@,
    );
    activity + block + seq![divider] + composer_rows(shown.composer, shown.first, shown.last)
}

/// The rows of a band, top first.
pub open spec fn rows_of(geometry: Geometry, palette: Palette, shown: Said) -> Seq<Seq<char>> {
    filled(upper_rows(geometry, palette, shown), geometry.band_rows - 1).push(
        in_colour(theme::painted(palette, theme::HINT as int), shown.hint, geometry.cols, theme::RESET@),
    )
}

/// The rows of a band, top first: what a turn is doing, the question or the
/// menu, the divider, the composer, blank rows for what the composer does not
/// use, and the hint row.
pub fn band_rows(geometry: &Geometry, palette: &Palette, shown: &Shown) -> (rows: Vec<String>)
    requires
        shown.first <= shown.last <= shown.composer@.len(),
    ensures
        text::texts(rows@) == rows_of(*geometry, *palette, shown@),
{
    let mut rows: Vec<String> = Vec::new();
    if geometry.activity.is_some() {
        match shown.activity {
            Some(row) => rows.push(row.to_owned()),
            None => rows.push(String::new()),
        }
    }
    let ghost above = text::texts(rows@);
    proof {
        assert(above =~= if geometry.activity is Some {
            seq![
                match shown.activity {
                    Some(row) => row@,
                    None => Seq::empty(),
                },
            ]
        } else {
            Seq::empty()
        });
    }
    if geometry.panel > 0 {
        let mut at: usize = 0;
        proof {
            assert(above + text::texts(shown.block@).take(0) =~= above);
        }
        while at < shown.block.len()
            invariant
                at <= shown.block@.len(),
                text::texts(rows@) == above + text::texts(shown.block@).take(at as int),
            decreases shown.block@.len() - at,
        {
            let ghost before = rows@;
            rows.push(shown.block[at].clone());
            at = at + 1;
            proof {
                let block = text::texts(shown.block@);
                assert(block.take(at as int) =~= block.take(at - 1).push(block[at - 1]));
                assert(text::texts(rows@) =~= text::texts(before).push(
                    rows@.last()@,
                ));
                assert(text::texts(rows@) =~= above + block.take(at as int));
            }
        }
        proof {
            let block = text::texts(shown.block@);
            assert(block.take(at as int) =~= block);
        }
    }
    let ghost over = text::texts(rows@);
    let divider: String = painted(
        palette.divider(),
        ruled(geometry.cols).as_str(),
        geometry.cols,
        palette.reset(),
    );
    let ghost drawn = divider@;
    rows.push(divider);
    let ghost start = over.push(drawn);
    proof {
        assert(text::texts(rows@) =~= start);
    }
    let ghost composer = text::texts(shown.composer@);
    let mut at: usize = shown.first;
    proof {
        assert(start + composer_rows(composer, shown.first as int, shown.first as int) =~= start);
    }
    while at < shown.last
        invariant
            shown.first <= at <= shown.last <= shown.composer@.len(),
            composer == text::texts(shown.composer@),
            text::texts(rows@) == start + composer_rows(
                composer,
                shown.first as int,
                at as int,
            ),
        decreases shown.last - at,
    {
        let ghost before = rows@;
        let marker: &'static str = if at == 0 {
            PROMPT
        } else {
            GUTTER
        };
        let mut row: String = marker.to_owned();
        row.append(shown.composer[at].as_str());
        rows.push(row);
        at = at + 1;
        proof {
            assert(composer[at - 1] == shown.composer@[at - 1]@);
            assert(row@ =~= composed(composer, at - 1));
            assert(text::texts(rows@) =~= text::texts(before).push(row@));
            assert(text::texts(rows@) =~= start + composer_rows(
                composer,
                shown.first as int,
                at as int,
            ));
        }
    }
    let ghost upper = text::texts(rows@);
    proof {
        assert(upper =~= upper_rows(*geometry, *palette, shown@));
    }
    while rows.len() < (geometry.band_rows as usize).saturating_sub(1)
        invariant
            filled(text::texts(rows@), geometry.band_rows - 1) == filled(
                upper,
                geometry.band_rows - 1,
            ),
        decreases geometry.band_rows - rows@.len(),
    {
        let ghost before = rows@;
        rows.push(String::new());
        proof {
            assert(text::texts(rows@) =~= text::texts(before).push(Seq::empty()));
            assert(text::texts(before).len() == before.len());
        }
    }
    proof {
        assert(text::texts(rows@).len() == rows@.len());
    }
    let ghost before = rows@;
    let hint: String = painted(palette.hint(), shown.hint, geometry.cols, palette.reset());
    rows.push(hint);
    proof {
        assert(text::texts(rows@) =~= text::texts(before).push(hint@));
    }
    rows
}

/// A band has exactly the rows its geometry gives it wherever what it shows
/// leaves room for the hint row, so no row below is shifted.
pub proof fn law_a_band_has_its_rows(geometry: Geometry, palette: Palette, shown: Said)
    requires
        upper_rows(geometry, palette, shown).len() + 1 <= geometry.band_rows,
    ensures
        rows_of(geometry, palette, shown).len() == geometry.band_rows,
{
    lemma_filled(upper_rows(geometry, palette, shown), geometry.band_rows - 1);
}

proof fn lemma_filled(rows: Seq<Seq<char>>, count: int)
    requires
        rows.len() <= count,
    ensures
        filled(rows, count).len() == count,
    decreases count - rows.len(),
{
    if rows.len() < count {
        lemma_filled(rows.push(Seq::empty()), count);
    }
}

/// How wide the composer's text is: the screen without the gutter.
pub open spec fn text_width(cols: u16) -> u16 {
    if cols <= PROMPT_CELLS {
        1
    } else {
        (cols - PROMPT_CELLS) as u16
    }
}

/// How wide the composer's text is: the screen without the gutter, and never
/// nothing.
pub fn text_cols(cols: u16) -> (width: u16)
    ensures
        width == text_width(cols),
{
    let width: u16 = cols.saturating_sub(PROMPT_CELLS);
    if width == 0 {
        1
    } else {
        width
    }
}

/// One number, but no more than another.
pub open spec fn at_most(value: int, most: int) -> int {
    if value > most {
        most
    } else {
        value
    }
}

/// The caret of a composer that shows its rows from `first` on, where the caret
/// is on the row `point.0` and the column `point.1`: the terminal's row, and
/// the cells to the left of it.
pub open spec fn composer_caret(geometry: Geometry, point: (usize, u16), first: usize) -> (u16, u16) {
    let last = if geometry.input_rows == 0 {
        0
    } else {
        geometry.input_rows - 1
    };
    let below = if point.0 <= first {
        0
    } else {
        point.0 - first
    };
    (
        at_most(geometry.input_first + at_most(below, last), u16::MAX as int) as u16,
        at_most(PROMPT_CELLS + point.1, u16::MAX as int) as u16,
    )
}

/// The caret in the composer. A draft can have more rows than a terminal can
/// number, so the row is clamped to the band's own before it becomes one.
pub fn composer_cursor(geometry: &Geometry, point: (usize, u16), first: usize) -> (caret: (u16, u16))
    ensures
        caret == composer_caret(*geometry, point, first),
{
    let last: u16 = geometry.input_rows.saturating_sub(1);
    let below: usize = point.0.saturating_sub(first);
    let offset: u16 = if below > last as usize {
        last
    } else {
        below as u16
    };
    (geometry.input_first.saturating_add(offset), PROMPT_CELLS.saturating_add(point.1))
}

/// How many rows a composer asks for that wraps onto `wrapped`, where it may
/// have `limit`.
pub open spec fn wanted_rows(wrapped: nat, limit: u16) -> nat {
    if wrapped < 1 {
        1
    } else if wrapped > limit {
        limit as nat
    } else {
        wrapped
    }
}

/// The band for the most composer rows up to `wanted` that a screen holds.
/// `solved[k]` is the band with `k + 1` of them, where there is one.
pub open spec fn best(solved: Seq<Option<Geometry>>, wanted: int) -> Option<Geometry>
    decreases wanted,
{
    if wanted <= 0 {
        None
    } else if solved[wanted - 1] is Some {
        solved[wanted - 1]
    } else {
        best(solved, wanted - 1)
    }
}

/// The band a composer gets that wraps onto `wrapped` rows and may have
/// `limit`. `solved[k]` is the band with `k + 1` of them, where the screen holds
/// one. The composer gives way one row at a time.
pub fn fit(wrapped: usize, limit: u16, solved: &[Option<Geometry>]) -> (geometry: Option<Geometry>)
    requires
        1 <= limit <= solved@.len(),
    ensures
        geometry == best(solved@, wanted_rows(wrapped as nat, limit) as int),
{
    let wanted: usize = if wrapped < 1 {
        1
    } else if wrapped > limit as usize {
        limit as usize
    } else {
        wrapped
    };
    let mut rows: usize = wanted;
    while rows > 0
        invariant
            rows <= wanted <= solved@.len(),
            wanted == wanted_rows(wrapped as nat, limit),
            best(solved@, rows as int) == best(solved@, wanted as int),
        decreases rows,
    {
        if solved[rows - 1].is_some() {
            return solved[rows - 1];
        }
        rows = rows - 1;
    }
    None
}

/// The band that is found has as many composer rows as fit: every larger one
/// was asked for and refused. And a screen that holds any band of the composer
/// gets one.
pub proof fn law_the_composer_gives_way_last(solved: Seq<Option<Geometry>>, wanted: int, rows: int)
    requires
        0 < rows <= wanted <= solved.len(),
        solved[rows - 1] is Some,
    ensures
        best(solved, wanted) is Some,
        exists|k: int|
            rows <= k <= wanted && best(solved, wanted) == #[trigger] solved[k - 1] && (forall|j: int|
                k <= j < wanted ==> #[trigger] solved[j] is None),
    decreases wanted,
{
    if solved[wanted - 1] is Some {
        assert(best(solved, wanted) == solved[wanted - 1]);
    } else {
        law_the_composer_gives_way_last(solved, wanted - 1, rows);
        let k = choose|k: int|
            rows <= k <= wanted - 1 && best(solved, wanted - 1) == #[trigger] solved[k - 1] && (
            forall|j: int| k <= j < wanted - 1 ==> #[trigger] solved[j] is None);
        assert(best(solved, wanted) == solved[k - 1]);
        assert(forall|j: int| k <= j < wanted ==> #[trigger] solved[j] is None);
    }
}

/// A text that fits on its cells is not cut; one that does not is cut behind the
/// most clusters that fit. The number is how many are kept.
pub proof fn law_only_what_does_not_fit_is_cut(text: Seq<char>, cols: u16) -> (kept: int)
    ensures
        ({
            let bytes = encode_utf8(text);
            let p = wrap::pieces(bytes);
            &&& 0 <= kept <= p.len()
            &&& wrap::cells_between(p, 0, kept) <= cols
            &&& kept < p.len() ==> wrap::cells_between(p, 0, kept + 1) > cols
            &&& kept == p.len() ==> clipped(text, cols) == text
            &&& 0 < kept < p.len() ==> clipped(text, cols) == decode_utf8(
                bytes.subrange(0, p[kept - 1].end as int),
            )
            &&& kept == 0 && p.len() > 0 ==> clipped(text, cols) == decode_utf8(
                Seq::<u8>::empty(),
            )
        }),
{
    let bytes = encode_utf8(text);
    let p = wrap::pieces(bytes);
    law_what_is_kept_fits(p, 0, cols as nat);
    assert(bytes.subrange(0, 0) =~= Seq::<u8>::empty());
    fitting(p, 0, cols as nat)
}

/// A coloured row begins with its colour, holds the text as far as the row has
/// cells, and ends with the colour's end; a row with nothing on it, and one that
/// has no colour, is the text alone.
pub proof fn law_a_colour_is_always_ended(
    colour: Seq<char>,
    text: Seq<char>,
    cols: u16,
    reset: Seq<char>,
)
    ensures
        colour.len() > 0 && text.len() > 0 ==> {
            let row = in_colour(colour, text, cols, reset);
            &&& colour.is_prefix_of(row)
            &&& reset.is_suffix_of(row)
            &&& row.len() == colour.len() + clipped(text, cols).len() + reset.len()
            &&& row.subrange(
                colour.len() as int,
                colour.len() + clipped(text, cols).len() as int,
            ) == clipped(text, cols)
        },
        colour.len() == 0 || text.len() == 0 ==> in_colour(colour, text, cols, reset) == text,
{
    let row = in_colour(colour, text, cols, reset);
    if colour.len() > 0 && text.len() > 0 {
        assert(row.subrange(0, colour.len() as int) =~= colour);
        assert(row.subrange(row.len() - reset.len(), row.len() as int) =~= reset);
        assert(row.subrange(
            colour.len() as int,
            colour.len() + clipped(text, cols).len() as int,
        ) =~= clipped(text, cols));
    }
}

/// The divider is as long as the screen is wide, of the one sign.
pub proof fn law_the_divider_spans_the_screen(cols: nat)
    ensures
        rule(cols).len() == cols,
        forall|i: int| 0 <= i < cols ==> #[trigger] rule(cols)[i] == '\u{2500}',
    decreases cols,
{
    if cols > 0 {
        law_the_divider_spans_the_screen((cols - 1) as nat);
        assert forall|i: int| 0 <= i < cols implies #[trigger] rule(cols)[i] == '\u{2500}' by {
            if i < cols - 1 {
                assert(rule(cols)[i] == rule((cols - 1) as nat)[i]);
            }
        }
    }
}

/// The composer's rows that are shown are those from the first on, in order: the
/// first row of the draft behind the prompt, every other behind a gutter as wide.
pub proof fn law_a_composer_row_is_in_its_gutter(
    composer: Seq<Seq<char>>,
    first: int,
    last: int,
    k: int,
)
    requires
        first <= last,
        0 <= k < last - first,
    ensures
        composer_rows(composer, first, last).len() == last - first,
        composer_rows(composer, first, last)[k] == (if first + k == 0 {
            "> "@
        } else {
            "  "@
        }) + composer[first + k],
        "> "@.len() == "  "@.len() && "> "@.len() == PROMPT_CELLS,
    decreases last - first,
{
    reveal_strlit("> ");
    reveal_strlit("  ");
    lemma_composer_rows(composer, first, last);
    if k < last - first - 1 {
        law_a_composer_row_is_in_its_gutter(composer, first, last - 1, k);
    } else {
        lemma_composer_rows(composer, first, last - 1);
    }
}

proof fn lemma_composer_rows(composer: Seq<Seq<char>>, first: int, last: int)
    requires
        first <= last,
    ensures
        composer_rows(composer, first, last).len() == last - first,
    decreases last - first,
{
    if first < last {
        lemma_composer_rows(composer, first, last - 1);
    }
}

/// Rows that are filled up stay what they are and come first; what fills them is
/// blank, and they are as many as were wanted, or as many as there were.
pub proof fn law_blank_rows_come_behind(rows: Seq<Seq<char>>, count: int)
    ensures
        rows.is_prefix_of(filled(rows, count)),
        filled(rows, count).len() == (if rows.len() > count {
            rows.len() as int
        } else {
            count
        }) || count < 0,
        forall|i: int|
            rows.len() <= i < filled(rows, count).len() ==> (#[trigger] filled(rows, count)[i]).len()
                == 0,
    decreases count - rows.len(),
{
    if rows.len() < count {
        let more = rows.push(Seq::empty());
        law_blank_rows_come_behind(more, count);
        assert(filled(rows, count) == filled(more, count));
        assert(filled(rows, count).subrange(0, rows.len() as int) =~= filled(
            more,
            count,
        ).subrange(0, more.len() as int).take(rows.len() as int));
        assert(more.take(rows.len() as int) =~= rows);
        assert forall|i: int| rows.len() <= i < filled(rows, count).len() implies (
        #[trigger] filled(rows, count)[i]).len() == 0 by {
            if i == rows.len() {
                assert(filled(more, count).subrange(0, more.len() as int)[i] == more[i]);
            }
        }
    } else {
        assert(rows.subrange(0, rows.len() as int) =~= rows);
    }
}

/// A band is laid out from the top: what a turn is doing, where there is a row
/// for it; the question or the menu, where there is room for one; the divider
/// across the screen; the composer's rows; and the hint on the last row.
pub proof fn law_a_band_is_laid_out_from_the_top(
    geometry: Geometry,
    palette: Palette,
    shown: Said,
    k: int,
)
    requires
        shown.first <= shown.last,
    ensures
        ({
            let rows = rows_of(geometry, palette, shown);
            let above = if geometry.activity is Some {
                1int
            } else {
                0int
            };
            let block = if geometry.panel > 0 {
                shown.block.len() as int
            } else {
                0int
            };
            let count = shown.last - shown.first;
            &&& rows.len() >= above + block + 1 + count + 1
            &&& geometry.activity is Some ==> rows[0] == (match shown.activity {
                Some(row) => row,
                None => Seq::empty(),
            })
            &&& 0 <= k < block ==> rows[above + k] == shown.block[k]
            &&& rows[above + block] == in_colour(
                theme::painted(palette, theme::DIVIDER as int),
                rule(geometry.cols as nat),
                geometry.cols,
                theme::RESET@,
            )
            &&& 0 <= k < count ==> rows[above + block + 1 + k] == composer_rows(
                shown.composer,
                shown.first,
                shown.last,
            )[k]
            &&& above + block + 1 + count <= k < rows.len() - 1 ==> rows[k].len() == 0
            &&& rows.last() == in_colour(
                theme::painted(palette, theme::HINT as int),
                shown.hint,
                geometry.cols,
                theme::RESET@,
            )
        }),
{
    let upper = upper_rows(geometry, palette, shown);
    law_blank_rows_come_behind(upper, geometry.band_rows - 1);
    lemma_composer_rows(shown.composer, shown.first, shown.last);
    let rows = rows_of(geometry, palette, shown);
    let whole = filled(upper, geometry.band_rows - 1);
    assert(whole.subrange(0, upper.len() as int) =~= upper);
    assert forall|i: int| 0 <= i < upper.len() implies #[trigger] rows[i] == upper[i] by {
        assert(whole.subrange(0, upper.len() as int)[i] == whole[i]);
    }
}

/// The composer's text is as wide as the screen without its gutter, and never
/// nothing. Its caret is behind the gutter, on the row of the band that shows its
/// row, and on the last of them where it is further down. A composer asks for as
/// many rows as it wraps onto, but for one at the least and for no more than it
/// may have.
pub proof fn law_the_composer_is_measured_behind_its_gutter(
    cols: u16,
    geometry: Geometry,
    point: (usize, u16),
    first: usize,
    wrapped: nat,
    limit: u16,
)
    requires
        limit >= 1,
    ensures
        cols > 2 ==> text_width(cols) == cols - 2,
        cols <= 2 ==> text_width(cols) == 1,
        ({
            let caret = composer_caret(geometry, point, first);
            &&& point.1 + 2 <= u16::MAX ==> caret.1 == point.1 + 2
            &&& point.0 <= first ==> caret.0 == geometry.input_first
            &&& first <= point.0 < first + geometry.input_rows && geometry.input_first + (point.0
                - first) <= u16::MAX ==> caret.0 == geometry.input_first + (point.0 - first)
            &&& point.0 >= first + geometry.input_rows && geometry.input_rows > 0
                && geometry.input_first + geometry.input_rows - 1 <= u16::MAX ==> caret.0
                == geometry.input_first + geometry.input_rows - 1
        }),
        1 <= wanted_rows(wrapped, limit) <= limit,
        1 <= wrapped <= limit ==> wanted_rows(wrapped, limit) == wrapped,
        wrapped > limit ==> wanted_rows(wrapped, limit) == limit,
{
}

} // verus!
