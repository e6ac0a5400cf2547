//! The transcript: text in, rows the terminal's own document keeps.
//!
//! Everything above the band's divider is the terminal's document, and a row
//! handed over here is written there once, scrolled in so that when it leaves
//! the top of the screen it is in the terminal's native scrollback.
//!
//! A stream of text does not arrive one finished line at a time: a delta can be
//! three characters that lengthen a row already on the screen, or a hundred
//! that wrap it onto four more. So the module keeps the unfinished line, the
//! tail, and how many rows of the screen it currently occupies, and answers
//! every push with an [`Append`]: how many rows to scroll in, and the rows to
//! write. Once a line is finished it is gone from here.

use vstd::prelude::*;
use vstd::string::*;
use vstd::utf8::*;

use crate::text;
use crate::tui::wrap;

verus! {

/// What one push owes the terminal's document.
///
/// `scroll` is how many rows the screen must move up to make room; `rows` is
/// the whole of the unfinished line as it now stands, top first, to be written
/// on the `rows.len()` document rows immediately above the divider. A push that
/// only lengthened the last row scrolls nothing and rewrites one row.
///
/// A row count is bounded by the text, not by the screen.
#[derive(Debug, Clone, PartialEq, Eq)]
pub struct Append {
    pub scroll: usize,
    pub rows: Vec<String>,
}

/// [`Append`] in mathematical terms.
pub struct Owed {
    pub scroll: nat,
    pub rows: Seq<Seq<char>>,
}

/// What strings say.
pub open spec fn said(rows: Seq<String>) -> Seq<Seq<char>> {
    rows.map_values(|row: String| row@)
}

impl View for Append {
    type V = Owed;

    open spec fn view(&self) -> Owed {
        Owed { scroll: self.scroll as nat, rows: said(self.rows@) }
    }
}

/// An append that asks the terminal for nothing.
pub open spec fn nothing() -> Owed {
    Owed { scroll: 0, rows: Seq::empty() }
}

impl Append {
    /// An append that asks the terminal for nothing.
    pub fn nothing() -> (append: Self)
        ensures
            append@ == nothing(),
    {
        let append = Append { scroll: 0, rows: Vec::new() };
        assert(said(append.rows@) =~= Seq::empty());
        append
    }
}

/// The unfinished line, and what the screen already shows of it.
pub struct Transcript {
    /// The screen's width, which is what the rows are wrapped to.
    cols: u16,
    /// The line that has not ended yet.
    tail: String,
    /// How many rows of the screen the tail occupies now: how many rows a
    /// previous append wrote and the next one may write over.
    painted: usize,
    /// Whether the last non-empty push ended on a carriage return. A CRLF that
    /// arrives in two pieces is one break.
    split_crlf: bool,
}

/// [`Transcript`] in mathematical terms.
pub struct Unfinished {
    pub cols: u16,
    pub tail: Seq<char>,
    pub painted: nat,
    pub split_crlf: bool,
}

impl View for Transcript {
    type V = Unfinished;

    closed spec fn view(&self) -> Unfinished {
        Unfinished {
            cols: self.cols,
            tail: self.tail@,
            painted: self.painted as nat,
            split_crlf: self.split_crlf,
        }
    }
}

/// What the rows of a line say on a screen `cols` wide.
pub open spec fn row_texts(line: Seq<char>, cols: u16) -> Seq<Seq<char>> {
    let bytes = encode_utf8(line);
    wrap::wrapped(bytes, cols).map_values(
        |row: wrap::Span| decode_utf8(bytes.subrange(row.start as int, row.end as int)),
    )
}

/// Whether a character is a line break, however it is spelled.
pub open spec fn is_break(c: char) -> bool {
    c == '\n' || c == '\r'
}

/// Whether a text holds no line break.
pub open spec fn unbroken(text: Seq<char>) -> bool {
    forall|i: int| 0 <= i < text.len() ==> !is_break(#[trigger] text[i])
}

impl Unfinished {
    /// The tail holds no line break, and the screen shows all of its rows or,
    /// where the line has not begun, none.
    pub open spec fn well_formed(self) -> bool {
        &&& unbroken(self.tail)
        &&& self.painted == row_texts(self.tail, self.cols).len() || (self.painted == 0
            && self.tail.len() == 0)
    }
}

/// A text with every line break spelled as a line feed: a CRLF and a bare CR
/// become one each. Where the text before this one ended on a CR, a line feed
/// that opens this one is the other half of that break.
pub open spec fn fed(split: bool, text: Seq<char>) -> Seq<char>
    decreases text.len(),
{
    if text.len() == 0 {
        Seq::empty()
    } else if text[0] == '\r' {
        seq!['\n'] + fed(true, text.skip(1))
    } else if text[0] == '\n' && split {
        fed(false, text.skip(1))
    } else {
        seq![text[0]] + fed(false, text.skip(1))
    }
}

/// Whether a stream that has carried `text` may still be inside a CRLF.
pub open spec fn still_split(split: bool, text: Seq<char>) -> bool {
    if text.len() == 0 {
        split
    } else {
        text.last() == '\r'
    }
}

/// The lines of a text, split at the line feeds; the last one is unfinished.
pub open spec fn lines(text: Seq<char>) -> Seq<Seq<char>>
    decreases text.len(),
{
    if text.len() == 0 {
        seq![Seq::empty()]
    } else {
        let before = lines(text.drop_last());
        if text.last() == '\n' {
            before.push(Seq::empty())
        } else {
            before.drop_last().push(before.last().push(text.last()))
        }
    }
}

/// The rows of several lines, one line after the other.
pub open spec fn rows_of(all: Seq<Seq<char>>, cols: u16) -> Seq<Seq<char>>
    decreases all.len(),
{
    if all.len() == 0 {
        Seq::empty()
    } else {
        rows_of(all.drop_last(), cols) + row_texts(all.last(), cols)
    }
}

/// How many rows `rows` are past `painted`.
pub open spec fn gained(rows: nat, painted: nat) -> nat {
    if rows > painted {
        (rows - painted) as nat
    } else {
        0
    }
}

impl Unfinished {
    /// The lines a push leaves: what was unfinished, and what was pushed.
    pub open spec fn lines_with(self, text: Seq<char>) -> Seq<Seq<char>> {
        lines(self.tail + fed(self.split_crlf, text))
    }

    /// The unfinished line after a push.
    pub open spec fn pushed(self, text: Seq<char>) -> Unfinished {
        let all = self.lines_with(text);
        if fed(self.split_crlf, text).len() == 0 {
            Unfinished { split_crlf: still_split(self.split_crlf, text), ..self }
        } else {
            Unfinished {
                cols: self.cols,
                tail: all.last(),
                painted: row_texts(all.last(), self.cols).len(),
                split_crlf: still_split(self.split_crlf, text),
            }
        }
    }

    /// What a push owes the document: the rows of every line it touched, and a
    /// scroll for each row that was not on the screen.
    pub open spec fn owed(self, text: Seq<char>) -> Owed {
        let rows = rows_of(self.lines_with(text), self.cols);
        if fed(self.split_crlf, text).len() == 0 {
            nothing()
        } else {
            Owed { scroll: gained(rows.len(), self.painted), rows }
        }
    }

    /// The transcript once its line has been ended.
    pub open spec fn ended(self) -> Unfinished {
        Unfinished { cols: self.cols, tail: Seq::empty(), painted: 0, split_crlf: false }
    }

    /// The transcript once its line has been wrapped to another width: what the
    /// screen shows of it is its rows at that width, or nothing where the line
    /// has not begun.
    pub open spec fn rewrapped(self, cols: u16) -> Unfinished {
        Unfinished {
            cols,
            painted: if self.painted == 0 {
                0
            } else {
                row_texts(self.tail, cols).len()
            },
            ..self
        }
    }

    /// What ending the line owes the document.
    pub open spec fn closing(self) -> Owed {
        let rows = row_texts(self.tail, self.cols);
        if gained(rows.len(), self.painted) == 0 {
            nothing()
        } else {
            Owed { scroll: gained(rows.len(), self.painted), rows }
        }
    }
}

/// A document after an append: the screen scrolls by `scroll` rows, and the rows
/// are written onto the last `rows.len()` of what is there.
pub open spec fn replayed(document: Seq<Seq<char>>, append: Owed) -> Seq<Seq<char>> {
    let kept = document.len() + append.scroll - append.rows.len();
    document.take(if kept > 0 {
        kept
    } else {
        0
    }) + append.rows
}

// ---------------------------------------------------------------------------
// what the lines and the breaks of a stream are, however it is cut
// ---------------------------------------------------------------------------

proof fn lemma_fed_concat(split: bool, a: Seq<char>, b: Seq<char>)
    ensures
        fed(split, a + b) == fed(split, a) + fed(still_split(split, a), b),
        still_split(split, a + b) == still_split(still_split(split, a), b),
    decreases a.len(),
{
    if a.len() == 0 {
        assert(a + b =~= b);
        assert(fed(split, a) + fed(split, b) =~= fed(split, b));
    } else {
        let rest = a.skip(1);
        let next = a[0] == '\r';
        assert((a + b).skip(1) =~= rest + b);
        assert((a + b)[0] == a[0]);
        lemma_fed_concat(next, rest, b);
        assert(still_split(next, rest) == still_split(split, a)) by {
            if rest.len() > 0 {
                assert(rest.last() == a.last());
            }
        }
        assert(fed(split, a + b) =~= fed(split, a) + fed(still_split(split, a), b));
        if b.len() > 0 {
            assert((a + b).last() == b.last());
        } else {
            assert(a + b =~= a);
        }
    }
}

proof fn lemma_fed_holds_no_return(split: bool, text: Seq<char>)
    ensures
        forall|i: int| 0 <= i < fed(split, text).len() ==> #[trigger] fed(split, text)[i] != '\r',
    decreases text.len(),
{
    if text.len() > 0 {
        let next = text[0] == '\r';
        lemma_fed_holds_no_return(next, text.skip(1));
        let rest = fed(next, text.skip(1));
        let all = fed(split, text);
        assert forall|i: int| 0 <= i < all.len() implies #[trigger] all[i] != '\r' by {
            if all.len() == rest.len() {
                assert(all[i] == rest[i]);
            } else if i > 0 {
                assert(all[i] == rest[i - 1]);
            }
        }
    }
}

proof fn lemma_lines(text: Seq<char>)
    requires
        forall|i: int| 0 <= i < text.len() ==> #[trigger] text[i] != '\r',
    ensures
        lines(text).len() > 0,
        forall|k: int| 0 <= k < lines(text).len() ==> unbroken(#[trigger] lines(text)[k]),
    decreases text.len(),
{
    if text.len() > 0 {
        lemma_lines(text.drop_last());
        let before = lines(text.drop_last());
        let all = lines(text);
        assert forall|k: int| 0 <= k < all.len() implies unbroken(#[trigger] all[k]) by {
            if k < all.len() - 1 {
                assert(all[k] == before[k]);
            } else if text.last() != '\n' {
                assert(unbroken(before[before.len() - 1]));
            }
        }
    }
}

/// A text with no line feed in it is one line.
proof fn lemma_one_line(text: Seq<char>)
    requires
        unbroken(text),
    ensures
        lines(text) == seq![text],
    decreases text.len(),
{
    if text.len() > 0 {
        assert(!is_break(text[text.len() - 1]));
        assert forall|i: int| 0 <= i < text.len() - 1 implies !is_break(
            #[trigger] text.drop_last()[i],
        ) by {
            assert(text.drop_last()[i] == text[i]);
        }
        lemma_one_line(text.drop_last());
        assert(text.drop_last().push(text.last()) =~= text);
        assert(lines(text) =~= seq![text]);
    } else {
        assert(text =~= Seq::empty());
        assert(lines(text) =~= seq![text]);
    }
}

/// The lines of a stream, cut anywhere: the finished ones of the first part, and
/// those of what was unfinished and the second part.
proof fn lemma_lines_concat(a: Seq<char>, b: Seq<char>)
    requires
        forall|i: int| 0 <= i < a.len() ==> #[trigger] a[i] != '\r',
        forall|i: int| 0 <= i < b.len() ==> #[trigger] b[i] != '\r',
    ensures
        lines(a + b) == lines(a).drop_last() + lines(lines(a).last() + b),
    decreases b.len(),
{
    lemma_lines(a);
    let tail = lines(a).last();
    assert(unbroken(lines(a)[lines(a).len() - 1]));
    if b.len() == 0 {
        assert(a + b =~= a);
        assert(tail + b =~= tail);
        lemma_one_line(tail);
        assert(lines(a).drop_last() + seq![tail] =~= lines(a));
    } else {
        let shorter = b.drop_last();
        lemma_lines_concat(a, shorter);
        assert((a + b).drop_last() =~= a + shorter);
        assert((tail + b).drop_last() =~= tail + shorter);
        assert((a + b).last() == b.last());
        assert((tail + b).last() == b.last());
        lemma_lines(tail + shorter);
        let before = lines(tail + shorter);
        let head = lines(a).drop_last();
        assert((head + before).last() == before.last());
        assert((head + before).drop_last() =~= head + before.drop_last());
        assert(lines(a + b) =~= head + lines(tail + b));
    }
}

proof fn lemma_rows_concat(a: Seq<Seq<char>>, b: Seq<Seq<char>>, cols: u16)
    ensures
        rows_of(a + b, cols) == rows_of(a, cols) + rows_of(b, cols),
    decreases b.len(),
{
    if b.len() == 0 {
        assert(a + b =~= a);
        assert(rows_of(a, cols) + rows_of(b, cols) =~= rows_of(a, cols));
    } else {
        lemma_rows_concat(a, b.drop_last(), cols);
        assert((a + b).drop_last() =~= a + b.drop_last());
        assert((a + b).last() == b.last());
        assert(rows_of(a + b, cols) =~= rows_of(a, cols) + rows_of(b, cols));
    }
}

impl Unfinished {
    /// Whether the rows a push writes cover the rows the unfinished line already
    /// has on the screen. They do unless what is pushed makes the line narrower,
    /// as a variation selector behind a wide glyph can.
    pub open spec fn covers(self, text: Seq<char>) -> bool {
        fed(self.split_crlf, text).len() > 0 ==> rows_of(self.lines_with(text), self.cols).len()
            >= self.painted
    }

    /// Whether two pushes leave no row on the screen that one push of both would
    /// have written over: one of them carries nothing, or each covers what the
    /// screen shows, or the first does not and the second takes as many rows as
    /// the first left.
    pub open spec fn steady(self, a: Seq<char>, b: Seq<char>) -> bool {
        let mid = self.pushed(a);
        ||| fed(self.split_crlf, a).len() == 0
        ||| fed(mid.split_crlf, b).len() == 0
        ||| self.covers(a) && mid.covers(b)
        ||| !self.covers(a) && mid.owed(b).rows.len() == mid.painted
    }
}

/// What is unfinished does not depend on where a stream is cut: pushing `a` and
/// then `b` leaves what pushing both at once leaves.
pub proof fn law_the_line_is_invariant_under_chunking(
    before: Unfinished,
    a: Seq<char>,
    b: Seq<char>,
)
    requires
        before.well_formed(),
    ensures
        before.pushed(a).pushed(b) == before.pushed(a + b),
{
    lemma_chunks(before, a, b);
}

/// The lines of two pushes, and the lines of both at once.
proof fn lemma_chunks(before: Unfinished, a: Seq<char>, b: Seq<char>)
    requires
        before.well_formed(),
    ensures
        before.pushed(a).pushed(b) == before.pushed(a + b),
        fed(before.split_crlf, a + b) == fed(before.split_crlf, a) + fed(
            before.pushed(a).split_crlf,
            b,
        ),
        fed(before.split_crlf, a).len() > 0 && fed(before.pushed(a).split_crlf, b).len() > 0 ==> {
            let all = before.lines_with(a);
            let done = all.drop_last();
            let more = before.pushed(a).lines_with(b);
            &&& all.len() > 0
            &&& rows_of(all, before.cols) == rows_of(done, before.cols) + row_texts(
                all.last(),
                before.cols,
            )
            &&& rows_of(before.lines_with(a + b), before.cols) == rows_of(done, before.cols)
                + rows_of(more, before.cols)
        },
{
    let mid = before.pushed(a);
    let fa = fed(before.split_crlf, a);
    let fb = fed(mid.split_crlf, b);
    lemma_fed_concat(before.split_crlf, a, b);
    lemma_fed_holds_no_return(before.split_crlf, a);
    lemma_fed_holds_no_return(mid.split_crlf, b);
    assert(fed(before.split_crlf, a + b) =~= fa + fb);
    assert forall|i: int| 0 <= i < (before.tail + fa).len() implies #[trigger] (before.tail + fa)[i]
        != '\r' by {
        if i < before.tail.len() {
            assert(!is_break(before.tail[i]));
        }
    }
    if fa.len() == 0 {
        assert(fa + fb =~= fb);
    } else if fb.len() == 0 {
        assert(fa + fb =~= fa);
    } else {
        let all = lines(before.tail + fa);
        lemma_lines_concat(before.tail + fa, fb);
        assert(before.tail + (fa + fb) =~= (before.tail + fa) + fb);
        lemma_lines(before.tail + fa);
        let done = all.drop_last();
        let more = lines(all.last() + fb);
        assert(done.push(all.last()) =~= all);
        assert(rows_of(all, before.cols) =~= rows_of(done, before.cols) + row_texts(
            all.last(),
            before.cols,
        ));
        lemma_rows_concat(done, more, before.cols);
        assert(lines(before.tail + fa + fb) == done + more);
        assert forall|i: int| 0 <= i < (all.last() + fb).len() implies #[trigger] (all.last()
            + fb)[i] != '\r' by {
            assert(unbroken(all[all.len() - 1]));
            if i < all.last().len() {
                assert(!is_break(all[all.len() - 1][i]));
            }
        }
        lemma_lines(all.last() + fb);
        assert((done + more).last() == more.last());
    }
}

/// A push is invariant under chunking: pushing `a` and then `b` writes the same
/// document as pushing both at once, behind any that shows the unfinished line,
/// wherever the stream was cut.
pub proof fn law_push_is_invariant_under_chunking(
    before: Unfinished,
    a: Seq<char>,
    b: Seq<char>,
    document: Seq<Seq<char>>,
)
    requires
        before.well_formed(),
        document.len() >= before.painted,
        before.steady(a, b),
    ensures
        replayed(replayed(document, before.owed(a)), before.pushed(a).owed(b)) == replayed(
            document,
            before.owed(a + b),
        ),
{
    let mid = before.pushed(a);
    let fa = fed(before.split_crlf, a);
    let fb = fed(mid.split_crlf, b);
    let once = replayed(document, before.owed(a));
    let twice = replayed(once, mid.owed(b));
    lemma_chunks(before, a, b);
    if fa.len() == 0 {
        assert(fa + fb =~= fb);
        assert(replayed(document, nothing()) =~= document);
    } else if fb.len() == 0 {
        assert(fa + fb =~= fa);
        assert(replayed(once, nothing()) =~= once);
    } else {
        let all = before.lines_with(a);
        let first = rows_of(all, before.cols);
        let finished = rows_of(all.drop_last(), before.cols);
        let last = row_texts(all.last(), before.cols);
        let second = rows_of(mid.lines_with(b), before.cols);
        assert(first == finished + last);
        let kept = if before.covers(a) {
            document.len() - before.painted
        } else {
            document.len() - first.len()
        };
        let head = document.take(kept);
        assert(once =~= head + first);
        assert(once =~= head + finished + last);
        assert(twice =~= head + finished + second);
        assert(replayed(document, before.owed(a + b)) =~= head + (finished + second));
        assert(head + finished + second =~= head + (finished + second));
    }
}

/// A chunk boundary that carries no text changes nothing.
pub proof fn law_an_empty_push_is_transparent(before: Unfinished)
    ensures
        before.pushed(Seq::empty()) == before,
        before.owed(Seq::empty()) == nothing(),
{
}

/// Rows written one behind the other.
pub open spec fn joined(rows: Seq<Seq<char>>) -> Seq<char>
    decreases rows.len(),
{
    if rows.len() == 0 {
        Seq::empty()
    } else {
        joined(rows.drop_last()) + rows.last()
    }
}

proof fn lemma_joined_concat(a: Seq<Seq<char>>, b: Seq<Seq<char>>)
    ensures
        joined(a + b) == joined(a) + joined(b),
    decreases b.len(),
{
    if b.len() == 0 {
        assert(a + b =~= a);
        assert(joined(a) + joined(b) =~= joined(a));
    } else {
        lemma_joined_concat(a, b.drop_last());
        assert((a + b).drop_last() =~= a + b.drop_last());
        assert((a + b).last() == b.last());
        assert(joined(a + b) =~= joined(a) + joined(b));
    }
}

/// Whether every row holds no line break.
pub open spec fn all_unbroken(rows: Seq<Seq<char>>) -> bool {
    forall|r: int| 0 <= r < rows.len() ==> unbroken(#[trigger] rows[r])
}

/// One more row of a line: what the rows so far say, and that it is a part of
/// the line.
proof fn lemma_row_of_line(line: Seq<char>, start: int, end: int)
    requires
        0 <= start <= end <= encode_utf8(line).len(),
        is_char_boundary(encode_utf8(line), start),
        is_char_boundary(encode_utf8(line), end),
    ensures
        ({
            let bytes = encode_utf8(line);
            let row = decode_utf8(bytes.subrange(start, end));
            &&& decode_utf8(bytes.subrange(0, end)) == decode_utf8(bytes.subrange(0, start)) + row
            &&& unbroken(line) ==> unbroken(row)
        }),
{
    let bytes = encode_utf8(line);
    encode_utf8_valid_utf8(line);
    encode_utf8_decode_utf8(line);
    valid_utf8_split(bytes, end);
    decode_utf8_split(bytes, end);
    let front = bytes.subrange(0, end);
    if start < end {
        is_char_boundary_iff_not_is_continuation_byte(bytes, start);
        is_char_boundary_iff_not_is_continuation_byte(front, start);
        assert(front[start] == bytes[start]);
    } else {
        is_char_boundary_start_end_of_seq(front);
    }
    decode_utf8_split(front, start);
    assert(front.subrange(0, start) =~= bytes.subrange(0, start));
    assert(front.subrange(start, end) =~= bytes.subrange(start, end));
    let before = decode_utf8(bytes.subrange(0, start));
    let row = decode_utf8(bytes.subrange(start, end));
    if unbroken(line) {
        assert forall|i: int| 0 <= i < row.len() implies !is_break(#[trigger] row[i]) by {
            assert(row[i] == line[before.len() + i]);
        }
    }
}

/// A line, wrapped, as the strings an append writes: every character of it, in
/// order.
fn tail_texts(line: &str, cols: u16) -> (texts: Vec<String>)
    ensures
        said(texts@) == row_texts(line@, cols),
        joined(said(texts@)) == line@,
        unbroken(line@) ==> all_unbroken(said(texts@)),
{
    let rows: Vec<wrap::Row> = wrap::wrap(line, cols);
    let ghost bytes = line.spec_bytes();
    let mut texts: Vec<String> = Vec::new();
    let mut at: usize = 0;
    proof {
        assert(bytes.subrange(0, 0) =~= Seq::empty());
        assert(said(texts@) =~= row_texts(line@, cols).take(0));
    }
    while at < rows.len()
        invariant
            bytes == line.spec_bytes(),
            wrap::spans(rows@) == wrap::wrapped(bytes, cols),
            wrap::tile(bytes, rows@),
            wrap::ranges_of(bytes, rows@),
            at <= rows@.len(),
            said(texts@) == row_texts(line@, cols).take(at as int),
            joined(said(texts@)) == decode_utf8(
                bytes.subrange(
                    0,
                    if at == 0 {
                        0
                    } else {
                        rows@[at - 1].end as int
                    },
                ),
            ),
            unbroken(line@) ==> all_unbroken(said(texts@)),
        decreases rows@.len() - at,
    {
        let row: wrap::Row = rows[at];
        let text: &str = text::slice(line, row.start, row.end);
        let ghost before = said(texts@);
        texts.push(text.to_owned());
        proof {
            assert(said(texts@) =~= before.push(text@));
            assert(wrap::spans(rows@)[at as int] == row@);
            assert(row_texts(line@, cols)[at as int] == text@);
            assert(said(texts@) =~= row_texts(line@, cols).take(at + 1));
            assert(said(texts@).drop_last() =~= before);
            lemma_row_of_line(line@, row.start as int, row.end as int);
            if at > 0 {
                assert(rows@[at - 1].end == rows@[at - 1 + 1].start);
            }
        }
        at = at + 1;
    }
    proof {
        assert(row_texts(line@, cols).take(at as int) =~= row_texts(line@, cols));
        assert(bytes.subrange(0, bytes.len() as int) =~= bytes);
        encode_utf8_decode_utf8(line@);
    }
    texts
}

/// A stream's text with every line break spelled as a line feed.
fn feeds(split: bool, text: &str) -> (out: String)
    ensures
        out@ == fed(split, text@),
{
    let chars: Vec<char> = text::characters(text);
    let mut out: String = String::new();
    let mut split: bool = split;
    let ghost all = fed(split, text@);
    let mut at: usize = 0;
    proof {
        assert(chars@.skip(0) =~= chars@);
        assert(out@ + all =~= all);
    }
    while at < chars.len()
        invariant
            at <= chars@.len(),
            out@ + fed(split, chars@.skip(at as int)) == all,
        decreases chars@.len() - at,
    {
        let c: char = chars[at];
        let ghost rest = chars@.skip(at as int);
        let ghost before = out@;
        proof {
            assert(rest[0] == c);
            assert(rest.skip(1) =~= chars@.skip(at + 1));
        }
        if c == '\r' {
            out.push('\n');
            split = true;
            assert(before + (seq!['\n'] + fed(true, rest.skip(1))) =~= before.push('\n') + fed(
                true,
                rest.skip(1),
            ));
        } else if c == '\n' && split {
            split = false;
        } else {
            out.push(c);
            split = false;
            assert(before + (seq![c] + fed(false, rest.skip(1))) =~= before.push(c) + fed(
                false,
                rest.skip(1),
            ));
        }
        at = at + 1;
    }
    proof {
        assert(chars@.skip(at as int) =~= Seq::empty());
        assert(out@ + Seq::<char>::empty() =~= out@);
    }
    out
}

/// `text` with every line break spelled the one way the document accepts: a CRLF
/// becomes an LF and a bare CR becomes one too.
pub fn normalize(text: &str) -> (normalized: String)
    ensures
        normalized@ == fed(false, text@),
{
    feeds(false, text)
}

/// Whether a text ends on a carriage return; an empty one leaves the answer as
/// it was.
fn ends_split(split: bool, text: &str) -> (split_after: bool)
    ensures
        split_after == still_split(split, text@),
{
    let length: usize = text.unicode_len();
    if length == 0 {
        split
    } else {
        text.get_char(length - 1) == '\r'
    }
}

/// A text without its line feeds.
pub open spec fn printed(text: Seq<char>) -> Seq<char>
    decreases text.len(),
{
    if text.len() == 0 {
        Seq::empty()
    } else if text.last() == '\n' {
        printed(text.drop_last())
    } else {
        printed(text.drop_last()).push(text.last())
    }
}

proof fn lemma_lines_print(text: Seq<char>)
    ensures
        lines(text).len() > 0,
        joined(lines(text)) == printed(text),
    decreases text.len(),
{
    if text.len() == 0 {
        reveal_with_fuel(joined, 2);
        assert(lines(text).drop_last() =~= Seq::empty());
        assert(joined(lines(text)) =~= Seq::empty());
    } else {
        lemma_lines_print(text.drop_last());
        let before = lines(text.drop_last());
        let all = lines(text);
        if text.last() == '\n' {
            assert(all.drop_last() =~= before);
            assert(joined(all) =~= joined(before));
        } else {
            assert(all.drop_last() =~= before.drop_last());
            assert(joined(all) =~= joined(before).push(text.last()));
        }
    }
}

impl Transcript {
    pub fn new(cols: u16) -> (transcript: Self)
        ensures
            transcript@ == (Unfinished {
                cols,
                tail: Seq::empty(),
                painted: 0,
                split_crlf: false,
            }),
            transcript@.well_formed(),
    {
        Transcript { cols, tail: String::new(), painted: 0, split_crlf: false }
    }

    /// Adds `text` to the transcript and says what the document owes.
    ///
    /// A line break inside `text` finishes the line before it, and the part
    /// after it becomes the new tail; the [`Append`] covers every line the push
    /// touched, from the first row it changed down to the last it wrote. No row
    /// carries a line break, and no character is lost or repeated.
    pub fn push(&mut self, text: &str) -> (append: Append)
        requires
            old(self)@.well_formed(),
        ensures
            final(self)@ == old(self)@.pushed(text@),
            append@ == old(self)@.owed(text@),
            final(self)@.well_formed(),
            all_unbroken(append@.rows),
            append@.rows.len() > 0 ==> joined(append@.rows) == printed(
                old(self)@.tail + fed(old(self)@.split_crlf, text@),
            ),
    {
        let ghost before = self@;
        let body: String = feeds(self.split_crlf, text);
        let chars: Vec<char> = text::characters(body.as_str());
        self.split_crlf = ends_split(self.split_crlf, text);
        if chars.len() == 0 {
            return Append::nothing();
        }
        let ghost fresh = fed(before.split_crlf, text@);
        let ghost all = before.tail + fresh;
        let painted: usize = self.painted;
        let cols: u16 = self.cols;
        let mut rows: Vec<String> = Vec::new();
        let mut at: usize = 0;
        proof {
            lemma_fed_holds_no_return(before.split_crlf, text@);
            assert forall|i: int| 0 <= i < all.len() implies #[trigger] all[i] != '\r' by {
                if i < before.tail.len() {
                    assert(!is_break(before.tail[i]));
                }
            }
            assert(before.tail + fresh.take(0) =~= before.tail);
            lemma_one_line(before.tail);
            assert(seq![before.tail].drop_last() =~= Seq::empty());
            assert(said(rows@) =~= Seq::empty());
        }
        while at < chars.len()
            invariant
                chars@ == fresh,
                all == before.tail + fresh,
                forall|i: int| 0 <= i < all.len() ==> #[trigger] all[i] != '\r',
                at <= chars@.len(),
                self.cols == before.cols,
                self.painted == before.painted,
                cols == self.cols,
                self.split_crlf == still_split(before.split_crlf, text@),
                self.tail@ == lines(before.tail + fresh.take(at as int)).last(),
                said(rows@) == rows_of(
                    lines(before.tail + fresh.take(at as int)).drop_last(),
                    cols,
                ),
                joined(said(rows@)) == joined(
                    lines(before.tail + fresh.take(at as int)).drop_last(),
                ),
                all_unbroken(said(rows@)),
            decreases chars@.len() - at,
        {
            let ghost so_far = before.tail + fresh.take(at as int);
            let ghost next = before.tail + fresh.take(at + 1);
            proof {
                assert(next.drop_last() =~= so_far);
                assert(next.last() == chars@[at as int]);
                assert forall|i: int| 0 <= i < so_far.len() implies #[trigger] so_far[i]
                    != '\r' by {
                    assert(so_far[i] == all[i]);
                }
                lemma_lines(so_far);
                assert(unbroken(lines(so_far)[lines(so_far).len() - 1]));
            }
            if chars[at] == '\n' {
                // Everything before the break is a finished line. Its rows are
                // written once, here, and never again.
                let mut finished: Vec<String> = tail_texts(self.tail.as_str(), cols);
                let ghost old_rows = said(rows@);
                let ghost new_rows = said(finished@);
                rows.append(&mut finished);
                self.tail = String::new();
                proof {
                    assert(said(rows@) =~= old_rows + new_rows);
                    lemma_joined_concat(old_rows, new_rows);
                    assert(lines(next).drop_last() =~= lines(so_far));
                    assert(self.tail@ =~= lines(next).last());
                }
            } else {
                let c: char = chars[at];
                self.tail.push(c);
                proof {
                    assert(lines(next).drop_last() =~= lines(so_far).drop_last());
                }
            }
            at = at + 1;
        }
        proof {
            assert(fresh.take(at as int) =~= fresh);
            lemma_lines(all);
            lemma_lines_print(all);
            assert(unbroken(lines(all)[lines(all).len() - 1]));
        }
        let mut tail: Vec<String> = tail_texts(self.tail.as_str(), cols);
        let ghost old_rows = said(rows@);
        let ghost new_rows = said(tail@);
        self.painted = tail.len();
        rows.append(&mut tail);
        proof {
            assert(said(rows@) =~= old_rows + new_rows);
            lemma_joined_concat(old_rows, new_rows);
        }
        let scroll: usize = rows.len().saturating_sub(painted);
        Append { scroll, rows }
    }

    /// Ends the current line, leaving it in the document.
    ///
    /// Usually this writes nothing: the line is already on the screen exactly as
    /// it stands. The exception is a line with nothing on it, which has no row
    /// of its own yet and gets one.
    pub fn end_line(&mut self) -> (append: Append)
        requires
            old(self)@.well_formed(),
        ensures
            final(self)@ == old(self)@.ended(),
            final(self)@.well_formed(),
            append@ == old(self)@.closing(),
            all_unbroken(append@.rows),
    {
        let rows: Vec<String> = tail_texts(self.tail.as_str(), self.cols);
        let scroll: usize = rows.len().saturating_sub(self.painted);
        self.split_crlf = false;
        self.tail = String::new();
        self.painted = 0;
        proof {
            assert(self.tail@ =~= Seq::empty());
        }
        if scroll == 0 {
            return Append::nothing();
        }
        Append { scroll, rows }
    }

    /// How many rows of the screen the unfinished line occupies.
    pub fn tail_rows(&self) -> (rows: usize)
        ensures
            rows == self@.painted,
    {
        self.painted
    }

    /// Wraps the unfinished line to another width. What the screen shows of it
    /// is its rows at that width, or nothing where the line has not begun.
    pub fn resize_unfinished(&mut self, cols: u16)
        requires
            old(self)@.well_formed(),
        ensures
            final(self)@ == old(self)@.rewrapped(cols),
            final(self)@.well_formed(),
    {
        self.cols = cols;
        if self.painted > 0 {
            let rows: Vec<wrap::Row> = wrap::wrap(self.tail.as_str(), cols);
            proof {
                assert(wrap::spans(rows@).len() == rows@.len());
            }
            self.painted = rows.len();
        }
    }
}

// ---------------------------------------------------------------------------
// what a break, a line, a row and a push are
// ---------------------------------------------------------------------------

/// Every line break is spelled as one line feed, however it came: a line feed, a
/// carriage return, or the two together, also where they came apart. Anything
/// else stays as it is.
pub proof fn law_breaks_are_spelled_one_way(split: bool, c: char, rest: Seq<char>)
    requires
        c != '\r',
        c != '\n',
    ensures
        fed(split, seq!['\r', '\n'] + rest) == seq!['\n'] + fed(false, rest),
        fed(split, seq!['\r', c] + rest) == seq!['\n', c] + fed(false, rest),
        fed(split, seq!['\r', '\r'] + rest) == seq!['\n', '\n'] + fed(true, rest),
        fed(false, seq!['\n'] + rest) == seq!['\n'] + fed(false, rest),
        fed(true, seq!['\n'] + rest) == fed(false, rest),
        fed(split, seq![c] + rest) == seq![c] + fed(false, rest),
        fed(split, seq!['\r']) == seq!['\n'],
        fed(split, Seq::empty()) == Seq::<char>::empty(),
        still_split(split, rest.push('\r')),
        !still_split(split, rest.push('\n')),
        !still_split(split, rest.push(c)),
        still_split(split, Seq::empty()) == split,
{
    reveal_with_fuel(fed, 3);
    let crlf = seq!['\r', '\n'] + rest;
    assert(crlf.skip(1) =~= seq!['\n'] + rest);
    assert((seq!['\n'] + rest).skip(1) =~= rest);
    let bare = seq!['\r', c] + rest;
    assert(bare.skip(1) =~= seq![c] + rest);
    assert((seq![c] + rest).skip(1) =~= rest);
    assert(fed(split, bare) =~= seq!['\n', c] + fed(false, rest));
    let twice = seq!['\r', '\r'] + rest;
    assert(twice.skip(1) =~= seq!['\r'] + rest);
    assert((seq!['\r'] + rest).skip(1) =~= rest);
    assert(fed(split, twice) =~= seq!['\n', '\n'] + fed(true, rest));
    assert(seq!['\r'].skip(1) =~= Seq::empty());
    assert(fed(split, seq!['\r']) =~= seq!['\n']);
}

/// A text without a carriage return is left as it is, unless it opens with the
/// other half of a break.
pub proof fn law_what_holds_no_return_is_left(split: bool, text: Seq<char>)
    requires
        !text.contains('\r'),
        split ==> text.len() == 0 || text[0] != '\n',
    ensures
        fed(split, text) == text,
    decreases text.len(),
{
    if text.len() > 0 {
        let rest = text.skip(1);
        assert(text.contains(text[0]));
        assert forall|i: int| 0 <= i < rest.len() implies rest[i] != '\r' by {
            assert(text.contains(text[i + 1]));
        }
        law_what_holds_no_return_is_left(false, rest);
        assert(seq![text[0]] + rest =~= text);
    } else {
        assert(fed(split, text) =~= text);
    }
}

/// A text is cut into lines at its line feeds and nowhere else: one without any
/// is one line, and one with any is what stands in front of the first, and then
/// the lines of what stands behind it.
pub proof fn law_lines_end_at_line_feeds(first: Seq<char>, rest: Seq<char>)
    requires
        !first.contains('\n'),
    ensures
        lines(first) == seq![first],
        lines(first.push('\n') + rest) == seq![first] + lines(rest),
    decreases first.len() + rest.len(),
{
    if first.len() > 0 {
        let less = first.drop_last();
        assert forall|i: int| 0 <= i < less.len() implies less[i] != '\n' by {
            assert(first.contains(first[i]));
        }
        law_lines_end_at_line_feeds(less, Seq::empty());
        assert(first.contains(first.last()));
        assert(less.push(first.last()) =~= first);
        assert(lines(first) =~= seq![first]);
    } else {
        assert(first =~= Seq::empty());
        assert(lines(first) =~= seq![first]);
    }
    let whole = first.push('\n') + rest;
    if rest.len() == 0 {
        assert(whole =~= first.push('\n'));
        assert(whole.drop_last() =~= first);
        assert(seq![first].push(Seq::empty()) =~= seq![first] + lines(rest));
    } else {
        let shorter = rest.drop_last();
        law_lines_end_at_line_feeds(first, shorter);
        lemma_lines_print(shorter);
        assert(whole.drop_last() =~= first.push('\n') + shorter);
        let before = seq![first] + lines(shorter);
        assert(before.last() == lines(shorter).last());
        assert(before.drop_last() =~= seq![first] + lines(shorter).drop_last());
        assert(lines(whole) =~= seq![first] + lines(rest));
    }
}

/// What is printed of a text is the text without its line feeds: two texts print
/// one behind the other, a line feed prints nothing, and any other character
/// itself. Rows one behind the other are likewise what each of them says.
pub proof fn law_everything_but_breaks_is_printed(
    a: Seq<char>,
    b: Seq<char>,
    c: char,
    front: Seq<Seq<char>>,
    back: Seq<Seq<char>>,
)
    requires
        c != '\n',
    ensures
        printed(a + b) == printed(a) + printed(b),
        printed(seq!['\n']) == Seq::<char>::empty(),
        printed(seq![c]) == seq![c],
        joined(front + back) == joined(front) + joined(back),
        joined(seq![a]) == a,
        joined(Seq::empty()) == Seq::<char>::empty(),
    decreases b.len(),
{
    reveal_with_fuel(printed, 2);
    reveal_with_fuel(joined, 2);
    assert(seq!['\n'].drop_last() =~= Seq::empty());
    assert(seq![c].drop_last() =~= Seq::empty());
    assert(printed(seq![c]) =~= seq![c]);
    lemma_joined_concat(front, back);
    assert(seq![a].drop_last() =~= Seq::empty());
    assert(joined(seq![a]) =~= a);
    if b.len() == 0 {
        assert(a + b =~= a);
        assert(printed(a) + printed(b) =~= printed(a));
    } else {
        law_everything_but_breaks_is_printed(a, b.drop_last(), c, front, back);
        assert((a + b).drop_last() =~= a + b.drop_last());
        assert((a + b).last() == b.last());
        assert(printed(a + b) =~= printed(a) + printed(b));
    }
}

/// The rows of several lines are those of each, one line after the other.
pub proof fn law_lines_have_their_own_rows(
    line: Seq<char>,
    front: Seq<Seq<char>>,
    back: Seq<Seq<char>>,
    cols: u16,
)
    ensures
        rows_of(seq![line], cols) == row_texts(line, cols),
        rows_of(front + back, cols) == rows_of(front, cols) + rows_of(back, cols),
        row_texts(line, cols).len() > 0,
{
    reveal_with_fuel(rows_of, 2);
    assert(seq![line].drop_last() =~= Seq::empty());
    assert(rows_of(seq![line], cols) =~= row_texts(line, cols));
    lemma_rows_concat(front, back, cols);
}

/// What a push makes of a document: behind what stands in front of the unfinished
/// line, the document shows the rows of every line there is now, and nothing
/// else; what is unfinished is the last of those lines, and the screen shows all
/// of its rows. A push that carries nothing writes nothing.
pub proof fn law_a_push_shows_every_line(
    before: Unfinished,
    text: Seq<char>,
    head: Seq<Seq<char>>,
    shown: Seq<Seq<char>>,
)
    requires
        before.well_formed(),
        shown.len() == before.painted,
        fed(before.split_crlf, text).len() > 0,
        rows_of(lines(before.tail + fed(before.split_crlf, text)), before.cols).len()
            >= before.painted,
    ensures
        replayed(head + shown, before.owed(text)) == head + rows_of(
            lines(before.tail + fed(before.split_crlf, text)),
            before.cols,
        ),
        before.pushed(text).tail == lines(before.tail + fed(before.split_crlf, text)).last(),
        before.pushed(text).painted == row_texts(before.pushed(text).tail, before.cols).len(),
        before.pushed(text).cols == before.cols,
{
    let rows = rows_of(lines(before.tail + fed(before.split_crlf, text)), before.cols);
    assert((head + shown).take(head.len() as int) =~= head);
    assert(replayed(head + shown, before.owed(text)) =~= head + rows);
}

/// Ending a line leaves it where it is, and the next begins with nothing. A line
/// that is on the screen owes nothing; one that has not begun owes one row.
/// Wrapping it to another width keeps what it says, and the screen then shows its
/// rows at that width, or still none.
pub proof fn law_an_ended_line_stays(before: Unfinished, cols: u16)
    requires
        before.well_formed(),
    ensures
        before.ended().tail.len() == 0,
        before.ended().painted == 0,
        !before.ended().split_crlf,
        before.ended().cols == before.cols,
        before.painted > 0 ==> before.closing().rows.len() == 0 && before.closing().scroll == 0,
        before.painted == 0 ==> before.closing().rows == row_texts(before.tail, before.cols)
            && before.closing().scroll == before.closing().rows.len(),
        before.rewrapped(cols).tail == before.tail,
        before.rewrapped(cols).cols == cols,
        before.rewrapped(cols).split_crlf == before.split_crlf,
        before.painted > 0 ==> before.rewrapped(cols).painted == row_texts(
            before.tail,
            cols,
        ).len(),
        before.painted == 0 ==> before.rewrapped(cols).painted == 0,
{
}

} // verus!
