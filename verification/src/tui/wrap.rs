//! The one soft-wrap: text in, rows out, measured in cells.
//!
//! Two surfaces need the same answer to "where does this text break": the
//! transcript, which turns finished text into document rows, and the composer,
//! which turns typed text into band rows and has to put a caret on one of them.
//! There is one function and both call it.
//!
//! A [`Row`] is a range of the text, not a copy of it. The caller already owns
//! the string; byte offsets are what lets the composer map a cursor into a row
//! ([`cursor_point`]).
//!
//! Three rules:
//!
//! * A word moves whole. A word that does not fit what is left of a row starts
//!   the next one; a word longer than a whole row is the exception, and breaks
//!   at the cluster that would cross the margin.
//! * Spaces hang. The run of spaces that ends a row is measured, so a row's
//!   `width` may be wider than the screen, and is left on that row.
//! * Cells, not bytes and not characters. A wide glyph costs two and never
//!   straddles the margin; control characters cost none, except the tab, which
//!   measures what the painter writes for it ([`TAB_WIDTH`]).

use std::borrow::Cow;

use unicode_segmentation::UnicodeSegmentation;
use unicode_width::UnicodeWidthStr;
use vstd::prelude::*;
use vstd::string::*;
use vstd::utf8::*;

use crate::text;
use crate::tui::pacer;

verus! {

/// How many cells a tab paints: a fixed run, not a tab stop.
pub const TAB_WIDTH: u16 = 4;

// ---------------------------------------------------------------------------
// the clusters of a text
// ---------------------------------------------------------------------------

/// The first extended grapheme cluster of a text, as the `unicode-segmentation`
/// crate cuts it.
pub uninterp spec fn first_cluster(text: Seq<char>) -> Seq<char>;

/// The columns the `unicode-width` crate gives a text.
pub uninterp spec fn columns(text: Seq<char>) -> nat;

/// What a cluster is to the wrap.
#[derive(Debug, Clone, Copy, PartialEq, Eq, Structural)]
pub enum Glyph {
    /// A line break: `"\n"` or `"\r\n"`.
    Break,
    /// A single space.
    Space,
    /// Everything else.
    Cluster,
}

/// One cluster of a text, and the bytes it travels with: `start` is where the
/// escape sequences in front of the cluster begin.
pub struct Piece {
    pub start: nat,
    pub end: nat,
    pub cells: nat,
    pub glyph: Glyph,
}

/// [`Piece`] in machine integers.
#[derive(Debug, Clone, Copy, PartialEq, Eq, Structural)]
pub struct Painted {
    pub start: usize,
    pub end: usize,
    pub cells: usize,
    pub glyph: Glyph,
}

impl View for Painted {
    type V = Piece;

    open spec fn view(&self) -> Piece {
        Piece {
            start: self.start as nat,
            end: self.end as nat,
            cells: self.cells as nat,
            glyph: self.glyph,
        }
    }
}

/// The clusters a sequence of machine clusters stands for.
pub open spec fn views(painted: Seq<Painted>) -> Seq<Piece> {
    painted.map_values(|each: Painted| each@)
}

/// What a cluster is to the wrap.
pub open spec fn glyph_of(cluster: Seq<char>) -> Glyph {
    if cluster == seq!['\n'] || cluster == seq!['\r', '\n'] {
        Glyph::Break
    } else if cluster == seq![' '] {
        Glyph::Space
    } else {
        Glyph::Cluster
    }
}

/// How many cells a cluster paints: a tab its fixed run, a cluster of controls
/// none, and any other what `unicode-width` says.
pub open spec fn cells_of(cluster: Seq<char>) -> nat {
    if cluster == seq!['\t'] {
        TAB_WIDTH as nat
    } else if forall|i: int| 0 <= i < cluster.len() ==> text::is_control(#[trigger] cluster[i]) {
        0
    } else {
        columns(cluster)
    }
}

/// How many bytes the escape sequences at the head of `bytes` take together.
pub open spec fn escapes_len(bytes: Seq<u8>) -> int
    decreases bytes.len(),
{
    let len = pacer::escape_len(bytes);
    if 0 < len <= bytes.len() {
        len + escapes_len(bytes.skip(len))
    } else {
        0
    }
}

/// The clusters of `bytes` from `at` on, with the escape sequences stepped
/// over. A sequence belongs to the cluster behind it; sequences with no cluster
/// behind them belong to none.
pub open spec fn pieces_from(bytes: Seq<u8>, at: int) -> Seq<Piece>
    decreases bytes.len() - at,
{
    let from = at + escapes_len(bytes.skip(at));
    let cluster = first_cluster(decode_utf8(bytes.skip(from)));
    let end = from + encode_utf8(cluster).len();
    if at < 0 || from < at || end <= from || end > bytes.len() {
        Seq::empty()
    } else {
        seq![
            Piece {
                start: at as nat,
                end: end as nat,
                cells: cells_of(cluster),
                glyph: glyph_of(cluster),
            },
        ] + pieces_from(bytes, end)
    }
}

/// The clusters of a text.
pub open spec fn pieces(bytes: Seq<u8>) -> Seq<Piece> {
    pieces_from(bytes, 0)
}

/// Whether clusters follow each other without a gap from the head of a text
/// `len` bytes long, none of them empty.
pub open spec fn tiled(p: Seq<Piece>, len: nat) -> bool {
    &&& forall|i: int| #![trigger p[i]] 0 <= i < p.len() ==> p[i].start == offset(p, i)
    &&& forall|i: int| #![trigger p[i]] 0 <= i < p.len() ==> p[i].start < p[i].end <= len
}

/// Where the cluster `i` begins: at the end of the one before it.
pub open spec fn offset(p: Seq<Piece>, i: int) -> nat {
    if 0 < i <= p.len() {
        p[i - 1].end
    } else {
        0
    }
}

/// The cells of the clusters from `i` up to `j`.
pub open spec fn cells_between(p: Seq<Piece>, i: int, j: int) -> nat
    decreases j - i,
{
    if i >= j {
        0
    } else {
        cells_between(p, i, j - 1) + p[j - 1].cells
    }
}

/// A count of cells as a screen counts them.
pub open spec fn clamp(cells: nat) -> nat {
    if cells > u16::MAX {
        u16::MAX as nat
    } else {
        cells
    }
}

/// How many cells a text paints.
pub open spec fn width_of(bytes: Seq<u8>) -> nat {
    clamp(cells_between(pieces(bytes), 0, pieces(bytes).len() as int))
}

/// Whether every cluster ends on a character boundary of the text.
pub open spec fn on_boundaries(bytes: Seq<u8>, p: Seq<Piece>) -> bool {
    forall|i: int| #![trigger p[i]] 0 <= i < p.len() ==> is_char_boundary(bytes, p[i].end as int)
}

/// Whether every line feed that is not inside an escape sequence is in a
/// cluster that breaks the line.
pub open spec fn breaks_are_clusters(bytes: Seq<u8>, p: Seq<Piece>) -> bool {
    forall|i: int, k: int|
        #![trigger p[i], bytes[k]]
        0 <= i < p.len() && p[i].glyph != Glyph::Break && p[i].start + escapes_len(
            bytes.skip(p[i].start as int),
        ) <= k < p[i].end ==> bytes[k] != 0x0a
}

/// The lesser of two counts.
pub open spec fn lesser(a: int, b: int) -> int {
    if a < b {
        a
    } else {
        b
    }
}

/// What holds of the first cluster of a text: it is the head of the text; a
/// control shares a cluster with nothing, except a carriage return with the line
/// feed behind it; the cluster ends where it does whatever the text is cut off
/// behind; and what a space carries behind it in a cluster is no other space, and
/// is a cluster where the text begins with it.
pub open spec fn heads(cluster: Seq<char>, text: Seq<char>) -> bool {
    &&& 0 < cluster.len() <= text.len()
    &&& cluster == text.take(cluster.len() as int)
    &&& forall|i: int|
        0 <= i < cluster.len() && text::is_control(#[trigger] cluster[i]) ==> cluster.len() == 1
            || cluster == seq!['\r', '\n']
    &&& forall|to: int|
        0 < to <= text.len() ==> #[trigger] first_cluster(text.take(to)) == cluster.take(
            lesser(to, cluster.len() as int),
        )
    &&& forall|i: int, j: int|
        0 <= i < j < cluster.len() && #[trigger] cluster[i] == ' ' ==> #[trigger] cluster[j] != ' '
    &&& forall|from: int, to: int|
        0 < from < cluster.len() && from < to <= text.len() && cluster[from - 1] == ' '
            ==> #[trigger] first_cluster(text.subrange(from, to)) == cluster.subrange(
            from,
            lesser(to, cluster.len() as int),
        )
}

/// Whether the first cluster of a text is what [`first_grapheme`] says it is.
#[verifier::opaque]
pub open spec fn keeps_cluster(text: Seq<char>) -> bool {
    heads(first_cluster(text), text)
}

/// The columns of a part of a text, where there is one.
pub open spec fn columns_of_part(part: Seq<char>) -> nat {
    if part.len() == 0 {
        0
    } else {
        columns(part)
    }
}

/// Whether a space in a text is a column of its own, and parts what is in front
/// of it from what is behind it.
pub open spec fn parted_by_spaces(text: Seq<char>) -> bool {
    forall|k: int|
        0 <= k < text.len() && #[trigger] text[k] == ' ' ==> columns(text) == columns_of_part(
            text.take(k),
        ) + 1 + columns_of_part(text.skip(k + 1))
}

/// Where the cluster of a piece begins, behind the escape sequences in front of
/// it.
pub open spec fn painted_from(bytes: Seq<u8>, piece: Piece) -> int {
    piece.start + escapes_len(bytes.skip(piece.start as int))
}

/// Whether every cluster begins on a character boundary of the text, is what
/// [`first_grapheme`] says it is, and is as wide as [`display_width`] says.
pub open spec fn cuts_are_clean(bytes: Seq<u8>, p: Seq<Piece>) -> bool {
    forall|i: int|
        #![trigger p[i]]
        0 <= i < p.len() ==> is_char_boundary(bytes, painted_from(bytes, p[i])) && is_measured(
            decode_utf8(bytes.skip(painted_from(bytes, p[i]))),
        )
}

/// Whether the first cluster of a text is what it is said to be, in characters
/// and in columns.
pub open spec fn is_measured(text: Seq<char>) -> bool {
    keeps_cluster(text) && spaces_are_columns(first_cluster(text))
}

/// Whether spaces part the columns of a cluster.
#[verifier::opaque]
pub open spec fn spaces_are_columns(cluster: Seq<char>) -> bool {
    parted_by_spaces(cluster)
}

/// The first extended grapheme cluster of `text`:
/// `unicode_segmentation::UnicodeSegmentation::graphemes(true)` and the first
/// item of its iterator. Taken on trust: only an empty text has no cluster; the
/// cluster is a function of the text; and what [`heads`] says of it. The cursor
/// that finds the cluster decides each boundary from the characters in front of
/// it and the one right behind it, so a text cut off further back keeps its
/// cluster. Controls are boundaries on both sides but between a carriage return
/// and a line feed. A space joins nothing to it but the marks behind it and what
/// always takes the next character, so the marks are a cluster without it.
#[verifier::external_body]
fn first_grapheme<'a>(text: &'a str) -> (cluster: Option<&'a str>)
    ensures
        cluster is None <==> text@.len() == 0,
        cluster matches Some(c) ==> c@ == first_cluster(text@) && heads(c@, text@),
{
    text.graphemes(true).next()
}

/// The displayed width of `text` in columns:
/// `unicode_width::UnicodeWidthStr::width`, taken on trust to be a function of
/// the text in which a space is one column and parts what is in front of it from
/// what is behind it: the fold over the characters, from the last to the first,
/// adds one for a space and starts anew.
#[verifier::external_body]
fn display_width(text: &str) -> (width: usize)
    ensures
        width == columns(text@),
        forall|k: int|
            0 <= k < text@.len() && #[trigger] text@[k] == ' ' ==> width == columns_of_part(
                text@.take(k),
            ) + 1 + columns_of_part(text@.skip(k + 1)),
{
    text.width()
}

/// What a cluster is to the wrap.
fn glyph(cluster: &str) -> (glyph: Glyph)
    ensures
        glyph == glyph_of(cluster@),
{
    let length: usize = cluster.unicode_len();
    if length == 1 {
        let only: char = cluster.get_char(0);
        assert(cluster@ =~= seq![only]);
        if only == '\n' {
            return Glyph::Break;
        }
        if only == ' ' {
            return Glyph::Space;
        }
    }
    if length == 2 && cluster.get_char(0) == '\r' && cluster.get_char(1) == '\n' {
        assert(cluster@ =~= seq!['\r', '\n']);
        return Glyph::Break;
    }
    proof {
        assert(seq!['\r', '\n'].len() == 2);
        assert(seq!['\n'].len() == 1 && seq![' '].len() == 1);
        assert(seq!['\n'][0] == '\n' && seq![' '][0] == ' ');
        assert(seq!['\r', '\n'][0] == '\r' && seq!['\r', '\n'][1] == '\n');
    }
    Glyph::Cluster
}

/// How many cells a cluster paints: none when it paints nothing. The tab is the
/// one control with a width, because it is the one control a draft may hold and
/// the painter draws it.
pub fn cluster_cells(cluster: &str) -> (cells: usize)
    ensures
        cells == cells_of(cluster@),
        spaces_are_columns(cluster@),
{
    let length: usize = cluster.unicode_len();
    proof {
        reveal(spaces_are_columns);
    }
    if length == 1 && cluster.get_char(0) == '\t' {
        assert(cluster@ =~= seq!['\t']);
        return TAB_WIDTH as usize;
    }
    proof {
        assert(seq!['\t'].len() == 1 && seq!['\t'][0] == '\t');
    }
    let mut at: usize = 0;
    while at < length
        invariant
            length == cluster@.len(),
            at <= length,
            cluster@ != seq!['\t'],
            forall|i: int| 0 <= i < at ==> text::is_control(#[trigger] cluster@[i]),
        decreases length - at,
    {
        if !text::control(cluster.get_char(at)) {
            assert(!text::is_control(cluster@[at as int]));
            let width: usize = display_width(cluster);
            proof {
                reveal(spaces_are_columns);
            }
            return width;
        }
        at = at + 1;
    }
    0
}

/// A cluster that is not a break holds no line feed.
proof fn lemma_no_feed(c: Seq<char>, k: int)
    requires
        forall|i: int|
            0 <= i < c.len() && text::is_control(#[trigger] c[i]) ==> c.len() == 1 || c == seq![
                '\r',
                '\n',
            ],
        glyph_of(c) != Glyph::Break,
        0 <= k < encode_utf8(c).len(),
    ensures
        encode_utf8(c)[k] != 0x0a,
{
    if encode_utf8(c)[k] == 0x0a {
        let j = text::lemma_ascii_byte_is_char(c, k);
        char_u32_cast(c[j], 0x0a);
        assert(c[j] == '\n');
        if c.len() == 1 {
            assert(c =~= seq!['\n']);
        }
    }
}

/// One more cluster behind those that tile a text.
proof fn lemma_tiled_push(before: Seq<Piece>, piece: Piece, len: nat)
    requires
        tiled(before, len),
        piece.start == offset(before, before.len() as int),
        piece.start < piece.end <= len,
    ensures
        tiled(before.push(piece), len),
{
    let after = before.push(piece);
    assert forall|i: int| #![trigger after[i]] 0 <= i < after.len() implies after[i].start
        == offset(after, i) && after[i].start < after[i].end <= len by {
        assert(offset(after, i) == offset(before, i));
        if i < before.len() {
            assert(after[i] == before[i]);
        }
    }
}

/// One more cluster behind those that end on boundaries.
proof fn lemma_on_boundaries_push(bytes: Seq<u8>, before: Seq<Piece>, piece: Piece)
    requires
        on_boundaries(bytes, before),
        is_char_boundary(bytes, piece.end as int),
    ensures
        on_boundaries(bytes, before.push(piece)),
{
    let after = before.push(piece);
    assert forall|i: int| #![trigger after[i]] 0 <= i < after.len() implies is_char_boundary(
        bytes,
        after[i].end as int,
    ) by {
        if i < before.len() {
            assert(after[i] == before[i]);
        }
    }
}

/// One more cluster whose line feeds, if any, break the line.
proof fn lemma_breaks_push(bytes: Seq<u8>, before: Seq<Piece>, piece: Piece)
    requires
        breaks_are_clusters(bytes, before),
        forall|k: int|
            piece.glyph != Glyph::Break && piece.start + escapes_len(
                bytes.skip(piece.start as int),
            ) <= k < piece.end ==> #[trigger] bytes[k] != 0x0a,
    ensures
        breaks_are_clusters(bytes, before.push(piece)),
{
    let after = before.push(piece);
    assert forall|i: int, k: int|
        #![trigger after[i], bytes[k]]
        0 <= i < after.len() && after[i].glyph != Glyph::Break && after[i].start + escapes_len(
            bytes.skip(after[i].start as int),
        ) <= k < after[i].end implies bytes[k] != 0x0a by {
        if i < before.len() {
            assert(after[i] == before[i]);
        }
    }
}

/// One more cluster that can be cut behind.
proof fn lemma_cuts_push(bytes: Seq<u8>, before: Seq<Piece>, piece: Piece)
    requires
        cuts_are_clean(bytes, before),
        is_char_boundary(bytes, painted_from(bytes, piece)),
        is_measured(decode_utf8(bytes.skip(painted_from(bytes, piece)))),
    ensures
        cuts_are_clean(bytes, before.push(piece)),
{
    let after = before.push(piece);
    assert forall|i: int| #![trigger after[i]] 0 <= i < after.len() implies is_char_boundary(
        bytes,
        painted_from(bytes, after[i]),
    ) && is_measured(decode_utf8(bytes.skip(painted_from(bytes, after[i])))) by {
        if i < before.len() {
            assert(after[i] == before[i]);
        }
    }
}

/// One more cluster behind the escape sequences in front of it.
proof fn lemma_piece_joins(bytes: Seq<u8>, before: Seq<Piece>, c: Seq<char>, start: int, at: int)
    requires
        valid_utf8(bytes),
        0 <= start <= at < bytes.len(),
        start == offset(before, before.len() as int),
        escapes_len(bytes.skip(start)) == at - start,
        c == first_cluster(decode_utf8(bytes.skip(at))),
        0 < encode_utf8(c).len() <= bytes.len() - at,
        encode_utf8(c) == bytes.subrange(at, at + encode_utf8(c).len()),
        is_char_boundary(bytes, at),
        is_char_boundary(bytes, at + encode_utf8(c).len()),
        is_measured(decode_utf8(bytes.skip(at))),
        forall|i: int|
            0 <= i < c.len() && text::is_control(#[trigger] c[i]) ==> c.len() == 1 || c == seq![
                '\r',
                '\n',
            ],
        before + pieces_from(bytes, start) == pieces(bytes),
        tiled(before, bytes.len()),
        on_boundaries(bytes, before),
        breaks_are_clusters(bytes, before),
        cuts_are_clean(bytes, before),
    ensures
        ({
            let end = at + encode_utf8(c).len();
            let after = before.push(
                Piece {
                    start: start as nat,
                    end: end as nat,
                    cells: cells_of(c),
                    glyph: glyph_of(c),
                },
            );
            &&& after + pieces_from(bytes, end) == pieces(bytes)
            &&& tiled(after, bytes.len())
            &&& on_boundaries(bytes, after)
            &&& breaks_are_clusters(bytes, after)
            &&& cuts_are_clean(bytes, after)
        }),
{
    let end = at + encode_utf8(c).len();
    let piece = Piece {
        start: start as nat,
        end: end as nat,
        cells: cells_of(c),
        glyph: glyph_of(c),
    };
    let after = before.push(piece);
    lemma_tiled_push(before, piece, bytes.len());
    lemma_on_boundaries_push(bytes, before, piece);
    assert forall|k: int|
        piece.glyph != Glyph::Break && piece.start + escapes_len(bytes.skip(piece.start as int))
            <= k < piece.end implies #[trigger] bytes[k] != 0x0a by {
        lemma_no_feed(c, k - at);
        assert(bytes[k] == encode_utf8(c)[k - at]);
    }
    lemma_breaks_push(bytes, before, piece);
    lemma_cuts_push(bytes, before, piece);
    assert(pieces_from(bytes, start) =~= seq![piece] + pieces_from(bytes, end));
    assert(after + pieces_from(bytes, end) =~= before + (seq![piece] + pieces_from(bytes, end)));
}

/// The clusters of `text` that paint something, with the escape sequences
/// stepped over. Nothing but escape sequences follows the last of them.
pub fn painting(text: &str) -> (painted: Vec<Painted>)
    ensures
        views(painted@) == pieces(text.spec_bytes()),
        tiled(views(painted@), text.spec_bytes().len()),
        on_boundaries(text.spec_bytes(), views(painted@)),
        breaks_are_clusters(text.spec_bytes(), views(painted@)),
        cuts_are_clean(text.spec_bytes(), views(painted@)),
        ({
            let end = offset(views(painted@), painted@.len() as int) as int;
            end + escapes_len(text.spec_bytes().skip(end)) == text.spec_bytes().len()
        }),
{
    let ghost bytes = text.spec_bytes();
    let total: usize = text.as_bytes().len();
    let mut painted: Vec<Painted> = Vec::new();
    let mut rest: &str = text;
    let mut start: usize = 0;
    let mut at: usize = 0;
    proof {
        encode_utf8_valid_utf8(text@);
        assert(bytes.skip(0) =~= bytes);
        is_char_boundary_start_end_of_seq(bytes);
        assert(views(painted@) + pieces_from(bytes, 0) =~= pieces(bytes));
    }
    while at < total
        invariant
            bytes == text.spec_bytes(),
            valid_utf8(bytes),
            total == bytes.len(),
            start <= at <= total,
            start == offset(views(painted@), painted@.len() as int),
            rest.spec_bytes() == bytes.skip(at as int),
            is_char_boundary(bytes, at as int),
            escapes_len(bytes.skip(start as int)) == at - start + escapes_len(
                bytes.skip(at as int),
            ),
            views(painted@) + pieces_from(bytes, start as int) == pieces(bytes),
            tiled(views(painted@), bytes.len()),
            on_boundaries(bytes, views(painted@)),
            breaks_are_clusters(bytes, views(painted@)),
            cuts_are_clean(bytes, views(painted@)),
        decreases total - at,
    {
        let ghost tail = rest.spec_bytes();
        proof {
            encode_utf8_valid_utf8(rest@);
            pacer::lemma_escape_len(tail);
        }
        if let Some(len) = pacer::escape_at(rest) {
            let (_, after) = rest.split_at(len);
            proof {
                assert(after.spec_bytes() =~= bytes.skip(at + len));
                assert(bytes.skip(at as int).skip(len as int) =~= bytes.skip(at + len));
                text::lemma_boundary_of_rest(bytes, at as int, len as int);
            }
            rest = after;
            at = at + len;
            continue;
        }
        proof {
            if rest@.len() == 0 {
                assert(tail.len() == 0);
            }
        }
        match first_grapheme(rest) {
            None => {
                assert(false);
            },
            Some(cluster) => {
                let ghost c = cluster@;
                let len: usize = cluster.as_bytes().len();
                proof {
                    let others = rest@.skip(c.len() as int);
                    assert(rest@ =~= c + others);
                    text::lemma_encode_concat(c, others);
                    text::lemma_prefix_boundary(c, others);
                    text::lemma_rest(text@, rest@, at as int);
                    assert(keeps_cluster(rest@)) by {
                        reveal(keeps_cluster);
                    }
                    if len == 0 {
                        text::lemma_encode_injective(c, Seq::empty());
                    }
                    assert(escapes_len(tail) == 0);
                    assert(encode_utf8(c) =~= bytes.subrange(at as int, at + len));
                }
                let (_, after) = rest.split_at(len);
                let ghost before = views(painted@);
                painted.push(
                    Painted { start, end: at + len, cells: cluster_cells(cluster), glyph: glyph(cluster) },
                );
                proof {
                    let piece = painted@[painted@.len() - 1]@;
                    assert(views(painted@) =~= before.push(piece));
                    assert(after.spec_bytes() =~= bytes.skip(at + len));
                    text::lemma_boundary_of_rest(bytes, at as int, len as int);
                    lemma_piece_joins(bytes, before, c, start as int, at as int);
                }
                rest = after;
                at = at + len;
                start = at;
            },
        }
    }
    proof {
        assert(escapes_len(bytes.skip(at as int)) == 0);
        assert(pieces_from(bytes, start as int) =~= Seq::empty());
        assert(views(painted@) =~= pieces(bytes));
    }
    painted
}

// ---------------------------------------------------------------------------
// the rows of a text
// ---------------------------------------------------------------------------

/// One visual row: the half-open byte range of the text it shows, and the cells
/// it takes. `width` is what the text measures, which is not always what fits:
/// a row that ends in hanging spaces is wider than the screen on purpose.
#[derive(Debug, Clone, Copy, PartialEq, Eq, Structural)]
pub struct Row {
    pub start: usize,
    pub end: usize,
    pub width: u16,
}

/// [`Row`] in mathematical integers.
pub struct Span {
    pub start: nat,
    pub end: nat,
    pub width: nat,
}

impl View for Row {
    type V = Span;

    open spec fn view(&self) -> Span {
        Span { start: self.start as nat, end: self.end as nat, width: self.width as nat }
    }
}

/// The rows a sequence of machine rows stands for.
pub open spec fn spans(rows: Seq<Row>) -> Seq<Span> {
    rows.map_values(|each: Row| each@)
}

/// Whether the cluster `j` crosses the margin of the row that begins at `i`.
/// Spaces hang and never do; neither does the cluster that begins the row.
pub open spec fn crosses(p: Seq<Piece>, i: int, j: int, cols: nat) -> bool {
    i < j && p[j].glyph == Glyph::Cluster && clamp(cells_between(p, i, j + 1)) > cols
}

/// The first cluster from `j` on that ends the row which begins at `i`: a line
/// break, or a cluster that crosses the margin; past the last cluster if none
/// does.
pub open spec fn stop(p: Seq<Piece>, i: int, j: int, cols: nat) -> int
    decreases p.len() - j,
{
    if j >= p.len() {
        p.len() as int
    } else if p[j].glyph == Glyph::Break || crosses(p, i, j, cols) {
        j
    } else {
        stop(p, i, j + 1, cols)
    }
}

/// Whether a word begins with the cluster `m`: there is a space in front of it.
pub open spec fn opens_word(p: Seq<Piece>, m: int) -> bool {
    p[m].glyph == Glyph::Cluster && p[m - 1].glyph == Glyph::Space
}

/// Where the word that reaches the cluster `j` began on the row that begins at
/// `i`: the last cluster behind a space, or `i` where the row has none.
pub open spec fn word_start(p: Seq<Piece>, i: int, j: int) -> int
    decreases j - i,
{
    if j <= i {
        i
    } else if opens_word(p, j) {
        j
    } else {
        word_start(p, i, j - 1)
    }
}

/// Where the row that begins at `i` ends, when the cluster `j` stops it: behind
/// the line break; or in front of the word that crosses the margin; or, where
/// the row is all one word, in front of the cluster that crosses it.
pub open spec fn row_end(p: Seq<Piece>, i: int, j: int) -> int {
    let word = word_start(p, i, j);
    if p[j].glyph == Glyph::Break {
        j + 1
    } else if word > i {
        word
    } else {
        j
    }
}

/// The rows of a text `len` bytes long from the cluster `i` on. The break that
/// ended a row is on it and is not measured.
pub open spec fn rows_from(p: Seq<Piece>, len: nat, i: int, cols: nat) -> Seq<Span>
    decreases p.len() - i,
{
    let j = stop(p, i, i, cols);
    let end = row_end(p, i, j);
    if i < 0 || j >= p.len() || end <= i || end > p.len() {
        seq![
            Span {
                start: offset(p, i),
                end: len,
                width: clamp(cells_between(p, i, p.len() as int)),
            },
        ]
    } else {
        let measured = if p[j].glyph == Glyph::Break {
            j
        } else {
            end
        };
        seq![
            Span {
                start: offset(p, i),
                end: offset(p, end),
                width: clamp(cells_between(p, i, measured)),
            },
        ] + rows_from(p, len, end, cols)
    }
}

/// A screen has at least one column.
pub open spec fn at_least_one(cols: u16) -> nat {
    if cols == 0 {
        1
    } else {
        cols as nat
    }
}

/// The rows a text occupies on a screen `cols` wide.
pub open spec fn wrapped(bytes: Seq<u8>, cols: u16) -> Seq<Span> {
    rows_from(pieces(bytes), bytes.len(), 0, at_least_one(cols))
}

proof fn lemma_cells_split(p: Seq<Piece>, i: int, k: int, j: int)
    requires
        i <= k <= j,
    ensures
        cells_between(p, i, j) == cells_between(p, i, k) + cells_between(p, k, j),
    decreases j - k,
{
    if k < j {
        lemma_cells_split(p, i, k, j - 1);
    }
}

/// What stops a row: nothing before it does, and it does.
proof fn lemma_stop(p: Seq<Piece>, i: int, j: int, cols: nat)
    requires
        0 <= i <= j <= p.len(),
    ensures
        j <= stop(p, i, j, cols) <= p.len(),
        forall|m: int|
            #![trigger p[m]]
            j <= m < stop(p, i, j, cols) ==> p[m].glyph != Glyph::Break && !crosses(p, i, m, cols),
        stop(p, i, j, cols) < p.len() ==> {
            let k = stop(p, i, j, cols);
            p[k].glyph == Glyph::Break || crosses(p, i, k, cols)
        },
    decreases p.len() - j,
{
    if j < p.len() && p[j].glyph != Glyph::Break && !crosses(p, i, j, cols) {
        lemma_stop(p, i, j + 1, cols);
    }
}

/// What stops a row that nothing before `n` stops, looked for from `n` on.
proof fn lemma_stop_from(p: Seq<Piece>, i: int, j: int, n: int, cols: nat)
    requires
        0 <= i <= j <= n <= stop(p, i, j, cols),
        n <= p.len(),
    ensures
        stop(p, i, n, cols) == stop(p, i, j, cols),
    decreases n - j,
{
    if j < n {
        lemma_stop(p, i, j, cols);
        lemma_stop_from(p, i, j + 1, n, cols);
    }
}

/// Where the word on a row begins, and what lies behind that place.
proof fn lemma_word_start(p: Seq<Piece>, i: int, j: int)
    requires
        0 <= i <= j < p.len(),
    ensures
        i <= word_start(p, i, j) <= j,
        word_start(p, i, j) > i ==> opens_word(p, word_start(p, i, j)),
        forall|m: int| word_start(p, i, j) < m <= j ==> !#[trigger] opens_word(p, m),
    decreases j - i,
{
    if j > i && !opens_word(p, j) {
        lemma_word_start(p, i, j - 1);
    }
}

/// A word that moves down to a row of its own has met nothing there that stops
/// it, up to the cluster that made it move.
proof fn lemma_word_moves(p: Seq<Piece>, i: int, n: int, cols: nat)
    requires
        0 <= i <= n < p.len(),
        n <= stop(p, i, i, cols),
        p[n].glyph == Glyph::Cluster,
    ensures
        ({
            let at = word_start(p, i, n);
            &&& n <= stop(p, at, at, cols)
            &&& word_start(p, at, n) == at
            &&& n > at ==> word_start(p, at, n - 1) == at
            &&& n > at ==> p[n - 1].glyph == Glyph::Cluster
        }),
{
    let at = word_start(p, i, n);
    lemma_word_start(p, i, n);
    lemma_word_start(p, at, n);
    lemma_stop(p, i, i, cols);
    lemma_stop(p, at, at, cols);
    if n > at {
        lemma_word_start(p, at, n - 1);
        assert(!opens_word(p, n));
        assert(p[n - 1].glyph != Glyph::Break);
    }
    let k = stop(p, at, at, cols);
    if k < n && at > i {
        assert(p[k].glyph != Glyph::Break);
        lemma_cells_split(p, i, at, k + 1);
        assert(crosses(p, i, k, cols));
    }
}

/// Rows that are done and those that follow, with one more of them done.
proof fn lemma_row_ends(
    p: Seq<Piece>,
    len: nat,
    i: int,
    cols: nat,
    done: Seq<Span>,
    row: Span,
)
    requires
        0 <= i <= p.len(),
        stop(p, i, i, cols) < p.len(),
        ({
            let j = stop(p, i, i, cols);
            let end = row_end(p, i, j);
            let measured = if p[j].glyph == Glyph::Break {
                j
            } else {
                end
            };
            row == Span {
                start: offset(p, i),
                end: offset(p, end),
                width: clamp(cells_between(p, i, measured)),
            }
        }),
    ensures
        done.push(row) + rows_from(p, len, row_end(p, i, stop(p, i, i, cols)), cols) == done
            + rows_from(p, len, i, cols),
{
    lemma_stop(p, i, i, cols);
    let j = stop(p, i, i, cols);
    lemma_word_start(p, i, j);
    let end = row_end(p, i, j);
    let rest = rows_from(p, len, end, cols);
    assert(rows_from(p, len, i, cols) == seq![row] + rest);
    assert(done.push(row) + rest =~= done + (seq![row] + rest));
}

/// A count of cells as a screen counts them.
fn clamped(cells: usize) -> (clamped: u16)
    ensures
        clamped == clamp(cells as nat),
{
    if cells > u16::MAX as usize {
        u16::MAX
    } else {
        cells as u16
    }
}

/// The row being built while the clusters of a text go by.
struct Building {
    /// The cluster the row begins with, and where that is.
    first: usize,
    start: usize,
    /// What the row has taken so far.
    used: u16,
    /// The cluster the last word began with, when a space has been seen on this
    /// row; what the row took before it, and what the word has taken since.
    word: Option<usize>,
    before: u16,
    moved: u16,
    after_space: bool,
}

impl Building {
    /// What a row that has taken the clusters up to `n` holds.
    spec fn holds(self, p: Seq<Piece>, n: int, cols: nat) -> bool {
        let i = self.first as int;
        &&& 0 <= i <= n <= p.len()
        &&& n <= stop(p, i, i, cols)
        &&& self.start == offset(p, i)
        &&& self.used == clamp(cells_between(p, i, n))
        &&& self.after_space == (n > i && p[n - 1].glyph == Glyph::Space)
        &&& match self.word {
            None => n > i ==> word_start(p, i, n - 1) == i,
            Some(at) => {
                &&& i < at < n
                &&& word_start(p, i, n - 1) == at
                &&& self.before == clamp(cells_between(p, i, at as int))
                &&& self.moved == clamp(cells_between(p, at as int, n))
            },
        }
    }

    /// A row that begins at the cluster `first`.
    fn fresh(first: usize, start: usize) -> (row: Self)
        ensures
            row.first == first,
            row.start == start,
            row.used == 0,
            row.word is None,
            !row.after_space,
    {
        Building { first, start, used: 0, word: None, before: 0, moved: 0, after_space: false }
    }

    /// Takes the cluster `n`, which stays on the row.
    fn take(&mut self, painted: &[Painted], n: usize, cols: u16)
        requires
            n < painted@.len(),
            old(self).holds(views(painted@), n as int, cols as nat),
            painted@[n as int].glyph != Glyph::Break,
            !crosses(views(painted@), old(self).first as int, n as int, cols as nat),
        ensures
            final(self).holds(views(painted@), n + 1, cols as nat),
            final(self).first == old(self).first,
    {
        let ghost p = views(painted@);
        let cells: u16 = clamped(painted[n].cells);
        proof {
            assert(p[n as int] == painted@[n as int]@);
            lemma_stop_from(p, self.first as int, self.first as int, n as int, cols as nat);
            lemma_stop(p, self.first as int, n + 1, cols as nat);
        }
        if painted[n].glyph == Glyph::Space {
            self.after_space = true;
        } else if self.after_space {
            self.after_space = false;
            self.word = Some(n);
            self.before = self.used;
            self.moved = 0;
        }
        self.used = self.used.saturating_add(cells);
        self.moved = self.moved.saturating_add(cells);
        proof {
            let i = self.first as int;
            assert(cells_between(p, i, n + 1) == cells_between(p, i, n as int) + p[n as int].cells);
            assert(n + 1 <= stop(p, i, i, cols as nat));
            assert(self.used == clamp(cells_between(p, i, n + 1)));
            if let Some(at) = self.word {
                assert(cells_between(p, at as int, n + 1) == cells_between(p, at as int, n as int)
                    + p[n as int].cells);
                assert(self.moved == clamp(cells_between(p, at as int, n + 1)));
                assert(word_start(p, i, n as int) == at);
            }
        }
    }

    /// Ends the row behind the line break `n`, and answers the row that begins
    /// there.
    fn break_behind(self, painted: &[Painted], n: usize, len: usize, cols: u16, rows: &mut Vec<Row>) -> (next: Self)
        requires
            tiled(views(painted@), len as nat),
            n < painted@.len(),
            self.holds(views(painted@), n as int, cols as nat),
            painted@[n as int].glyph == Glyph::Break,
        ensures
            next.holds(views(painted@), n + 1, cols as nat),
            spans(final(rows)@) + rows_from(
                views(painted@),
                len as nat,
                next.first as int,
                cols as nat,
            ) == spans(old(rows)@) + rows_from(
                views(painted@),
                len as nat,
                self.first as int,
                cols as nat,
            ),
    {
        let ghost p = views(painted@);
        let ghost done = spans(rows@);
        rows.push(Row { start: self.start, end: painted[n].end, width: self.used });
        proof {
            assert(p[n as int] == painted@[n as int]@);
            lemma_stop_from(p, self.first as int, self.first as int, n as int, cols as nat);
            lemma_stop(p, n + 1, n + 1, cols as nat);
            let row = rows@[rows@.len() - 1]@;
            assert(spans(rows@) =~= done.push(row));
            lemma_row_ends(p, len as nat, self.first as int, cols as nat, done, row);
        }
        Building::fresh(n + 1, painted[n].end)
    }

    /// The row that begins where a cluster `n` that crosses the margin ends this
    /// one, and what is left on this one: the word moves down whole, or the
    /// cluster itself does.
    fn divided(&self, painted: &[Painted], n: usize, len: usize, cols: u16) -> (parts: (Self, u16))
        requires
            tiled(views(painted@), len as nat),
            n < painted@.len(),
            self.holds(views(painted@), n as int, cols as nat),
            crosses(views(painted@), self.first as int, n as int, cols as nat),
        ensures
            parts.0.holds(views(painted@), n as int, cols as nat),
            parts.0.first > self.first,
            parts.0.first == row_end(views(painted@), self.first as int, n as int),
            parts.1 == clamp(
                cells_between(views(painted@), self.first as int, parts.0.first as int),
            ),
    {
        let ghost p = views(painted@);
        let ghost i = self.first as int;
        proof {
            lemma_word_start(p, i, n as int);
            lemma_word_moves(p, i, n as int, cols as nat);
            assert(p[n as int] == painted@[n as int]@);
            assert(p[n as int].start == offset(p, n as int));
        }
        if self.after_space {
            assert(opens_word(p, n as int));
            assert(word_start(p, i, n as int) == n);
            return (Building::fresh(n, painted[n].start), self.used);
        }
        assert(word_start(p, i, n as int) == word_start(p, i, n - 1));
        match self.word {
            None => {
                assert(n <= stop(p, n as int, n as int, cols as nat)) by {
                    lemma_stop(p, n as int, n as int, cols as nat);
                }
                (Building::fresh(n, painted[n].start), self.used)
            },
            Some(at) => {
                assert(p[at as int] == painted@[at as int]@);
                assert(p[at as int].start == offset(p, at as int));
                let mut next: Building = Building::fresh(at, painted[at].start);
                next.used = self.moved;
                (next, self.before)
            },
        }
    }

    /// Ends the row in front of the cluster `n`, which crosses its margin, and
    /// answers the row that begins there.
    fn break_before(self, painted: &[Painted], n: usize, len: usize, cols: u16, rows: &mut Vec<Row>) -> (next: Self)
        requires
            tiled(views(painted@), len as nat),
            n < painted@.len(),
            self.holds(views(painted@), n as int, cols as nat),
            crosses(views(painted@), self.first as int, n as int, cols as nat),
        ensures
            next.holds(views(painted@), n as int, cols as nat),
            next.first > self.first,
            next.first == row_end(views(painted@), self.first as int, n as int),
            spans(final(rows)@) + rows_from(
                views(painted@),
                len as nat,
                next.first as int,
                cols as nat,
            ) == spans(old(rows)@) + rows_from(
                views(painted@),
                len as nat,
                self.first as int,
                cols as nat,
            ),
    {
        let ghost p = views(painted@);
        let ghost i = self.first as int;
        let ghost done = spans(rows@);
        let (next, width) = self.divided(painted, n, len, cols);
        rows.push(Row { start: self.start, end: next.start, width });
        proof {
            lemma_stop_from(p, i, i, n as int, cols as nat);
            let row = rows@[rows@.len() - 1]@;
            assert(spans(rows@) =~= done.push(row));
            lemma_row_ends(p, len as nat, i, cols as nat, done, row);
        }
        next
    }
}

impl Building {
    /// Whether the cluster `n` crosses the margin of the row.
    fn crossed_by(&self, painted: &[Painted], n: usize, cols: u16) -> (yes: bool)
        requires
            n < painted@.len(),
            self.holds(views(painted@), n as int, cols as nat),
        ensures
            yes == crosses(views(painted@), self.first as int, n as int, cols as nat),
    {
        assert(views(painted@)[n as int] == painted@[n as int]@);
        n > self.first && painted[n].glyph == Glyph::Cluster && self.used.saturating_add(
            clamped(painted[n].cells),
        ) > cols
    }

    /// Takes the cluster `n`, ending every row it ends.
    fn step(self, painted: &[Painted], n: usize, len: usize, cols: u16, rows: &mut Vec<Row>) -> (next: Self)
        requires
            tiled(views(painted@), len as nat),
            n < painted@.len(),
            self.holds(views(painted@), n as int, cols as nat),
        ensures
            next.holds(views(painted@), n + 1, cols as nat),
            spans(final(rows)@) + rows_from(
                views(painted@),
                len as nat,
                next.first as int,
                cols as nat,
            ) == spans(old(rows)@) + rows_from(
                views(painted@),
                len as nat,
                self.first as int,
                cols as nat,
            ),
    {
        if painted[n].glyph == Glyph::Break {
            return self.break_behind(painted, n, len, cols, rows);
        }
        let ghost all = spans(rows@) + rows_from(
            views(painted@),
            len as nat,
            self.first as int,
            cols as nat,
        );
        let mut row: Building = self;
        // A word longer than a whole row breaks more than once.
        while row.crossed_by(painted, n, cols)
            invariant
                tiled(views(painted@), len as nat),
                n < painted@.len(),
                row.holds(views(painted@), n as int, cols as nat),
                spans(rows@) + rows_from(
                    views(painted@),
                    len as nat,
                    row.first as int,
                    cols as nat,
                ) == all,
            decreases n - row.first,
        {
            row = row.break_before(painted, n, len, cols, rows);
        }
        row.take(painted, n, cols);
        row
    }
}

/// The rows that clusters occupy on a screen `cols` wide, in order, tiling the
/// `len` bytes of the text they are of.
pub fn wrap_painted(painted: &[Painted], len: usize, cols: u16) -> (rows: Vec<Row>)
    requires
        tiled(views(painted@), len as nat),
    ensures
        spans(rows@) == rows_from(views(painted@), len as nat, 0, at_least_one(cols)),
{
    let ghost p = views(painted@);
    let cols: u16 = if cols == 0 {
        1
    } else {
        cols
    };
    let ghost columns = cols as nat;
    let ghost all = rows_from(p, len as nat, 0, columns);
    let mut rows: Vec<Row> = Vec::new();
    let mut row: Building = Building::fresh(0, 0);
    let mut n: usize = 0;
    proof {
        assert(spans(rows@) + all =~= all);
        lemma_stop(p, 0, 0, columns);
    }
    while n < painted.len()
        invariant
            p == views(painted@),
            tiled(p, len as nat),
            columns == cols,
            row.holds(p, n as int, columns),
            spans(rows@) + rows_from(p, len as nat, row.first as int, columns) == all,
        decreases p.len() - n,
    {
        row = row.step(painted, n, len, cols, &mut rows);
        n = n + 1;
    }
    let ghost done = spans(rows@);
    rows.push(Row { start: row.start, end: len, width: row.used });
    proof {
        lemma_stop_from(p, row.first as int, row.first as int, n as int, columns);
        let last = rows@[rows@.len() - 1]@;
        assert(spans(rows@) =~= done.push(last));
        assert(done.push(last) =~= done + seq![last]);
    }
    rows
}

/// The clusters the rows of a text begin with, from the cluster `i` on.
pub open spec fn firsts(p: Seq<Piece>, i: int, cols: nat) -> Seq<int>
    decreases p.len() - i,
{
    let j = stop(p, i, i, cols);
    let end = row_end(p, i, j);
    if i < 0 || j >= p.len() || end <= i || end > p.len() {
        seq![i]
    } else {
        seq![i] + firsts(p, end, cols)
    }
}

/// What one row that is not the last is, and what it is not.
proof fn lemma_row(p: Seq<Piece>, i: int, cols: nat)
    requires
        0 <= i <= p.len(),
    ensures
        ({
            let j = stop(p, i, i, cols);
            j < p.len() ==> i < row_end(p, i, j) <= p.len()
        }),
{
    lemma_stop(p, i, i, cols);
    let j = stop(p, i, i, cols);
    if j < p.len() {
        lemma_word_start(p, i, j);
    }
}

/// The rows tile the text: there is at least one; the first starts where the
/// text does, the last ends where it ends, each ends where the next one starts,
/// and none but the last is empty. Every row starts with a cluster and the
/// escape sequences in front of it, so no row ends inside a sequence.
pub proof fn law_rows_tile(p: Seq<Piece>, len: nat, i: int, cols: nat)
    requires
        tiled(p, len),
        0 <= i <= p.len(),
    ensures
        ({
            let rows = rows_from(p, len, i, cols);
            let from = firsts(p, i, cols);
            &&& rows.len() > 0
            &&& rows[0].start == offset(p, i)
            &&& rows[rows.len() - 1].end == len
            &&& forall|r: int, next: int|
                #![trigger rows[r], rows[next]]
                0 <= r && next == r + 1 && next < rows.len() ==> rows[r].end == rows[next].start
            &&& forall|r: int|
                0 <= r < rows.len() ==> (#[trigger] rows[r]).start <= rows[r].end <= len
            &&& forall|r: int|
                0 <= r < rows.len() - 1 ==> (#[trigger] rows[r]).start < rows[r].end
            &&& rows.len() == from.len()
            &&& forall|r: int|
                0 <= r < rows.len() ==> i <= #[trigger] from[r] <= p.len() && rows[r].start
                    == offset(p, from[r])
        }),
    decreases p.len() - i,
{
    lemma_stop(p, i, i, cols);
    lemma_row(p, i, cols);
    let j = stop(p, i, i, cols);
    let end = row_end(p, i, j);
    let rows = rows_from(p, len, i, cols);
    let from = firsts(p, i, cols);
    if i > 0 {
        assert(p[i - 1].end <= len);
    }
    if j < p.len() {
        law_rows_tile(p, len, end, cols);
        lemma_offsets_grow(p, len, i, end);
        let rest = rows_from(p, len, end, cols);
        let others = firsts(p, end, cols);
        assert forall|r: int| 0 <= r < rows.len() implies i <= #[trigger] from[r] <= p.len()
            && rows[r].start == offset(p, from[r]) by {
            if r > 0 {
                assert(from[r] == others[r - 1]);
                assert(rows[r] == rest[r - 1]);
            }
        }
        assert forall|r: int, next: int|
            #![trigger rows[r], rows[next]]
            0 <= r && next == r + 1 && next < rows.len() implies rows[r].end == rows[next].start by {
            assert(rows[next] == rest[r]);
            if r > 0 {
                assert(rows[r] == rest[r - 1]);
            }
        }
        assert forall|r: int| 0 <= r < rows.len() - 1 implies (#[trigger] rows[r]).start
            < rows[r].end by {
            if r > 0 {
                assert(rows[r] == rest[r - 1]);
            }
        }
        assert forall|r: int| 0 <= r < rows.len() implies (#[trigger] rows[r]).start
            <= rows[r].end <= len by {
            if r > 0 {
                assert(rows[r] == rest[r - 1]);
            }
        }
        assert(rows[rows.len() - 1] == rest[rest.len() - 1]);
    }
}

#[verifier::rlimit(30)]
proof fn lemma_offsets_grow(p: Seq<Piece>, len: nat, i: int, j: int)
    requires
        tiled(p, len),
        0 <= i < j <= p.len(),
    ensures
        offset(p, i) < offset(p, j) <= len,
    decreases j - i,
{
    assert(p[j - 1].start == offset(p, j - 1));
    if i < j - 1 {
        lemma_offsets_grow(p, len, i, j - 1);
    }
}

/// A cluster never straddles the margin: from the first cluster of a row up to
/// and with any other cluster on it that is not a hanging space, the row takes
/// no more cells than the screen has. (A count past what a screen can count
/// stands for itself.)
pub proof fn law_clusters_fit(p: Seq<Piece>, i: int, cols: nat, r: int, m: int)
    requires
        0 <= i <= p.len(),
        0 <= r < firsts(p, i, cols).len(),
        ({
            let from = firsts(p, i, cols);
            let end = if r + 1 < from.len() {
                from[r + 1]
            } else {
                p.len() as int
            };
            from[r] < m < end
        }),
        p[m].glyph == Glyph::Cluster,
    ensures
        clamp(cells_between(p, firsts(p, i, cols)[r], m + 1)) <= cols,
    decreases p.len() - i,
{
    lemma_stop(p, i, i, cols);
    lemma_row(p, i, cols);
    let j = stop(p, i, i, cols);
    let end = row_end(p, i, j);
    if j < p.len() {
        let others = firsts(p, end, cols);
        if r > 0 {
            assert(firsts(p, i, cols)[r] == others[r - 1]);
            if r + 1 < firsts(p, i, cols).len() {
                assert(firsts(p, i, cols)[r + 1] == others[r]);
            }
            law_clusters_fit(p, end, cols, r - 1, m);
        } else {
            assert(firsts(p, end, cols)[0] == end);
            assert(firsts(p, i, cols)[1] == others[0]);
            lemma_word_start(p, i, j);
            assert(!crosses(p, i, m, cols));
        }
    } else {
        assert(!crosses(p, i, m, cols));
    }
}

/// A word moves whole, and only when it has to. A row that is not the last and
/// does not end in a line break is followed by a cluster and never by a space;
/// what moved down is one word, up to a cluster that would have crossed the
/// margin; and either a space is in front of it, or the row it left is all one
/// word.
pub proof fn law_words_move_whole(p: Seq<Piece>, i: int, cols: nat, r: int) -> (crossing: int)
    requires
        0 <= i <= p.len(),
        0 <= r < firsts(p, i, cols).len() - 1,
        p[firsts(p, i, cols)[r + 1] - 1].glyph != Glyph::Break,
    ensures
        ({
            let first = firsts(p, i, cols)[r];
            let next = firsts(p, i, cols)[r + 1];
            &&& first < next <= crossing < p.len()
            &&& crosses(p, first, crossing, cols)
            &&& forall|m: int| next <= m <= crossing ==> (#[trigger] p[m]).glyph == Glyph::Cluster
            &&& opens_word(p, next) || (next == crossing && forall|m: int|
                first < m <= next ==> !#[trigger] opens_word(p, m))
        }),
    decreases p.len() - i,
{
    lemma_stop(p, i, i, cols);
    lemma_row(p, i, cols);
    let j = stop(p, i, i, cols);
    let end = row_end(p, i, j);
    let others = firsts(p, end, cols);
    assert(firsts(p, i, cols)[r + 1] == others[r]);
    if r > 0 {
        assert(firsts(p, i, cols)[r] == others[r - 1]);
        law_words_move_whole(p, end, cols, r - 1)
    } else {
        assert(others[0] == end);
        if p[j].glyph == Glyph::Break {
            assert(p[end - 1].glyph == Glyph::Break);
        }
        lemma_soft_row(p, i, cols);
        j
    }
}

/// What a row that a cluster crosses leaves behind and what it moves down.
proof fn lemma_soft_row(p: Seq<Piece>, i: int, cols: nat)
    requires
        0 <= i <= p.len(),
        stop(p, i, i, cols) < p.len(),
        p[stop(p, i, i, cols)].glyph != Glyph::Break,
    ensures
        ({
            let j = stop(p, i, i, cols);
            let end = row_end(p, i, j);
            &&& i < end <= j
            &&& crosses(p, i, j, cols)
            &&& forall|m: int| end <= m <= j ==> (#[trigger] p[m]).glyph == Glyph::Cluster
            &&& opens_word(p, end) || (end == j && forall|m: int|
                i < m <= end ==> !#[trigger] opens_word(p, m))
        }),
{
    lemma_stop(p, i, i, cols);
    let j = stop(p, i, i, cols);
    let end = row_end(p, i, j);
    lemma_word_start(p, i, j);
    let word = word_start(p, i, j);
    assert forall|m: int| end <= m <= j implies (#[trigger] p[m]).glyph == Glyph::Cluster by {
        lemma_one_word(p, word, m, j);
    }
}

/// Between where a word began and the cluster that ends it there is no space.
proof fn lemma_one_word(p: Seq<Piece>, word: int, m: int, j: int)
    requires
        0 <= word <= m <= j < p.len(),
        p[j].glyph == Glyph::Cluster,
        m == word ==> p[m].glyph == Glyph::Cluster,
        forall|k: int| word <= k < j ==> (#[trigger] p[k]).glyph != Glyph::Break,
        forall|k: int| word < k <= j ==> !#[trigger] opens_word(p, k),
    ensures
        p[m].glyph == Glyph::Cluster,
    decreases j - m,
{
    if m < j && m > word {
        lemma_one_word(p, word, m + 1, j);
        assert(!opens_word(p, m + 1));
    }
}

/// A line break always ends its row: nothing on the row follows it, and the
/// last row holds none.
pub proof fn law_line_breaks_end_rows(p: Seq<Piece>, i: int, cols: nat, r: int, m: int)
    requires
        0 <= i <= p.len(),
        0 <= r < firsts(p, i, cols).len(),
        firsts(p, i, cols)[r] <= m < p.len(),
        r + 1 < firsts(p, i, cols).len() ==> m < firsts(p, i, cols)[r + 1],
        p[m].glyph == Glyph::Break,
    ensures
        r + 1 < firsts(p, i, cols).len(),
        firsts(p, i, cols)[r + 1] == m + 1,
    decreases p.len() - i,
{
    lemma_stop(p, i, i, cols);
    lemma_row(p, i, cols);
    let j = stop(p, i, i, cols);
    let end = row_end(p, i, j);
    if j < p.len() {
        let others = firsts(p, end, cols);
        assert(firsts(p, i, cols) =~= seq![i] + others);
        if r > 0 {
            law_line_breaks_end_rows(p, end, cols, r - 1, m);
        } else {
            assert(others[0] == end);
            lemma_word_start(p, i, j);
        }
    }
}

/// An escape sequence is free whole: a text that is nothing but sequences paints
/// no cells.
pub proof fn law_escapes_are_free(bytes: Seq<u8>)
    requires
        escapes_len(bytes) == bytes.len(),
    ensures
        pieces(bytes).len() == 0,
        width_of(bytes) == 0,
{
    assert(bytes.skip(0) =~= bytes);
}

/// The sequences at the head of a text stay what they are when it is cut off
/// behind them and at least one byte more.
proof fn lemma_escapes_cut(bytes: Seq<u8>, kept: int)
    requires
        escapes_len(bytes) < kept <= bytes.len(),
    ensures
        escapes_len(bytes.take(kept)) == escapes_len(bytes),
        0 <= escapes_len(bytes),
    decreases bytes.len(),
{
    let cut = bytes.take(kept);
    let len = pacer::escape_len(bytes);
    pacer::lemma_escape_within(bytes);
    lemma_escapes_within(bytes);
    if len > 0 {
        let rest = bytes.skip(len);
        lemma_escapes_within(rest);
        pacer::lemma_escape_within(rest);
        if bytes[len] == pacer::ESC {
            assert(rest[0] == pacer::ESC);
            lemma_escapes_within(rest.skip(pacer::escape_len(rest)));
        }
        pacer::lemma_escape_cut(bytes, kept);
        lemma_escapes_cut(rest, kept - len);
        assert(cut.skip(len) =~= rest.take(kept - len));
    } else {
        assert(cut[0] == bytes[0]);
        pacer::lemma_escape_within(cut);
    }
}

proof fn lemma_escapes_within(bytes: Seq<u8>)
    ensures
        0 <= escapes_len(bytes) <= bytes.len(),
    decreases bytes.len(),
{
    let len = pacer::escape_len(bytes);
    if 0 < len <= bytes.len() {
        lemma_escapes_within(bytes.skip(len));
    }
}

/// What is left of the clusters of a text from one of them on.
proof fn lemma_pieces_at(bytes: Seq<u8>, m: int)
    requires
        0 <= m <= pieces(bytes).len(),
    ensures
        pieces_from(bytes, offset(pieces(bytes), m) as int) == pieces(bytes).skip(m),
    decreases m,
{
    let p = pieces(bytes);
    if m == 0 {
        assert(p.skip(0) =~= p);
    } else {
        lemma_pieces_at(bytes, m - 1);
        let rest = pieces_from(bytes, offset(p, m - 1) as int);
        assert(rest[0] == p[m - 1]);
        assert(rest.skip(1) =~= pieces_from(bytes, p[m - 1].end as int));
        assert(rest.skip(1) =~= p.skip(m));
    }
}

/// A line break paints nothing.
proof fn lemma_breaks_are_free(bytes: Seq<u8>, m: int)
    requires
        0 <= m < pieces(bytes).len(),
        pieces(bytes)[m].glyph == Glyph::Break,
    ensures
        pieces(bytes)[m].cells == 0,
{
    lemma_piece_at(bytes, m);
    let cluster = first_cluster(
        decode_utf8(bytes.skip(painted_from(bytes, pieces(bytes)[m]))),
    );
    assert(cluster == seq!['\n'] || cluster == seq!['\r', '\n']);
    assert(cluster[0] != '\t');
    assert(cells_of(cluster) == 0);
}

/// The clusters from `i` up to `j`, as those of a text that begins `by` bytes
/// further on.
spec fn shifted(p: Seq<Piece>, i: int, j: int, by: nat) -> Seq<Piece> {
    Seq::new(
        (j - i) as nat,
        |k: int|
            Piece {
                start: (p[i + k].start - by) as nat,
                end: (p[i + k].end - by) as nat,
                ..p[i + k]
            },
    )
}

/// Whether a text whose clusters are `p` may be cut at `to`, behind the cluster
/// `j`: there, or at its very end, where nothing but sequences is left.
spec fn cut_behind(bytes: Seq<u8>, p: Seq<Piece>, j: int, to: int) -> bool {
    let end = offset(p, j) as int;
    ||| to == end
    ||| j == p.len() && to == bytes.len() && end + escapes_len(bytes.skip(end)) == bytes.len()
}

/// The characters of a text from one boundary up to another are the first of
/// those from the one on.
proof fn lemma_decode_cut(bytes: Seq<u8>, from: int, to: int)
    requires
        valid_utf8(bytes),
        0 <= from <= to <= bytes.len(),
        is_char_boundary(bytes, from),
        is_char_boundary(bytes, to),
    ensures
        ({
            let part = decode_utf8(bytes.subrange(from, to));
            let rest = decode_utf8(bytes.skip(from));
            &&& part.len() <= rest.len()
            &&& part == rest.take(part.len() as int)
            &&& encode_utf8(part) == bytes.subrange(from, to)
        }),
{
    let tail = bytes.skip(from);
    assert(tail =~= bytes.subrange(from, bytes.len() as int));
    valid_utf8_split(bytes, from);
    if to == bytes.len() {
        is_char_boundary_start_end_of_seq(tail);
    } else {
        is_char_boundary_iff_not_is_continuation_byte(bytes, to);
        is_char_boundary_iff_not_is_continuation_byte(tail, to - from);
        assert(tail[to - from] == bytes[to]);
    }
    valid_utf8_split(tail, to - from);
    decode_utf8_split(tail, to - from);
    assert(tail.subrange(0, to - from) =~= bytes.subrange(from, to));
    let part = decode_utf8(bytes.subrange(from, to));
    assert(part =~= decode_utf8(tail).take(part.len() as int));
    decode_utf8_encode_utf8(bytes.subrange(from, to));
}

/// The first cluster of what is left of a text is that of a part of it, where
/// the part reaches behind the cluster.
proof fn lemma_cluster_cut(bytes: Seq<u8>, from: int, to: int)
    requires
        valid_utf8(bytes),
        0 <= from <= to <= bytes.len(),
        is_char_boundary(bytes, from),
        is_char_boundary(bytes, to),
        keeps_cluster(decode_utf8(bytes.skip(from))),
        from + encode_utf8(first_cluster(decode_utf8(bytes.skip(from)))).len() <= to,
    ensures
        first_cluster(decode_utf8(bytes.subrange(from, to))) == first_cluster(
            decode_utf8(bytes.skip(from)),
        ),
{
    let rest = decode_utf8(bytes.skip(from));
    let part = decode_utf8(bytes.subrange(from, to));
    let cluster = first_cluster(rest);
    reveal(keeps_cluster);
    lemma_decode_cut(bytes, from, to);
    assert(cluster.take(cluster.len() as int) =~= cluster);
    if part.len() < cluster.len() {
        let others = cluster.skip(part.len() as int);
        assert(cluster =~= part + others);
        text::lemma_encode_concat(part, others);
        if encode_utf8(others).len() == 0 {
            text::lemma_encode_injective(others, Seq::empty());
        }
    } else if part.len() > 0 {
        assert(first_cluster(rest.take(part.len() as int)) == cluster.take(
            lesser(part.len() as int, cluster.len() as int),
        ));
    }
}

/// What is known of the cluster `m` of a text.
proof fn lemma_piece_at(bytes: Seq<u8>, m: int)
    requires
        0 <= m < pieces(bytes).len(),
    ensures
        ({
            let piece = pieces(bytes)[m];
            let from = painted_from(bytes, piece);
            let cluster = first_cluster(decode_utf8(bytes.skip(from)));
            &&& piece.start == offset(pieces(bytes), m)
            &&& piece.start <= from < piece.end <= bytes.len()
            &&& piece.end == from + encode_utf8(cluster).len()
            &&& piece.cells == cells_of(cluster)
            &&& piece.glyph == glyph_of(cluster)
        }),
{
    lemma_pieces_at(bytes, m);
    assert(pieces(bytes).skip(m)[0] == pieces(bytes)[m]);
}

/// Whether the clusters of a text are what [`painting`] says they are.
#[verifier::opaque]
spec fn is_painted(bytes: Seq<u8>) -> bool {
    let p = pieces(bytes);
    &&& valid_utf8(bytes)
    &&& tiled(p, bytes.len())
    &&& on_boundaries(bytes, p)
    &&& cuts_are_clean(bytes, p)
    &&& cut_behind(bytes, p, p.len() as int, bytes.len() as int)
}

/// What is known of one cluster of a painted text.
proof fn lemma_painted_at(bytes: Seq<u8>, m: int)
    requires
        is_painted(bytes),
        0 <= m < pieces(bytes).len(),
    ensures
        ({
            let piece = pieces(bytes)[m];
            let from = painted_from(bytes, piece);
            &&& valid_utf8(bytes)
            &&& is_char_boundary(bytes, from)
            &&& is_char_boundary(bytes, piece.end as int)
            &&& is_measured(decode_utf8(bytes.skip(from)))
        }),
{
    reveal(is_painted);
}

/// The clusters of a painted text follow each other within it.
proof fn lemma_painted_offsets(bytes: Seq<u8>, i: int, j: int)
    requires
        is_painted(bytes),
        0 <= i <= j <= pieces(bytes).len(),
    ensures
        offset(pieces(bytes), i) <= offset(pieces(bytes), j) <= bytes.len(),
{
    reveal(is_painted);
    let p = pieces(bytes);
    if i < j {
        lemma_offsets_grow(p, bytes.len(), i, j);
    } else if j > 0 {
        assert(p[j - 1].end <= bytes.len());
    }
}

/// The first cluster of a part of a text that begins `start` bytes in, from where
/// a cluster of the text begins, is that cluster.
proof fn lemma_part_piece(bytes: Seq<u8>, start: int, m: int, to: int)
    requires
        is_painted(bytes),
        0 <= m < pieces(bytes).len(),
        0 <= start <= pieces(bytes)[m].start,
        pieces(bytes)[m].end <= to <= bytes.len(),
        is_char_boundary(bytes, to),
    ensures
        ({
            let piece = pieces(bytes)[m];
            let part = bytes.subrange(start, to);
            pieces_from(part, piece.start - start) == seq![
                Piece {
                    start: (piece.start - start) as nat,
                    end: (piece.end - start) as nat,
                    ..piece
                },
            ] + pieces_from(part, piece.end - start)
        }),
{
    let piece = pieces(bytes)[m];
    let at = piece.start as int;
    let from = painted_from(bytes, piece);
    let part = bytes.subrange(start, to);
    lemma_piece_at(bytes, m);
    lemma_painted_at(bytes, m);
    assert(part.skip(at - start) =~= bytes.skip(at).take(to - at));
    lemma_escapes_cut(bytes.skip(at), to - at);
    assert(part.skip(from - start) =~= bytes.subrange(from, to));
    lemma_cluster_cut(bytes, from, to);
}

/// Behind the last cluster of a part there is none.
proof fn lemma_part_ends(bytes: Seq<u8>, start: int, j: int, to: int)
    requires
        0 <= j <= pieces(bytes).len(),
        0 <= start <= offset(pieces(bytes), j) <= to <= bytes.len(),
        cut_behind(bytes, pieces(bytes), j, to),
    ensures
        pieces_from(bytes.subrange(start, to), offset(pieces(bytes), j) - start) == Seq::<
            Piece,
        >::empty(),
{
    let end = offset(pieces(bytes), j) as int;
    let part = bytes.subrange(start, to);
    let rest = part.skip(end - start);
    lemma_escapes_within(rest);
    if to == end {
        assert(rest.len() == 0);
    } else {
        assert(rest =~= bytes.skip(end));
    }
}

/// One cluster of a part of a text, or none behind the last.
proof fn lemma_part_step(bytes: Seq<u8>, i: int, m: int, j: int, to: int)
    requires
        is_painted(bytes),
        0 <= i <= m <= j <= pieces(bytes).len(),
        cut_behind(bytes, pieces(bytes), j, to),
    ensures
        ({
            let p = pieces(bytes);
            let start = offset(p, i);
            let part = bytes.subrange(start as int, to);
            let left = pieces_from(part, offset(p, m) - start);
            &&& m == j ==> left == Seq::<Piece>::empty()
            &&& m < j ==> left == seq![
                Piece {
                    start: (p[m].start - start) as nat,
                    end: (p[m].end - start) as nat,
                    ..p[m]
                },
            ] + pieces_from(part, offset(p, m + 1) - start)
        }),
{
    let p = pieces(bytes);
    let start = offset(p, i) as int;
    lemma_painted_offsets(bytes, i, m);
    lemma_painted_offsets(bytes, m, j);
    if m == j {
        lemma_part_ends(bytes, start, j, to);
    } else {
        lemma_piece_at(bytes, m);
        lemma_painted_offsets(bytes, m + 1, j);
        lemma_painted_at(bytes, j - 1);
        is_char_boundary_start_end_of_seq(bytes);
        lemma_part_piece(bytes, start, m, to);
    }
}

/// The clusters of a part of a text that begins with a cluster and ends behind
/// one are those of the text.
proof fn lemma_part_pieces(bytes: Seq<u8>, i: int, m: int, j: int, to: int)
    requires
        is_painted(bytes),
        0 <= i <= m <= j <= pieces(bytes).len(),
        cut_behind(bytes, pieces(bytes), j, to),
    ensures
        ({
            let p = pieces(bytes);
            let start = offset(p, i);
            pieces_from(bytes.subrange(start as int, to), offset(p, m) - start) == shifted(
                p,
                m,
                j,
                start,
            )
        }),
    decreases j - m,
{
    let p = pieces(bytes);
    let start = offset(p, i);
    lemma_part_step(bytes, i, m, j, to);
    if m == j {
        assert(shifted(p, m, j, start) =~= Seq::empty());
    } else {
        lemma_part_pieces(bytes, i, m + 1, j, to);
        lemma_shifted_first(p, m, j, start);
    }
}

proof fn lemma_shifted_first(p: Seq<Piece>, m: int, j: int, by: nat)
    requires
        0 <= m < j <= p.len(),
    ensures
        seq![
            Piece {
                start: (p[m].start - by) as nat,
                end: (p[m].end - by) as nat,
                ..p[m]
            },
        ] + shifted(p, m + 1, j, by) == shifted(p, m, j, by),
{
    let first = Piece {
        start: (p[m].start - by) as nat,
        end: (p[m].end - by) as nat,
        ..p[m]
    };
    assert(seq![first] + shifted(p, m + 1, j, by) =~= shifted(p, m, j, by));
}

proof fn lemma_shifted_cells(p: Seq<Piece>, i: int, j: int, by: nat, k: int)
    requires
        0 <= i,
        0 <= k <= j - i,
    ensures
        cells_between(shifted(p, i, j, by), 0, k) == cells_between(p, i, i + k),
    decreases k,
{
    if k > 0 {
        lemma_shifted_cells(p, i, j, by, k - 1);
        assert(shifted(p, i, j, by)[k - 1].cells == p[i + k - 1].cells);
    }
}

/// A part of a text that begins with a cluster and ends behind one is as wide as
/// the clusters it holds.
proof fn lemma_part_width(bytes: Seq<u8>, i: int, j: int, to: int)
    requires
        is_painted(bytes),
        0 <= i <= j <= pieces(bytes).len(),
        cut_behind(bytes, pieces(bytes), j, to),
    ensures
        width_of(bytes.subrange(offset(pieces(bytes), i) as int, to)) == clamp(
            cells_between(pieces(bytes), i, j),
        ),
{
    let p = pieces(bytes);
    lemma_part_pieces(bytes, i, i, j, to);
    lemma_shifted_cells(p, i, j, offset(p, i), j - i);
}

/// The head of a text that ends behind a cluster is as wide as the clusters it
/// holds, where the clusters are what [`painting`] says they are.
pub proof fn lemma_head_width(bytes: Seq<u8>, j: int)
    requires
        valid_utf8(bytes),
        tiled(pieces(bytes), bytes.len()),
        on_boundaries(bytes, pieces(bytes)),
        cuts_are_clean(bytes, pieces(bytes)),
        ({
            let end = offset(pieces(bytes), pieces(bytes).len() as int) as int;
            end + escapes_len(bytes.skip(end)) == bytes.len()
        }),
        0 <= j <= pieces(bytes).len(),
    ensures
        width_of(bytes.subrange(0, offset(pieces(bytes), j) as int)) == clamp(
            cells_between(pieces(bytes), 0, j),
        ),
{
    assert(is_painted(bytes)) by {
        reveal(is_painted);
    }
    lemma_part_width(bytes, 0, j, offset(pieces(bytes), j) as int);
}

/// A row measures its clusters, the line break among them, which paints nothing.
proof fn lemma_row_widths(p: Seq<Piece>, len: nat, i: int, cols: nat, r: int)
    requires
        0 <= i <= p.len(),
        forall|m: int| 0 <= m < p.len() && (#[trigger] p[m]).glyph == Glyph::Break ==> p[m].cells
            == 0,
        0 <= r < rows_from(p, len, i, cols).len(),
    ensures
        ({
            let rows = rows_from(p, len, i, cols);
            let from = firsts(p, i, cols);
            let next = if r + 1 < rows.len() {
                from[r + 1]
            } else {
                p.len() as int
            };
            &&& rows.len() == from.len()
            &&& rows[r].start == offset(p, from[r])
            &&& i <= from[r] <= next <= p.len()
            &&& rows[r].end == (if r + 1 < rows.len() {
                offset(p, next)
            } else {
                len
            })
            &&& rows[r].width == clamp(cells_between(p, from[r], next))
        }),
    decreases p.len() - i,
{
    let j = stop(p, i, i, cols);
    let end = row_end(p, i, j);
    lemma_stop(p, i, i, cols);
    lemma_row(p, i, cols);
    if j < p.len() {
        let rest = rows_from(p, len, end, cols);
        let others = firsts(p, end, cols);
        let first = rows_from(p, len, i, cols)[0];
        assert(rows_from(p, len, i, cols) == seq![first] + rest);
        assert(firsts(p, i, cols) == seq![i] + others);
        if r == 0 {
            lemma_row_widths(p, len, end, cols, 0);
            assert(others[0] == end);
            if p[j].glyph == Glyph::Break {
                assert(cells_between(p, i, j + 1) == cells_between(p, i, j) + p[j].cells);
            }
        } else {
            lemma_row_widths(p, len, end, cols, r - 1);
        }
    }
}

// ---------------------------------------------------------------------------
// what a tab measures
// ---------------------------------------------------------------------------

/// Whether a character is a space or a tab.
pub open spec fn is_blank(c: char) -> bool {
    c == ' ' || c == '\t'
}

/// How many cells a blank paints.
pub open spec fn blank_cells(c: char) -> nat {
    if c == '\t' {
        TAB_WIDTH as nat
    } else {
        1
    }
}

/// Where the first blank of a text is, or the end of the text.
pub open spec fn next_blank(text: Seq<char>) -> int
    decreases text.len(),
{
    if text.len() == 0 || is_blank(text[0]) {
        0
    } else {
        1 + next_blank(text.skip(1))
    }
}

/// The cells of the clusters of a text without escape sequences.
pub open spec fn cluster_sum(text: Seq<char>) -> nat
    decreases text.len(),
{
    let cluster = first_cluster(text);
    if text.len() == 0 || cluster.len() == 0 || cluster.len() > text.len() {
        0
    } else {
        cells_of(cluster) + cluster_sum(text.skip(cluster.len() as int))
    }
}

/// The cells of a text without escape sequences, taken apart at its blanks: those
/// of the blanks, and those of what is between them.
pub open spec fn parted_cells(text: Seq<char>) -> nat
    decreases text.len(),
{
    let at = next_blank(text);
    if at < 0 || at >= text.len() {
        cluster_sum(text)
    } else {
        cluster_sum(text.take(at)) + blank_cells(text[at]) + parted_cells(text.skip(at + 1))
    }
}

proof fn lemma_next_blank(text: Seq<char>)
    ensures
        0 <= next_blank(text) <= text.len(),
        forall|i: int| 0 <= i < next_blank(text) ==> !is_blank(#[trigger] text[i]),
        next_blank(text) < text.len() ==> is_blank(text[next_blank(text)]),
    decreases text.len(),
{
    if text.len() > 0 && !is_blank(text[0]) {
        let rest = text.skip(1);
        lemma_next_blank(rest);
        assert forall|i: int| 0 <= i < next_blank(text) implies !is_blank(#[trigger] text[i]) by {
            if i > 0 {
                assert(rest[i - 1] == text[i]);
            }
        }
        if next_blank(text) < text.len() {
            assert(rest[next_blank(rest)] == text[next_blank(text)]);
        }
    }
}

/// The first blank is where one is and none in front of it.
proof fn lemma_next_blank_is(text: Seq<char>, at: int)
    requires
        0 <= at <= text.len(),
        forall|i: int| 0 <= i < at ==> !is_blank(#[trigger] text[i]),
        at < text.len() ==> is_blank(text[at]),
    ensures
        next_blank(text) == at,
{
    lemma_next_blank(text);
    if next_blank(text) < at {
        assert(!is_blank(text[next_blank(text)]));
    }
}

/// A cluster without a blank at the head of a text adds its cells to those of the
/// rest.
proof fn lemma_parted_head(text: Seq<char>, cluster: Seq<char>)
    requires
        0 < cluster.len() <= text.len(),
        cluster == text.take(cluster.len() as int),
        forall|i: int| 0 <= i < cluster.len() ==> !is_blank(#[trigger] cluster[i]),
        forall|to: int|
            cluster.len() <= to <= text.len() ==> #[trigger] first_cluster(text.take(to))
                == cluster,
    ensures
        parted_cells(text) == cells_of(cluster) + parted_cells(text.skip(cluster.len() as int)),
{
    let len = cluster.len() as int;
    let rest = text.skip(len);
    let at = next_blank(text);
    lemma_next_blank(text);
    if at < len {
        assert(cluster[at] == text[at]);
    }
    assert forall|i: int| 0 <= i < at - len implies !is_blank(#[trigger] rest[i]) by {
        assert(rest[i] == text[len + i]);
    }
    if at < text.len() {
        assert(rest[at - len] == text[at]);
    }
    lemma_next_blank_is(rest, at - len);
    let stretch = text.take(at);
    assert(first_cluster(stretch) == cluster);
    assert(stretch.skip(len) =~= rest.take(at - len));
    if at < text.len() {
        assert(rest.skip(at - len + 1) =~= text.skip(at + 1));
    } else {
        assert(stretch =~= text);
        assert(rest.take(at - len) =~= rest);
    }
}

/// A control is no part of a cluster with a space in it.
proof fn lemma_no_control(cluster: Seq<char>, text: Seq<char>, at: int, part: Seq<char>)
    requires
        heads(cluster, text),
        0 <= at < cluster.len(),
        cluster[at] == ' ',
        part.len() > 0,
        part == cluster.take(at) || part == cluster.skip(at + 1),
    ensures
        cells_of(part) == columns(part),
{
    if part == cluster.take(at) {
        assert(part[0] == cluster[0]);
    } else {
        assert(part[0] == cluster[at + 1]);
    }
    if text::is_control(part[0]) {
        assert(cluster == seq!['\r', '\n']);
    }
}

/// The first cluster of a text adds its cells to those of the rest, also where
/// there is a blank in it.
proof fn lemma_parted_step(text: Seq<char>)
    requires
        is_measured(text),
    ensures
        ({
            let cluster = first_cluster(text);
            &&& 0 < cluster.len() <= text.len()
            &&& parted_cells(text) == cells_of(cluster) + parted_cells(
                text.skip(cluster.len() as int),
            )
        }),
{
    reveal(keeps_cluster);
    reveal(spaces_are_columns);
    let cluster = first_cluster(text);
    let len = cluster.len() as int;
    let at = next_blank(cluster);
    lemma_next_blank(cluster);
    if at >= len {
        assert forall|to: int| len <= to <= text.len() implies #[trigger] first_cluster(
            text.take(to),
        ) == cluster by {
            assert(cluster.take(len) =~= cluster);
        }
        lemma_parted_head(text, cluster);
    } else {
        assert(cluster[at] == text[at]);
        assert forall|i: int| 0 <= i < at implies !is_blank(#[trigger] text[i]) by {
            assert(cluster[i] == text[i]);
        }
        lemma_next_blank_is(text, at);
        if cluster[at] == '\t' {
            assert(cluster != seq!['\r', '\n']) by {
                assert(seq!['\r', '\n'][0] == '\r' && seq!['\r', '\n'][1] == '\n');
            }
            assert(cluster =~= seq!['\t']);
            assert(text.take(0) =~= Seq::empty());
        } else {
            lemma_parted_space(text, cluster, at);
        }
    }
}

/// The same for a cluster with a space in it: the space is a cell, what is in
/// front of it belongs to what is in front of the cluster, and what is behind it
/// to what is behind.
proof fn lemma_parted_space(text: Seq<char>, cluster: Seq<char>, at: int)
    requires
        heads(cluster, text),
        parted_by_spaces(cluster),
        0 <= at < cluster.len(),
        cluster[at] == ' ',
        next_blank(text) == at,
    ensures
        parted_cells(text) == cells_of(cluster) + parted_cells(text.skip(cluster.len() as int)),
{
    let len = cluster.len() as int;
    let before = cluster.take(at);
    let behind = cluster.skip(at + 1);
    let rest = text.skip(at + 1);
    assert(text[at] == cluster[at]);
    assert(cluster != seq!['\t']) by {
        assert(seq!['\t'].len() == 1 && seq!['\t'][0] == '\t');
    }
    assert(!text::is_control(cluster[at]));
    assert(cells_of(cluster) == columns_of_part(before) + 1 + columns_of_part(behind));
    assert(cluster_sum(text.take(at)) == columns_of_part(before)) by {
        let stretch = text.take(at);
        if at > 0 {
            assert(first_cluster(stretch) == cluster.take(lesser(at, len)));
            assert(stretch =~= before);
            assert(stretch.skip(at) =~= Seq::empty());
            assert(cluster_sum(Seq::empty()) == 0);
            lemma_no_control(cluster, text, at, before);
        }
    }
    if behind.len() == 0 {
        assert(rest =~= text.skip(len));
    } else {
        assert(behind =~= rest.take(behind.len() as int));
        assert forall|i: int| 0 <= i < behind.len() implies !is_blank(#[trigger] behind[i]) by {
            assert(behind[i] == cluster[at + 1 + i]);
            if behind[i] == '\t' {
                assert(cluster == seq!['\r', '\n']);
                assert(cluster[at] == '\r' || cluster[at] == '\n');
            }
        }
        assert forall|to: int|
            behind.len() <= to <= rest.len() implies #[trigger] first_cluster(rest.take(to))
            == behind by {
            assert(rest.take(to) =~= text.subrange(at + 1, at + 1 + to));
            assert(cluster[at + 1 - 1] == ' ');
            assert(cluster.subrange(at + 1, lesser(at + 1 + to, len)) =~= behind);
        }
        lemma_parted_head(rest, behind);
        lemma_no_control(cluster, text, at, behind);
        assert(rest.skip(behind.len() as int) =~= text.skip(len));
    }
}

/// A text without an escape character has no sequence anywhere.
proof fn lemma_no_escapes(text: Seq<char>, at: int)
    requires
        !text.contains('\u{1b}'),
        0 <= at <= encode_utf8(text).len(),
    ensures
        escapes_len(encode_utf8(text).skip(at)) == 0,
{
    let bytes = encode_utf8(text);
    let rest = bytes.skip(at);
    if rest.len() > 0 && rest[0] == pacer::ESC {
        assert(bytes[at] == pacer::ESC);
        let i = text::lemma_ascii_byte_is_char(text, at);
        char_u32_cast(text[i], 0x1b);
        assert(text[i] == '\u{1b}');
    }
}

/// The clusters of a text without escape sequences add up to its parts.
proof fn lemma_cells_are_parted(text: Seq<char>, m: int)
    requires
        !text.contains('\u{1b}'),
        is_painted(encode_utf8(text)),
        0 <= m <= pieces(encode_utf8(text)).len(),
    ensures
        ({
            let bytes = encode_utf8(text);
            let p = pieces(bytes);
            cells_between(p, m, p.len() as int) == parted_cells(
                decode_utf8(bytes.skip(offset(p, m) as int)),
            )
        }),
    decreases pieces(encode_utf8(text)).len() - m,
{
    let bytes = encode_utf8(text);
    let p = pieces(bytes);
    let at = offset(p, m) as int;
    if m == p.len() {
        lemma_painted_end(text);
        assert(bytes.skip(at) =~= Seq::empty());
        assert(decode_utf8(bytes.skip(at)) =~= Seq::empty());
    } else {
        lemma_cells_are_parted(text, m + 1);
        lemma_painted_cluster(text, m);
        lemma_parted_step(decode_utf8(bytes.skip(at)));
        lemma_cells_split(p, m, m + 1, p.len() as int);
        assert(cells_between(p, m, m + 1) == cells_between(p, m, m) + p[m].cells);
    }
}

/// The last cluster of a text without escape sequences ends where the text does.
proof fn lemma_painted_end(text: Seq<char>)
    requires
        !text.contains('\u{1b}'),
        is_painted(encode_utf8(text)),
    ensures
        offset(pieces(encode_utf8(text)), pieces(encode_utf8(text)).len() as int) == encode_utf8(
            text,
        ).len(),
{
    let bytes = encode_utf8(text);
    let p = pieces(bytes);
    let end = offset(p, p.len() as int) as int;
    lemma_painted_offsets(bytes, 0, p.len() as int);
    lemma_no_escapes(text, end);
    reveal(is_painted);
}

/// One cluster of a text without escape sequences, and what is left behind it.
proof fn lemma_painted_cluster(text: Seq<char>, m: int)
    requires
        !text.contains('\u{1b}'),
        is_painted(encode_utf8(text)),
        0 <= m < pieces(encode_utf8(text)).len(),
    ensures
        ({
            let bytes = encode_utf8(text);
            let p = pieces(bytes);
            let rest = decode_utf8(bytes.skip(offset(p, m) as int));
            let cluster = first_cluster(rest);
            &&& is_measured(rest)
            &&& p[m].cells == cells_of(cluster)
            &&& decode_utf8(bytes.skip(offset(p, m + 1) as int)) == rest.skip(cluster.len() as int)
        }),
{
    let bytes = encode_utf8(text);
    let p = pieces(bytes);
    let at = offset(p, m) as int;
    lemma_painted_offsets(bytes, m, m);
    lemma_piece_at(bytes, m);
    lemma_painted_at(bytes, m);
    lemma_no_escapes(text, at);
    let rest = decode_utf8(bytes.skip(at));
    let cluster = first_cluster(rest);
    assert(bytes.skip(at) =~= bytes.subrange(at, bytes.len() as int));
    valid_utf8_split(bytes, at);
    decode_utf8_encode_utf8(bytes.skip(at));
    lemma_behind_cluster(rest);
    assert(bytes.skip(offset(p, m + 1) as int) =~= bytes.skip(at).skip(
        encode_utf8(cluster).len() as int,
    ));
}

/// The bytes behind the first cluster of a text are those of what is left of it.
proof fn lemma_behind_cluster(text: Seq<char>)
    requires
        is_measured(text),
    ensures
        decode_utf8(encode_utf8(text).skip(encode_utf8(first_cluster(text)).len() as int))
            == text.skip(first_cluster(text).len() as int),
{
    reveal(keeps_cluster);
    let cluster = first_cluster(text);
    let others = text.skip(cluster.len() as int);
    assert(text =~= cluster + others);
    text::lemma_encode_concat(cluster, others);
    assert(encode_utf8(text).skip(encode_utf8(cluster).len() as int) =~= encode_utf8(others));
    encode_utf8_decode_utf8(others);
}

/// How many cells `text` paints. Control characters count as none, and an escape
/// sequence is free whole, whether or not a row may keep it. Without escape
/// sequences it is the cells of the blanks and of what is between them.
pub fn width(text: &str) -> (cells: u16)
    ensures
        cells == width_of(text.spec_bytes()),
        !text@.contains('\u{1b}') ==> cells == clamp(parted_cells(text@)),
{
    let painted: Vec<Painted> = painting(text);
    let ghost p = views(painted@);
    let mut cells: u16 = 0;
    let mut at: usize = 0;
    while at < painted.len()
        invariant
            p == views(painted@),
            at <= painted@.len(),
            cells == clamp(cells_between(p, 0, at as int)),
        decreases painted@.len() - at,
    {
        assert(p[at as int] == painted@[at as int]@);
        cells = cells.saturating_add(clamped(painted[at].cells));
        at = at + 1;
    }
    proof {
        if !text@.contains('\u{1b}') {
            encode_utf8_valid_utf8(text@);
            assert(is_painted(text.spec_bytes())) by {
                reveal(is_painted);
            }
            lemma_cells_are_parted(text@, 0);
            assert(text.spec_bytes().skip(0) =~= text.spec_bytes());
            encode_utf8_decode_utf8(text@);
        }
    }
    cells
}

/// Whether rows are ranges of a text: each within it, on character boundaries.
pub open spec fn ranges_of(bytes: Seq<u8>, rows: Seq<Row>) -> bool {
    forall|r: int|
        #![trigger rows[r]]
        0 <= r < rows.len() ==> {
            &&& rows[r].start <= rows[r].end <= bytes.len()
            &&& is_char_boundary(bytes, rows[r].start as int)
            &&& is_char_boundary(bytes, rows[r].end as int)
        }
}

/// Whether rows tile a text: no gap, no overlap, and no empty row but the last.
pub open spec fn tile(bytes: Seq<u8>, rows: Seq<Row>) -> bool {
    &&& rows.len() > 0
    &&& rows[0].start == 0
    &&& rows[rows.len() - 1].end == bytes.len()
    &&& forall|r: int, next: int|
        #![trigger rows[r], rows[next]]
        0 <= r && next == r + 1 && next < rows.len() ==> rows[r].end == rows[next].start
    &&& forall|r: int| 0 <= r < rows.len() - 1 ==> (#[trigger] rows[r]).start < rows[r].end
}

/// Whether every row is as wide as its own text: spaces that hang over the margin
/// are measured, a line break and an escape sequence are free.
pub open spec fn measured(bytes: Seq<u8>, rows: Seq<Row>) -> bool {
    forall|r: int|
        #![trigger rows[r]]
        0 <= r < rows.len() ==> rows[r].width == width_of(
            bytes.subrange(rows[r].start as int, rows[r].end as int),
        )
}

/// The rows `text` occupies on a screen `cols` wide, in order, tiling the whole
/// of it.
///
/// Every byte of `text` is in exactly one row, and the line break that ended a
/// row belongs to that row. There is always at least one row: a text that ends
/// in a newline has an empty last row, which is where the caret goes after the
/// newline is typed.
pub fn wrap(text: &str, cols: u16) -> (rows: Vec<Row>)
    ensures
        spans(rows@) == wrapped(text.spec_bytes(), cols),
        tile(text.spec_bytes(), rows@),
        ranges_of(text.spec_bytes(), rows@),
        measured(text.spec_bytes(), rows@),
{
    let painted: Vec<Painted> = painting(text);
    let len: usize = text.as_bytes().len();
    let rows: Vec<Row> = wrap_painted(painted.as_slice(), len, cols);
    proof {
        let bytes = text.spec_bytes();
        let p = views(painted@);
        let from = firsts(p, 0, at_least_one(cols));
        let all = spans(rows@);
        law_rows_tile(p, len as nat, 0, at_least_one(cols));
        encode_utf8_valid_utf8(text@);
        is_char_boundary_start_end_of_seq(bytes);
        assert forall|r: int| 0 <= r < rows@.len() implies is_char_boundary(
            bytes,
            (#[trigger] rows@[r]).start as int,
        ) && rows@[r].start <= rows@[r].end <= bytes.len() by {
            assert(all[r] == rows@[r]@);
            assert(all[r].start == offset(p, from[r]));
            if from[r] > 0 {
                assert(is_char_boundary(bytes, p[from[r] - 1].end as int));
            }
        }
        assert forall|r: int, next: int|
            #![trigger rows@[r], rows@[next]]
            0 <= r && next == r + 1 && next < rows@.len() implies rows@[r].end
            == rows@[next].start by {
            assert(all[r] == rows@[r]@);
            assert(all[next] == rows@[next]@);
        }
        assert forall|r: int| 0 <= r < rows@.len() - 1 implies (#[trigger] rows@[r]).start
            < rows@[r].end by {
            assert(all[r] == rows@[r]@);
        }
        assert(all[0] == rows@[0]@);
        assert(all[rows@.len() - 1] == rows@[rows@.len() - 1]@);
        assert forall|r: int| 0 <= r < rows@.len() implies is_char_boundary(
            bytes,
            (#[trigger] rows@[r]).end as int,
        ) by {
            if r + 1 < rows@.len() {
                assert(rows@[r].end == rows@[r + 1].start);
            }
        }
        assert forall|m: int|
            0 <= m < p.len() && (#[trigger] p[m]).glyph == Glyph::Break implies p[m].cells
            == 0 by {
            lemma_breaks_are_free(bytes, m);
        }
        assert(is_painted(bytes)) by {
            reveal(is_painted);
        }
        assert forall|r: int| 0 <= r < rows@.len() implies (#[trigger] rows@[r]).width
            == width_of(bytes.subrange(rows@[r].start as int, rows@[r].end as int)) by {
            assert(all[r] == rows@[r]@);
            lemma_row_widths(p, len as nat, 0, at_least_one(cols), r);
            let next = if r + 1 < all.len() {
                from[r + 1]
            } else {
                p.len() as int
            };
            lemma_part_width(bytes, from[r], next, rows@[r].end as int);
        }
    }
    rows
}

/// The row a byte offset is on: the first that ends behind it, or the last.
pub open spec fn row_at(rows: Seq<Row>, cursor: nat) -> int
    decreases rows.len(),
{
    if rows.len() <= 1 || cursor < rows[0].end {
        0
    } else {
        1 + row_at(rows.skip(1), cursor)
    }
}

/// How many cells of its row are to the left of a byte offset.
pub open spec fn column_at(bytes: Seq<u8>, row: Row, cursor: nat) -> nat {
    if cursor >= row.end {
        row.width as nat
    } else if cursor <= row.start {
        width_of(bytes.subrange(row.start as int, row.start as int))
    } else {
        width_of(bytes.subrange(row.start as int, cursor as int))
    }
}

/// Which row a byte offset is on, and how many cells are to the left of it
/// there.
///
/// A cursor exactly on a soft-wrap boundary belongs to the following row: the
/// character it is about to type lands there. A cursor at the very end of the
/// text is on the last row.
///
/// `cursor` is the caller's to keep on a boundary; one inside a character is
/// not an offset this answers for.
pub fn cursor_point(text: &str, rows: &[Row], cursor: usize) -> (point: (usize, u16))
    requires
        ranges_of(text.spec_bytes(), rows@),
        cursor < text.spec_bytes().len() ==> is_char_boundary(text.spec_bytes(), cursor as int),
    ensures
        rows@.len() == 0 ==> point == (0usize, 0u16),
        rows@.len() > 0 ==> point.0 == row_at(rows@, cursor as nat) && point.0 < rows@.len()
            && point.1 == column_at(text.spec_bytes(), rows@[point.0 as int], cursor as nat),
{
    let mut index: usize = 0;
    assert(rows@.skip(0) =~= rows@);
    while index < rows.len()
        invariant
            index <= rows@.len(),
            index == rows@.len() ==> rows@.len() == 0,
            ranges_of(text.spec_bytes(), rows@),
            cursor < text.spec_bytes().len() ==> is_char_boundary(
                text.spec_bytes(),
                cursor as int,
            ),
            rows@.len() > 0 ==> row_at(rows@, cursor as nat) == index + row_at(
                rows@.skip(index as int),
                cursor as nat,
            ),
        decreases rows@.len() - index,
    {
        let row: Row = rows[index];
        let last: bool = index + 1 == rows.len();
        assert(rows@.skip(index as int)[0] == row);
        assert(rows@.skip(index as int).skip(1) =~= rows@.skip(index + 1));
        if cursor >= row.end && !last {
            index = index + 1;
            continue;
        }
        if cursor >= row.end {
            return (index, row.width);
        }
        let to: usize = if cursor > row.start {
            cursor
        } else {
            row.start
        };
        return (index, width(text::slice(text, row.start, to)));
    }
    (0, 0)
}

/// A cursor on the boundary between two rows belongs to the following one.
pub proof fn law_cursor_on_a_boundary(bytes: Seq<u8>, rows: Seq<Row>, r: int)
    requires
        tile(bytes, rows),
        0 <= r < rows.len() - 1,
    ensures
        row_at(rows, rows[r].end as nat) == r + 1,
    decreases rows.len(),
{
    let cursor = rows[r].end as nat;
    assert(rows.skip(0) =~= rows);
    if r + 1 < rows.len() - 1 {
        assert(rows[r + 1].start < rows[r + 1].end);
    }
    lemma_row_at(bytes, rows, 0, r + 1, cursor);
}

/// The caret of an offset is on a row that holds it, as many cells in as the row's
/// own text up to it paints; so an offset where a row starts is in its first
/// column. An offset at the very end of the text is on the last row.
pub proof fn law_the_column_is_the_text_before_it(bytes: Seq<u8>, rows: Seq<Row>, cursor: nat)
    requires
        tile(bytes, rows),
        measured(bytes, rows),
        cursor <= bytes.len(),
    ensures
        ({
            let r = row_at(rows, cursor);
            &&& 0 <= r < rows.len()
            &&& rows[r].start <= cursor
            &&& cursor < rows[r].end || (r == rows.len() - 1 && cursor == rows[r].end)
            &&& column_at(bytes, rows[r], cursor) == width_of(
                bytes.subrange(rows[r].start as int, cursor as int),
            )
            &&& cursor == rows[r].start ==> column_at(bytes, rows[r], cursor) == 0
        }),
{
    assert(rows.skip(0) =~= rows);
    let r = lemma_row_holds(bytes, rows, 0, cursor);
    let row = rows[r];
    let none = bytes.subrange(row.start as int, row.start as int);
    assert(none =~= Seq::empty());
    lemma_escapes_within(none.skip(0));
    assert(pieces(none) =~= Seq::empty());
}

proof fn lemma_row_holds(bytes: Seq<u8>, rows: Seq<Row>, i: int, cursor: nat) -> (r: int)
    requires
        tile(bytes, rows),
        0 <= i < rows.len(),
        rows[i].start <= cursor <= bytes.len(),
    ensures
        i <= r < rows.len(),
        row_at(rows.skip(i), cursor) == r - i,
        rows[r].start <= cursor,
        cursor < rows[r].end || (r == rows.len() - 1 && cursor == rows[r].end),
    decreases rows.len() - i,
{
    let rest = rows.skip(i);
    assert(rest[0] == rows[i]);
    if rest.len() <= 1 || cursor < rows[i].end {
        i
    } else {
        assert(rows[i].end == rows[i + 1].start);
        assert(rest.skip(1) =~= rows.skip(i + 1));
        lemma_row_holds(bytes, rows, i + 1, cursor)
    }
}

proof fn lemma_ends_grow(bytes: Seq<u8>, rows: Seq<Row>, i: int, j: int)
    requires
        tile(bytes, rows),
        0 <= i <= j < rows.len() - 1,
    ensures
        rows[i].end <= rows[j].end,
    decreases j - i,
{
    if i < j {
        assert(rows[i].end == rows[i + 1].start);
        assert(rows[i + 1].start < rows[i + 1].end);
        lemma_ends_grow(bytes, rows, i + 1, j);
    }
}

proof fn lemma_row_at(bytes: Seq<u8>, rows: Seq<Row>, i: int, j: int, cursor: nat)
    requires
        tile(bytes, rows),
        0 <= i <= j < rows.len(),
        j > 0 ==> rows[j - 1].end <= cursor,
        j < rows.len() - 1 ==> cursor < rows[j].end,
    ensures
        row_at(rows.skip(i), cursor) == j - i,
    decreases j - i,
{
    let rest = rows.skip(i);
    assert(rest[0] == rows[i]);
    if i < j {
        lemma_ends_grow(bytes, rows, i, j - 1);
        assert(rest.skip(1) =~= rows.skip(i + 1));
        lemma_row_at(bytes, rows, i + 1, j, cursor);
    }
}

/// A text with every tab replaced by the cells it measures.
pub open spec fn tabs_expanded(text: Seq<char>) -> Seq<char>
    decreases text.len(),
{
    if text.len() == 0 {
        Seq::empty()
    } else if text.last() == '\t' {
        tabs_expanded(text.drop_last()) + Seq::new(TAB_WIDTH as nat, |i: int| ' ')
    } else {
        tabs_expanded(text.drop_last()).push(text.last())
    }
}

/// How many tabs a text holds.
pub open spec fn tabs_in(text: Seq<char>) -> nat
    decreases text.len(),
{
    if text.len() == 0 {
        0
    } else if text.last() == '\t' {
        tabs_in(text.drop_last()) + 1
    } else {
        tabs_in(text.drop_last())
    }
}

/// The run of spaces a tab is replaced by.
spec fn tab_run() -> Seq<char> {
    Seq::new(TAB_WIDTH as nat, |i: int| ' ')
}

proof fn lemma_tabs_concat(a: Seq<char>, b: Seq<char>)
    ensures
        tabs_expanded(a + b) == tabs_expanded(a) + tabs_expanded(b),
    decreases b.len(),
{
    if b.len() == 0 {
        assert(a + b =~= a);
        assert(tabs_expanded(a) + tabs_expanded(b) =~= tabs_expanded(a));
    } else {
        lemma_tabs_concat(a, b.drop_last());
        assert((a + b).drop_last() =~= a + b.drop_last());
        assert((a + b).last() == b.last());
        assert(tabs_expanded(a + b) =~= tabs_expanded(a) + tabs_expanded(b));
    }
}

proof fn lemma_nothing_to_expand(text: Seq<char>)
    requires
        forall|i: int| 0 <= i < text.len() ==> #[trigger] text[i] != '\t',
    ensures
        tabs_expanded(text) == text,
    decreases text.len(),
{
    if text.len() > 0 {
        lemma_nothing_to_expand(text.drop_last());
        assert(tabs_expanded(text) =~= text);
    }
}

/// A space in front of a text is one cell more.
proof fn lemma_space_in_front(text: Seq<char>)
    ensures
        parted_cells(seq![' '] + text) == 1 + parted_cells(text),
{
    let whole = seq![' '] + text;
    assert(whole[0] == ' ');
    assert(whole.take(0) =~= Seq::empty());
    assert(whole.skip(1) =~= text);
    assert(cluster_sum(whole.take(0)) == 0);
}

proof fn lemma_tab_run_in_front(text: Seq<char>)
    ensures
        parted_cells(tab_run().skip(1) + text) == TAB_WIDTH - 1 + parted_cells(text),
{
    let one = seq![' '] + text;
    let two = seq![' '] + one;
    assert(tab_run().skip(1) + text =~= seq![' '] + two);
    lemma_space_in_front(text);
    lemma_space_in_front(one);
    lemma_space_in_front(two);
}

/// What a text paints is what is left of it once its tabs are spaces: for a text
/// without escape sequences [`width`] is the same of both. Nothing else changes:
/// no tab is left, every other character stays, and each tab has become four.
pub proof fn law_tabs_measure_what_they_paint(text: Seq<char>)
    ensures
        parted_cells(tabs_expanded(text)) == parted_cells(text),
        !tabs_expanded(text).contains('\t'),
        tabs_expanded(text).contains('\u{1b}') ==> text.contains('\u{1b}'),
        tabs_expanded(text).len() == text.len() + (TAB_WIDTH - 1) * tabs_in(text),
        encode_utf8(tabs_expanded(text)).len() == encode_utf8(text).len() + (TAB_WIDTH - 1)
            * tabs_in(text),
{
    lemma_parted_tabs(text);
    lemma_tab_lengths(text);
    let expanded = tabs_expanded(text);
    if expanded.contains('\t') {
        let i = choose|i: int| 0 <= i < expanded.len() && expanded[i] == '\t';
        assert(false);
    }
    if expanded.contains('\u{1b}') {
        let i = choose|i: int| 0 <= i < expanded.len() && expanded[i] == '\u{1b}';
        assert(text.contains(expanded[i]));
    }
}

proof fn lemma_tab_lengths(text: Seq<char>)
    ensures
        forall|i: int|
            0 <= i < tabs_expanded(text).len() ==> #[trigger] tabs_expanded(text)[i] == ' '
                || tabs_expanded(text)[i] != '\t' && text.contains(tabs_expanded(text)[i]),
        tabs_expanded(text).len() == text.len() + 3 * tabs_in(text),
        encode_utf8(tabs_expanded(text)).len() == encode_utf8(text).len() + 3 * tabs_in(text),
    decreases text.len(),
{
    if text.len() > 0 {
        let shorter = text.drop_last();
        let last = seq![text.last()];
        lemma_tab_lengths(shorter);
        assert(text =~= shorter + last);
        text::lemma_encode_concat(shorter, last);
        let before = tabs_expanded(shorter);
        let behind = tabs_expanded(text).skip(before.len() as int);
        assert(tabs_expanded(text) =~= before + behind);
        text::lemma_encode_concat(before, behind);
        if text.last() == '\t' {
            assert(behind =~= tab_run());
            assert(encode_utf8(behind).len() == 4 && encode_utf8(last).len() == 1) by {
                assert(is_ascii_chars(behind));
                assert(is_ascii_chars(last));
                is_ascii_chars_encode_utf8(behind);
                is_ascii_chars_encode_utf8(last);
            }
        } else {
            assert(behind =~= last);
        }
        assert forall|i: int| 0 <= i < tabs_expanded(text).len() implies (
        #[trigger] tabs_expanded(text)[i] == ' ' || tabs_expanded(text)[i] != '\t'
            && text.contains(tabs_expanded(text)[i])) by {
            if i < before.len() {
                assert(tabs_expanded(text)[i] == before[i]);
                if before[i] != ' ' {
                    let k = choose|k: int| 0 <= k < shorter.len() && shorter[k] == before[i];
                    assert(text[k] == before[i]);
                }
            } else if text.last() != '\t' {
                assert(tabs_expanded(text)[i] == text[text.len() - 1]);
            }
        }
    }
}

proof fn lemma_parted_tabs(text: Seq<char>)
    ensures
        parted_cells(tabs_expanded(text)) == parted_cells(text),
    decreases text.len(),
{
    let at = next_blank(text);
    lemma_next_blank(text);
    if at >= text.len() {
        lemma_nothing_to_expand(text);
    } else {
        let head = text.take(at);
        let blank = seq![text[at]];
        let rest = text.skip(at + 1);
        let expanded = tabs_expanded(text);
        let left = tabs_expanded(rest);
        assert(text =~= head + (blank + rest));
        lemma_tabs_concat(head, blank + rest);
        lemma_tabs_concat(blank, rest);
        lemma_nothing_to_expand(head);
        lemma_parted_tabs(rest);
        assert(blank.drop_last() =~= Seq::empty());
        assert(tabs_expanded(blank.drop_last()) =~= Seq::empty());
        if text[at] == '\t' {
            assert(tabs_expanded(blank) =~= tab_run());
            assert(expanded =~= head + (tab_run() + left));
            assert(expanded.skip(at + 1) =~= tab_run().skip(1) + left);
            lemma_tab_run_in_front(left);
        } else {
            assert(tabs_expanded(blank) =~= blank);
            assert(expanded =~= head + (blank + left));
            assert(expanded.skip(at + 1) =~= left);
        }
        assert(expanded[at] == ' ');
        assert forall|i: int| 0 <= i < at implies !is_blank(#[trigger] expanded[i]) by {
            assert(expanded[i] == text[i]);
        }
        lemma_next_blank_is(expanded, at);
        assert(expanded.take(at) =~= head);
    }
}

/// `text` with every tab replaced by the cells it measures: what reaches the
/// terminal is spaces the wrap has already counted. Borrowed when there is no
/// tab.
pub fn expand_tabs(text: &str) -> (expanded: Cow<'_, str>)
    ensures
        expanded@ == tabs_expanded(text@),
        !expanded@.contains('\t'),
        expanded is Borrowed <==> !text@.contains('\t'),
{
    let chars: Vec<char> = text::characters(text);
    let mut out: String = String::new();
    let mut found: bool = false;
    let mut at: usize = 0;
    while at < chars.len()
        invariant
            chars@ == text@,
            at <= chars@.len(),
            out@ == tabs_expanded(chars@.take(at as int)),
            found == chars@.take(at as int).contains('\t'),
            !found ==> out@ == chars@.take(at as int),
        decreases chars@.len() - at,
    {
        let ghost next = chars@.take(at + 1);
        let ghost so_far = out@;
        proof {
            assert(next.drop_last() =~= chars@.take(at as int));
            assert(next.last() == chars@[at as int]);
            if found {
                let i = choose|i: int| 0 <= i < at && chars@.take(at as int)[i] == '\t';
                assert(next[i] == '\t');
            }
        }
        if chars[at] == '\t' {
            assert(next[at as int] == '\t');
            found = true;
            out.push(' ');
            out.push(' ');
            out.push(' ');
            out.push(' ');
            assert(out@ =~= so_far + Seq::new(TAB_WIDTH as nat, |i: int| ' '));
        } else {
            out.push(chars[at]);
            assert(out@ =~= so_far.push(chars@[at as int]));
            assert(!found ==> so_far.push(chars@[at as int]) =~= next);
            proof {
                if !found && next.contains('\t') {
                    let i = choose|i: int| 0 <= i < next.len() && next[i] == '\t';
                    assert(chars@.take(at as int)[i] == '\t');
                }
            }
        }
        at = at + 1;
    }
    assert(chars@.take(at as int) =~= text@);
    proof {
        law_tabs_measure_what_they_paint(text@);
    }
    if found {
        Cow::Owned(out)
    } else {
        Cow::Borrowed(text)
    }
}

// ---------------------------------------------------------------------------
// what a row, a cluster and a tab are in plain counts
// ---------------------------------------------------------------------------

/// Cells add up: none for no cluster, a cluster's own for one, and for two
/// stretches one behind the other those of both. As a screen counts them they are
/// what they are, up to the most it can count.
pub proof fn law_cells_add_up(p: Seq<Piece>, i: int, k: int, j: int, cells: nat)
    requires
        0 <= i <= k <= j <= p.len(),
    ensures
        cells_between(p, i, i) == 0,
        i < p.len() ==> cells_between(p, i, i + 1) == p[i].cells,
        cells_between(p, i, j) == cells_between(p, i, k) + cells_between(p, k, j),
        cells <= 65535 ==> clamp(cells) == cells,
        cells > 65535 ==> clamp(cells) == 65535,
{
    reveal_with_fuel(cells_between, 2);
    lemma_cells_split(p, i, k, j);
}

/// A row is left only when it has to be: where no line break ends it, the cluster
/// that moved down, or the word it belongs to, would have taken the row past the
/// screen's cells. What moves down begins behind a space, or it is the one cluster
/// that did not fit, on a row on which no word began behind a space.
pub proof fn law_a_row_is_left_only_when_it_is_full(
    p: Seq<Piece>,
    i: int,
    cols: nat,
    r: int,
) -> (crossing: int)
    requires
        0 <= i <= p.len(),
        cols < 65535,
        0 <= r < firsts(p, i, cols).len() - 1,
        p[firsts(p, i, cols)[r + 1] - 1].glyph != Glyph::Break,
    ensures
        ({
            let first = firsts(p, i, cols)[r];
            let next = firsts(p, i, cols)[r + 1];
            &&& first < next <= crossing < p.len()
            &&& cells_between(p, first, crossing + 1) > cols
            &&& forall|m: int| next <= m <= crossing ==> (#[trigger] p[m]).glyph == Glyph::Cluster
            &&& p[next - 1].glyph == Glyph::Space || (next == crossing && forall|m: int, k: int|
                #![trigger p[m], p[k]]
                first < m <= next && k == m - 1 && p[m].glyph == Glyph::Cluster ==> p[k].glyph
                    != Glyph::Space)
        }),
{
    let crossing = law_words_move_whole(p, i, cols, r);
    let first = firsts(p, i, cols)[r];
    let next = firsts(p, i, cols)[r + 1];
    assert(p[next].glyph == Glyph::Cluster);
    if p[next - 1].glyph != Glyph::Space {
        assert forall|m: int, k: int|
            #![trigger p[m], p[k]]
            first < m <= next && k == m - 1 && p[m].glyph == Glyph::Cluster implies p[k].glyph
            != Glyph::Space by {
            assert(!opens_word(p, m));
        }
    }
    crossing
}

/// A row holds what fits: from its first cluster up to and with any other that is
/// no space and no break, it takes no more cells than the screen has.
pub proof fn law_a_row_holds_what_fits(p: Seq<Piece>, i: int, cols: nat, r: int, m: int)
    requires
        0 <= i <= p.len(),
        cols < 65535,
        0 <= r < firsts(p, i, cols).len(),
        firsts(p, i, cols)[r] < m < p.len(),
        r + 1 < firsts(p, i, cols).len() ==> m < firsts(p, i, cols)[r + 1],
        p[m].glyph == Glyph::Cluster,
    ensures
        cells_between(p, firsts(p, i, cols)[r], m + 1) <= cols,
{
    law_clusters_fit(p, i, cols, r, m);
}

/// A row is measured by what is on it: the cells from its first cluster up to the
/// first of the next row, or to the end of the text, without the line break that
/// ended it.
pub proof fn law_a_row_measures_what_is_on_it(p: Seq<Piece>, len: nat, i: int, cols: nat, r: int)
    requires
        tiled(p, len),
        0 <= i <= p.len(),
        0 <= r < firsts(p, i, cols).len(),
    ensures
        ({
            let from = firsts(p, i, cols);
            let rows = rows_from(p, len, i, cols);
            let next = if r + 1 < from.len() {
                from[r + 1]
            } else {
                p.len() as int
            };
            let end = if r + 1 < from.len() && p[next - 1].glyph == Glyph::Break {
                next - 1
            } else {
                next
            };
            &&& rows.len() == from.len()
            &&& rows[r].start == offset(p, from[r])
            &&& rows[r].width == clamp(cells_between(p, from[r], end))
        }),
    decreases p.len() - i,
{
    law_rows_tile(p, len, i, cols);
    lemma_stop(p, i, i, cols);
    lemma_row(p, i, cols);
    let j = stop(p, i, i, cols);
    let end = row_end(p, i, j);
    if j < p.len() {
        let others = firsts(p, end, cols);
        let rest = rows_from(p, len, end, cols);
        law_rows_tile(p, len, end, cols);
        assert(firsts(p, i, cols) =~= seq![i] + others);
        if r > 0 {
            law_a_row_measures_what_is_on_it(p, len, end, cols, r - 1);
            assert(rows_from(p, len, i, cols)[r] == rest[r - 1]);
        } else {
            assert(others[0] == end);
            if p[j].glyph != Glyph::Break {
                lemma_soft_row(p, i, cols);
                lemma_word_start(p, i, j);
                assert(p[end - 1].glyph != Glyph::Break);
            }
        }
    }
}

/// What a cluster is to the wrap: a line feed, alone or behind a carriage return,
/// is a break, one space is a space, and everything else is a cluster. A tab
/// paints four cells, a cluster of controls none, and any other as many as its
/// columns are.
pub proof fn law_what_a_cluster_paints(cluster: Seq<char>)
    ensures
        glyph_of(cluster) == Glyph::Break <==> (cluster == seq!['\n'] || cluster == seq![
            '\r',
            '\n',
        ]),
        glyph_of(cluster) == Glyph::Space <==> cluster == seq![' '],
        cells_of(seq!['\t']) == 4,
        cells_of(seq!['\n']) == 0,
        cells_of(seq!['\r', '\n']) == 0,
        (exists|i: int| 0 <= i < cluster.len() && !text::is_control(#[trigger] cluster[i]))
            ==> cells_of(cluster) == columns(cluster),
{
    let feed = seq!['\n'];
    let both = seq!['\r', '\n'];
    assert(feed[0] == '\n');
    assert(both[0] == '\r' && both[1] == '\n');
    assert(seq!['\t'][0] == '\t');
    assert(feed != seq!['\t']);
    assert(both != seq!['\t']);
    assert(seq![' '][0] == ' ');
    assert(seq![' '] != feed);
    assert(seq![' '].len() != both.len());
    assert(both.len() == 2 && seq!['\t'].len() == 1);
    if cluster == seq!['\t'] {
        assert(text::is_control(cluster[0]));
    }
}

/// The clusters of a text are found one behind the other: the first stands behind
/// the sequences in front of it, is the first cluster of what is left there, and
/// the others are those of the text from its end on.
pub proof fn law_a_cluster_is_the_first_of_what_is_left(bytes: Seq<u8>, at: int)
    requires
        pieces_from(bytes, at).len() > 0,
    ensures
        ({
            let p = pieces_from(bytes, at);
            let from = at + escapes_len(bytes.skip(at));
            let cluster = first_cluster(decode_utf8(bytes.skip(from)));
            &&& p[0].start == at
            &&& p[0].end == from + encode_utf8(cluster).len()
            &&& p[0].cells == cells_of(cluster)
            &&& p[0].glyph == glyph_of(cluster)
            &&& p[0].end > from
            &&& p.skip(1) == pieces_from(bytes, p[0].end as int)
        }),
{
    let p = pieces_from(bytes, at);
    assert(p.skip(1) =~= pieces_from(bytes, p[0].end as int));
}

/// The sequences in front of a cluster are all of those that stand there: the
/// first, and then those behind it; none where the text begins with none.
pub proof fn law_sequences_are_stepped_over_together(bytes: Seq<u8>)
    ensures
        bytes.len() > 0 && bytes[0] == 0x1b ==> escapes_len(bytes) == pacer::escape_len(bytes)
            + escapes_len(bytes.skip(pacer::escape_len(bytes))),
        bytes.len() == 0 || bytes[0] != 0x1b ==> escapes_len(bytes) == 0,
        0 <= escapes_len(bytes) <= bytes.len(),
{
    pacer::lemma_escape_within(bytes);
    lemma_escapes_within(bytes);
}

/// Tabs become spaces where they stand: two texts one behind the other are
/// expanded one behind the other, one tab is four spaces, and a text without tabs
/// stays as it is.
pub proof fn law_a_tab_becomes_four_spaces(a: Seq<char>, b: Seq<char>)
    ensures
        tabs_expanded(a + b) == tabs_expanded(a) + tabs_expanded(b),
        tabs_expanded(seq!['\t']) == seq![' ', ' ', ' ', ' '],
        !a.contains('\t') ==> tabs_expanded(a) == a,
    decreases a.len() + b.len(),
{
    reveal_with_fuel(tabs_expanded, 2);
    let tab = seq!['\t'];
    assert(tab.drop_last() =~= Seq::empty());
    assert(tab.last() == '\t');
    assert(tabs_expanded(tab) =~= seq![' ', ' ', ' ', ' ']);
    if b.len() > 0 {
        law_a_tab_becomes_four_spaces(a, b.drop_last());
        assert((a + b).drop_last() =~= a + b.drop_last());
        assert((a + b).last() == b.last());
        assert(tabs_expanded(a + b) =~= tabs_expanded(a) + tabs_expanded(b));
    } else {
        assert(a + b =~= a);
        assert(tabs_expanded(a) + tabs_expanded(b) =~= tabs_expanded(a));
        if a.len() > 0 && !a.contains('\t') {
            let less = a.drop_last();
            assert forall|i: int| 0 <= i < less.len() implies less[i] != '\t' by {
                assert(a.contains(a[i]));
            }
            law_a_tab_becomes_four_spaces(less, b);
            assert(a.contains(a.last()));
            assert(tabs_expanded(a) =~= a);
        } else if a.len() == 0 {
            assert(tabs_expanded(a) =~= a);
        }
    }
}

/// A text is wrapped to the screen it is on, from its first cluster to its last;
/// a screen without columns is taken as one column wide. A text without clusters
/// is one row.
pub proof fn law_a_text_is_wrapped_to_its_screen(bytes: Seq<u8>, cols: u16)
    ensures
        cols > 0 ==> wrapped(bytes, cols) == rows_from(
            pieces(bytes),
            bytes.len(),
            0,
            cols as nat,
        ),
        wrapped(bytes, 0) == wrapped(bytes, 1),
        pieces(bytes).len() == 0 ==> wrapped(bytes, cols).len() == 1,
        pieces(bytes) == pieces_from(bytes, 0),
        width_of(bytes) == clamp(cells_between(pieces(bytes), 0, pieces(bytes).len() as int)),
{
}

} // verus!
