//! What a session writes above its band, and the order it writes it in.
//!
//! The answer arrives in bursts and is released at reading speed, so at any
//! moment some of it is still ahead. The session's own lines are not part of
//! the answer, but they have a place in it: the point the stream had reached
//! when they happened. A line said while nothing is ahead is written at once;
//! any other waits until everything in front of it has been released.
//!
//! Nothing is written here. What the text costs the terminal is queued as
//! [`Append`]s, oldest first, for whoever owns the screen.

use std::collections::VecDeque;

use vstd::prelude::*;
use vstd::string::*;
use vstd::utf8::*;

use crate::text;
use crate::tui::transcript::{Append, Owed, Transcript, Unfinished};

verus! {

/// One of the session's own writes.
#[derive(Debug, Clone, PartialEq, Eq)]
pub enum Mark {
    /// A whole line, on rows of its own.
    Line(String),
    /// The end of the answer's line, and nothing else.
    EndOfLine,
}

/// [`Mark`] in mathematical terms.
pub enum Note {
    Line(Seq<char>),
    EndOfLine,
}

impl View for Mark {
    type V = Note;

    open spec fn view(&self) -> Note {
        match *self {
            Mark::Line(line) => Note::Line(line@),
            Mark::EndOfLine => Note::EndOfLine,
        }
    }
}

/// The document, and what it is owed.
pub struct Paper {
    /// The line that has not ended yet.
    pub unfinished: Unfinished,
    /// The writes the terminal is owed, oldest first.
    pub owed: Seq<Owed>,
    /// Whether a write has been queued since a frame was last asked for.
    pub frame: bool,
}

impl Paper {
    /// The document once a write has been queued. One that would write nothing
    /// is not.
    pub open spec fn owing(self, append: Owed) -> Paper {
        if append.scroll == 0 && append.rows.len() == 0 {
            self
        } else {
            Paper { owed: self.owed.push(append), frame: true, ..self }
        }
    }

    /// The document once `text` has been written into its line.
    pub open spec fn written(self, text: Seq<char>) -> Paper {
        Paper { unfinished: self.unfinished.pushed(text), ..self }.owing(
            self.unfinished.owed(text),
        )
    }

    /// The document once its line has been ended.
    pub open spec fn ended(self) -> Paper {
        Paper { unfinished: self.unfinished.ended(), ..self }.owing(self.unfinished.closing())
    }

    /// The document once its line has been ended, where one has begun.
    pub open spec fn finished(self) -> Paper {
        if self.unfinished.painted > 0 {
            self.ended()
        } else {
            self
        }
    }

    /// The document once a line has been written on rows of its own.
    pub open spec fn with_line(self, line: Seq<char>) -> Paper {
        self.finished().written(line).ended()
    }

    /// The document once one of the session's own writes has been made.
    pub open spec fn with(self, note: Note) -> Paper {
        match note {
            Note::Line(line) => self.with_line(line),
            Note::EndOfLine => self.finished(),
        }
    }
}

/// One of the session's own writes that waits, and the answer's text between it
/// and the write in front of it.
pub struct Held {
    pub before: Seq<char>,
    pub note: Note,
}

/// A document and everything that is still ahead of it, in order.
pub struct Script {
    pub paper: Paper,
    /// The writes that wait, each behind a stretch of the answer.
    pub held: Seq<Held>,
    /// The answer's text behind the last of them.
    pub tail: Seq<char>,
    /// How many bytes of answer have ever been taken in.
    pub enqueued: nat,
}

/// The answer's text in front of the last of `held`.
pub open spec fn stretch(held: Seq<Held>) -> Seq<char>
    decreases held.len(),
{
    if held.len() == 0 {
        Seq::empty()
    } else {
        stretch(held.drop_last()) + held.last().before
    }
}

/// How many bytes `text` takes.
pub open spec fn bytes(text: Seq<char>) -> nat {
    encode_utf8(text).len()
}

/// Where each of `held` stands in the answer, in bytes, where the stretch in
/// front of the first begins at `from`.
pub open spec fn places(held: Seq<Held>, from: nat) -> Seq<(nat, Note)>
    decreases held.len(),
{
    if held.len() == 0 {
        Seq::empty()
    } else {
        places(held.drop_last(), from).push((from + bytes(stretch(held)), held.last().note))
    }
}

impl Script {
    /// Nothing that waits is due, and the unfinished line is one.
    pub open spec fn well_formed(self) -> bool {
        &&& self.paper.unfinished.well_formed()
        &&& self.held.len() > 0 ==> self.held[0].before.len() > 0
    }

    /// The answer's text that is still ahead.
    pub open spec fn ahead(self) -> Seq<char> {
        stretch(self.held) + self.tail
    }

    /// The script once `text` has joined the stream.
    pub open spec fn streamed(self, text: Seq<char>) -> Script {
        Script { tail: self.tail + text, enqueued: self.enqueued + bytes(text), ..self }
    }

    /// The script once the session has written something of its own: at once
    /// where nothing is ahead, and behind everything that is where something
    /// is.
    #[verifier::opaque]
    pub open spec fn marked(self, note: Note) -> Script {
        if self.held.len() == 0 && self.tail.len() == 0 {
            Script { paper: self.paper.with(note), ..self }
        } else {
            Script {
                held: self.held.push(Held { before: self.tail, note }),
                tail: Seq::empty(),
                ..self
            }
        }
    }

    /// The script once a line of the session's own has been said.
    pub open spec fn said(self, line: Seq<char>) -> Script {
        self.marked(Note::Line(line))
    }

    /// The script once a line has been written at once, wherever the stream is.
    pub open spec fn interjected(self, line: Seq<char>) -> Script {
        Script { paper: self.paper.with_line(line), ..self }
    }

    /// The script once the next `count` characters have been released: they are
    /// written in pieces, and each of the session's own writes is made between
    /// the two pieces it stands between. `reopen` goes in front of the first
    /// piece: it restores what an earlier piece of the answer had switched on,
    /// and has no place in the stream itself.
    pub open spec fn released(self, reopen: Seq<char>, count: nat) -> Script
        decreases self.held.len(),
    {
        if self.held.len() == 0 {
            if count == 0 {
                self
            } else {
                Script {
                    paper: self.paper.written(reopen + self.tail.take(count as int)),
                    tail: self.tail.skip(count as int),
                    ..self
                }
            }
        } else {
            let first = self.held[0];
            if count < first.before.len() {
                if count == 0 {
                    self
                } else {
                    Script {
                        paper: self.paper.written(reopen + first.before.take(count as int)),
                        held: self.held.update(
                            0,
                            Held { before: first.before.skip(count as int), note: first.note },
                        ),
                        ..self
                    }
                }
            } else if first.before.len() == 0 {
                self.unheld(self.paper).released(reopen, count)
            } else {
                self.unheld(self.paper.written(reopen + first.before)).released(
                    Seq::empty(),
                    (count - first.before.len()) as nat,
                )
            }
        }
    }

    /// The script once the first write that waits has been made on `paper`.
    pub open spec fn unheld(self, paper: Paper) -> Script {
        Script { paper: paper.with(self.held[0].note), held: self.held.skip(1), ..self }
    }
}

/// Whether the last `count` characters of `chunk` take `consumed` bytes.
pub open spec fn carries(chunk: Seq<char>, consumed: nat, count: nat) -> bool {
    count <= chunk.len() && bytes(chunk.skip(chunk.len() - count)) == consumed
}

/// How many characters of `chunk` come from the stream: those of its last
/// `consumed` bytes. What is in front of them restores what an earlier piece
/// had switched on.
pub open spec fn carried(chunk: Seq<char>, consumed: nat) -> nat {
    choose|count: nat| carries(chunk, consumed, count)
}

/// Whether `chunk` is an emission of what is ahead: its last `consumed` bytes
/// are the text the stream goes on with.
pub open spec fn emits(script: Script, chunk: Seq<char>, consumed: nat) -> bool {
    let count = carried(chunk, consumed);
    &&& carries(chunk, consumed, count)
    &&& count <= script.ahead().len()
    &&& chunk.skip(chunk.len() - count) == script.ahead().take(count as int)
}

/// Where the writes that wait stand, and what they are.
pub open spec fn placed(marks: Seq<(usize, Mark)>) -> Seq<(nat, Note)> {
    marks.map_values(|mark: (usize, Mark)| (mark.0 as nat, mark.1@))
}

/// What the terminal is owed.
pub open spec fn owings(pending: Seq<Append>) -> Seq<Owed> {
    pending.map_values(|append: Append| append@)
}

/// There is one place for each write.
proof fn lemma_places_len(held: Seq<Held>, from: nat)
    ensures
        places(held, from).len() == held.len(),
    decreases held.len(),
{
    if held.len() > 0 {
        lemma_places_len(held.drop_last(), from);
    }
}

/// What the first of `held` stands behind is what the answer goes on with.
proof fn lemma_first(held: Seq<Held>, from: nat)
    requires
        held.len() > 0,
    ensures
        stretch(held) == held[0].before + stretch(held.skip(1)),
        places(held, from) == seq![(from + bytes(held[0].before), held[0].note)] + places(
            held.skip(1),
            from + bytes(held[0].before),
        ),
    decreases held.len(),
{
    let rest = held.skip(1);
    if held.len() == 1 {
        assert(held.drop_last() =~= Seq::empty());
        assert(rest =~= Seq::empty());
        assert(stretch(held) =~= held[0].before);
        assert(stretch(held) =~= held[0].before + stretch(rest));
        assert(places(held.drop_last(), from) =~= Seq::empty());
        assert(places(rest, from + bytes(held[0].before)) =~= Seq::empty());
        assert(held.last() == held[0]);
        assert(places(held, from) =~= seq![(from + bytes(held[0].before), held[0].note)] + places(
            rest,
            from + bytes(held[0].before),
        ));
    } else {
        let front = held.drop_last();
        lemma_first(front, from);
        assert(front.skip(1) =~= rest.drop_last());
        assert(rest.last() == held.last());
        assert(stretch(held) =~= held[0].before + stretch(rest));
        text::lemma_encode_concat(held[0].before, stretch(rest));
        assert(places(held, from) =~= seq![(from + bytes(held[0].before), held[0].note)] + places(
            rest,
            from + bytes(held[0].before),
        ));
    }
}

/// A longer text takes more bytes than a text it begins with.
proof fn lemma_longer_takes_more(short: Seq<char>, long: Seq<char>)
    requires
        short.len() < long.len(),
        short == long.take(short.len() as int),
    ensures
        bytes(short) < bytes(long),
{
    let rest = long.skip(short.len() as int);
    assert(long =~= short + rest);
    text::lemma_encode_concat(short, rest);
    encode_utf8_first_scalar(rest);
}

proof fn lemma_no_bytes()
    ensures
        bytes(Seq::<char>::empty()) == 0,
{
}

/// How far the next piece goes that is part of `count` characters: up to the
/// first write that waits, where that is among them.
pub open spec fn piece_of(script: Script, count: nat) -> nat {
    if script.held.len() > 0 && script.held[0].before.len() <= count {
        script.held[0].before.len()
    } else {
        count
    }
}

/// What is ahead once `count` characters of the first stretch are behind.
pub open spec fn advanced(script: Script, count: nat) -> (Seq<Held>, Seq<char>) {
    if script.held.len() > 0 {
        let first = script.held[0];
        (
            script.held.update(
                0,
                Held { before: first.before.skip(count as int), note: first.note },
            ),
            script.tail,
        )
    } else {
        (script.held, script.tail.skip(count as int))
    }
}

/// The next piece takes as many bytes as there are up to the first write that
/// waits, or to the end of what is released.
proof fn lemma_piece(script: Script, whole: Seq<char>)
    requires
        script.held.len() > 0 ==> script.held[0].before.len() > 0,
        0 < whole.len() <= script.ahead().len(),
        whole == script.ahead().take(whole.len() as int),
    ensures
        ({
            let cut = piece_of(script, whole.len());
            &&& 0 < cut <= whole.len()
            &&& whole.take(cut as int) == script.ahead().take(cut as int)
            &&& script.held.len() > 0 ==> {
                let room = bytes(script.held[0].before);
                &&& cut <= script.held[0].before.len()
                &&& bytes(whole.take(cut as int)) == if room < bytes(whole) {
                    room
                } else {
                    bytes(whole)
                }
            }
            &&& script.held.len() == 0 ==> cut == whole.len() && cut <= script.tail.len()
        }),
{
    let cut = piece_of(script, whole.len());
    assert(whole.take(cut as int) =~= script.ahead().take(cut as int));
    if script.held.len() > 0 {
        let before = script.held[0].before;
        lemma_first(script.held, 0);
        assert(script.ahead() =~= before + (stretch(script.held.skip(1)) + script.tail));
        if before.len() <= whole.len() {
            assert(whole.take(cut as int) =~= before);
            if before.len() < whole.len() {
                lemma_longer_takes_more(before, whole);
            } else {
                assert(whole =~= before);
            }
        } else {
            assert(whole =~= before.take(whole.len() as int));
            assert(whole.take(cut as int) =~= whole);
            lemma_longer_takes_more(whole, before);
        }
    } else {
        assert(script.ahead() =~= script.tail);
    }
}

/// Advancing moves nothing that waits.
proof fn lemma_advance(script: Script, count: nat, from: nat)
    requires
        script.held.len() > 0 ==> count <= script.held[0].before.len(),
        script.held.len() == 0 ==> count <= script.tail.len(),
    ensures
        ({
            let (held, tail) = advanced(script, count);
            let piece = script.ahead().take(count as int);
            &&& stretch(held) + tail == script.ahead().skip(count as int)
            &&& bytes(script.ahead()) == bytes(piece) + bytes(stretch(held) + tail)
            &&& places(held, from + bytes(piece)) == places(script.held, from)
        }),
{
    let (held, tail) = advanced(script, count);
    let ahead = script.ahead();
    let piece = ahead.take(count as int);
    if script.held.len() > 0 {
        let before = script.held[0].before;
        lemma_first(script.held, from);
        lemma_first(held, from + bytes(piece));
        let further = stretch(script.held.skip(1));
        assert(held.skip(1) =~= script.held.skip(1));
        assert(ahead =~= before + (further + script.tail));
        assert(piece =~= before.take(count as int));
        assert(stretch(held) + tail =~= ahead.skip(count as int));
        assert(before =~= piece + before.skip(count as int));
        text::lemma_encode_concat(piece, before.skip(count as int));
        assert(places(held, from + bytes(piece)) =~= places(script.held, from));
    } else {
        assert(ahead =~= script.tail);
        assert(stretch(held) + tail =~= ahead.skip(count as int));
        assert(places(held, from + bytes(piece)) =~= places(script.held, from));
    }
    assert(ahead =~= piece + ahead.skip(count as int));
    text::lemma_encode_concat(piece, ahead.skip(count as int));
}

/// Releasing one piece and then the rest is releasing both.
proof fn lemma_step(script: Script, reopen: Seq<char>, count: nat, next: Script)
    requires
        script.held.len() > 0 ==> script.held[0].before.len() > 0,
        0 < count <= script.ahead().len(),
        ({
            let cut = piece_of(script, count);
            next == (Script {
                paper: script.paper.written(reopen + script.ahead().take(cut as int)),
                held: advanced(script, cut).0,
                tail: advanced(script, cut).1,
                enqueued: script.enqueued,
            })
        }),
    ensures
        next.released(Seq::empty(), (count - piece_of(script, count)) as nat) == script.released(
            reopen,
            count,
        ),
{
    let cut = piece_of(script, count);
    if script.held.len() > 0 {
        let before = script.held[0].before;
        lemma_first(script.held, 0);
        assert(script.ahead() =~= before + (stretch(script.held.skip(1)) + script.tail));
        assert(script.ahead().take(cut as int) =~= before.take(cut as int));
        if before.len() <= count {
            assert(before.take(cut as int) =~= before);
            assert(next.held.skip(1) =~= script.held.skip(1));
            assert(next.held[0].before.len() == 0);
            let written = script.paper.written(reopen + before);
            assert(next.unheld(next.paper) == script.unheld(written));
        }
    } else {
        assert(script.ahead() =~= script.tail);
    }
}

/// The document a session writes above its band.
pub struct Document {
    transcript: Transcript,
    pending: Vec<Append>,
    frame: bool,
    /// The session's own writes that wait, each with the number of bytes of
    /// answer that were in front of it.
    marks: VecDeque<(usize, Mark)>,
    /// How many bytes of answer have ever been taken in.
    enqueued: usize,
    /// How many of them have been written.
    emitted: usize,
    held: Ghost<Seq<Held>>,
    tail: Ghost<Seq<char>>,
}

impl View for Document {
    type V = Script;

    closed spec fn view(&self) -> Script {
        Script {
            paper: Paper {
                unfinished: self.transcript@,
                owed: owings(self.pending@),
                frame: self.frame,
            },
            held: self.held@,
            tail: self.tail@,
            enqueued: self.enqueued as nat,
        }
    }
}

impl Document {
    /// The positions say where each write stands among what is ahead.
    closed spec fn measured(&self) -> bool {
        &&& self.transcript@.well_formed()
        &&& placed(self.marks@) == places(self.held@, self.emitted as nat)
        &&& self.enqueued == self.emitted + bytes(stretch(self.held@) + self.tail@)
    }

    /// A document whose positions are right and where nothing is due.
    pub closed spec fn well_formed(&self) -> bool {
        &&& self.measured()
        &&& self.held@.len() > 0 ==> self.held@[0].before.len() > 0
    }

    /// An empty document, wrapped to `cols`.
    pub fn new(cols: u16) -> (document: Self)
        ensures
            document@ == (Script {
                paper: Paper {
                    unfinished: Unfinished {
                        cols,
                        tail: Seq::empty(),
                        painted: 0,
                        split_crlf: false,
                    },
                    owed: Seq::empty(),
                    frame: false,
                },
                held: Seq::empty(),
                tail: Seq::empty(),
                enqueued: 0,
            }),
            document.well_formed(),
            document@.well_formed(),
    {
        let document = Document {
            transcript: Transcript::new(cols),
            pending: Vec::new(),
            frame: false,
            marks: VecDeque::new(),
            enqueued: 0,
            emitted: 0,
            held: Ghost(Seq::empty()),
            tail: Ghost(Seq::empty()),
        };
        proof {
            assert(owings(document.pending@) =~= Seq::empty());
            assert(placed(document.marks@) =~= Seq::empty());
            assert(stretch(document.held@) + document.tail@ =~= Seq::empty());
            lemma_no_bytes();
        }
        document
    }

    /// Queues a write, unless it would write nothing.
    fn owe(&mut self, append: Append)
        ensures
            final(self)@.paper == old(self)@.paper.owing(append@),
            final(self)@.held == old(self)@.held,
            final(self)@.tail == old(self)@.tail,
            final(self)@.enqueued == old(self)@.enqueued,
            old(self).measured() ==> final(self).measured(),
            old(self).well_formed() ==> final(self).well_formed(),
            final(self).marks == old(self).marks,
            final(self).emitted == old(self).emitted,
            final(self).transcript == old(self).transcript,
    {
        proof {
            assert(append@.rows.len() == append.rows@.len());
        }
        if append.scroll == 0 && append.rows.len() == 0 {
            return;
        }
        self.pending.push(append);
        self.frame = true;
        proof {
            assert(owings(self.pending@) =~= owings(old(self).pending@).push(append@));
        }
    }

    /// Writes text into the document's line.
    pub fn write_transcript(&mut self, text: &str)
        requires
            old(self).well_formed(),
        ensures
            final(self)@ == (Script {
                paper: old(self)@.paper.written(text@),
                ..old(self)@
            }),
            final(self).well_formed(),
    {
        self.put(text);
    }

    fn put(&mut self, text: &str)
        requires
            old(self).measured(),
        ensures
            final(self)@.paper == old(self)@.paper.written(text@),
            final(self)@.held == old(self)@.held,
            final(self)@.tail == old(self)@.tail,
            final(self)@.enqueued == old(self)@.enqueued,
            final(self).measured(),
            old(self).well_formed() ==> final(self).well_formed(),
            final(self).marks == old(self).marks,
            final(self).emitted == old(self).emitted,
    {
        let append: Append = self.transcript.push(text);
        self.owe(append);
    }

    /// Ends the document's line, leaving it there.
    pub fn end_transcript_line(&mut self)
        requires
            old(self).well_formed(),
        ensures
            final(self)@ == (Script { paper: old(self)@.paper.ended(), ..old(self)@ }),
            final(self).well_formed(),
    {
        self.end();
    }

    fn end(&mut self)
        requires
            old(self).measured(),
        ensures
            final(self)@.paper == old(self)@.paper.ended(),
            final(self)@.held == old(self)@.held,
            final(self)@.tail == old(self)@.tail,
            final(self)@.enqueued == old(self)@.enqueued,
            final(self).measured(),
            old(self).well_formed() ==> final(self).well_formed(),
            final(self).marks == old(self).marks,
            final(self).emitted == old(self).emitted,
    {
        let append: Append = self.transcript.end_line();
        self.owe(append);
    }

    /// Ends the document's line where one has begun. A document that stands at
    /// the start of a line would otherwise be given a blank row.
    fn finish_document_line(&mut self)
        requires
            old(self).measured(),
        ensures
            final(self)@.paper == old(self)@.paper.finished(),
            final(self)@.held == old(self)@.held,
            final(self)@.tail == old(self)@.tail,
            final(self)@.enqueued == old(self)@.enqueued,
            final(self).measured(),
            old(self).well_formed() ==> final(self).well_formed(),
            final(self).marks == old(self).marks,
            final(self).emitted == old(self).emitted,
    {
        if self.transcript.tail_rows() > 0 {
            self.end();
        }
    }

    fn put_line(&mut self, line: &str)
        requires
            old(self).measured(),
        ensures
            final(self)@.paper == old(self)@.paper.with_line(line@),
            final(self)@.held == old(self)@.held,
            final(self)@.tail == old(self)@.tail,
            final(self)@.enqueued == old(self)@.enqueued,
            final(self).measured(),
            old(self).well_formed() ==> final(self).well_formed(),
            final(self).marks == old(self).marks,
            final(self).emitted == old(self).emitted,
    {
        self.finish_document_line();
        self.put(line);
        self.end();
    }

    /// Puts one whole line into the document at once, on rows of its own,
    /// wherever the stream is. What the answer had open is closed first.
    pub fn write_document_line(&mut self, line: &str)
        requires
            old(self).well_formed(),
        ensures
            final(self)@ == old(self)@.interjected(line@),
            final(self).well_formed(),
    {
        self.put_line(line);
    }

    fn run_mark(&mut self, mark: Mark)
        requires
            old(self).measured(),
        ensures
            final(self)@.paper == old(self)@.paper.with(mark@),
            final(self)@.held == old(self)@.held,
            final(self)@.tail == old(self)@.tail,
            final(self)@.enqueued == old(self)@.enqueued,
            final(self).measured(),
            old(self).well_formed() ==> final(self).well_formed(),
            final(self).marks == old(self).marks,
            final(self).emitted == old(self).emitted,
    {
        match mark {
            Mark::Line(line) => self.put_line(line.as_str()),
            Mark::EndOfLine => self.finish_document_line(),
        }
    }

    /// Adds answer text to the stream.
    pub fn stream(&mut self, text: &str)
        requires
            old(self).well_formed(),
            old(self)@.enqueued + bytes(text@) <= usize::MAX,
        ensures
            final(self)@ == old(self)@.streamed(text@),
            final(self).well_formed(),
    {
        let ghost before = self.tail@;
        self.enqueued = self.enqueued.saturating_add(text.as_bytes().len());
        self.tail = Ghost(before + text@);
        proof {
            let front = stretch(self.held@) + before;
            assert(stretch(self.held@) + self.tail@ =~= front + text@);
            text::lemma_encode_concat(front, text@);
        }
    }

    /// Makes one of the session's own writes, in the place the stream has
    /// reached.
    pub fn mark(&mut self, mark: Mark)
        requires
            old(self).well_formed(),
        ensures
            final(self)@ == old(self)@.marked(mark@),
            final(self).well_formed(),
    {
        let ghost held = self.held@;
        let ghost tail = self.tail@;
        let ghost ahead = stretch(held) + tail;
        proof {
            reveal(Script::marked);
            assert(placed(self.marks@).len() == self.marks@.len());
            lemma_places_len(held, self.emitted as nat);
            lemma_no_bytes();
            if held.len() == 0 {
                assert(ahead =~= tail);
            }
            if ahead.len() > 0 {
                assert(ahead.take(0) =~= Seq::empty());
                lemma_longer_takes_more(Seq::empty(), ahead);
            } else {
                assert(ahead =~= Seq::empty());
            }
        }
        if self.enqueued == self.emitted && self.marks.len() == 0 {
            self.run_mark(mark);
            return;
        }
        let ghost old_marks = self.marks@;
        self.marks.push_back((self.enqueued, mark));
        self.held = Ghost(held.push(Held { before: tail, note: mark@ }));
        self.tail = Ghost(Seq::empty());
        proof {
            let now = self.held@;
            assert(now.drop_last() =~= held);
            assert(stretch(now) == ahead);
            assert(stretch(now) + self.tail@ =~= ahead);
            assert(placed(self.marks@) =~= placed(old_marks).push(
                (self.enqueued as nat, mark@),
            ));
            if held.len() > 0 {
                assert(now[0] == held[0]);
            }
        }
    }

    /// Says one of the session's own lines, in the place the stream has
    /// reached.
    pub fn say(&mut self, line: &str)
        requires
            old(self).well_formed(),
        ensures
            final(self)@ == old(self)@.said(line@),
            final(self).well_formed(),
    {
        self.mark(Mark::Line(line.to_owned()));
    }

    /// Makes the writes that are due. A write is due once everything in front
    /// of it has been released.
    fn run_due_marks(&mut self, Ghost(reopen): Ghost<Seq<char>>, Ghost(count): Ghost<nat>)
        requires
            old(self).measured(),
        ensures
            final(self)@.released(reopen, count) == old(self)@.released(reopen, count),
            final(self)@.ahead() == old(self)@.ahead(),
            final(self)@.enqueued == old(self)@.enqueued,
            final(self).well_formed(),
            final(self).emitted == old(self).emitted,
    {
        let ghost before = self@;
        proof {
            assert(placed(self.marks@).len() == self.marks@.len());
            lemma_places_len(self.held@, self.emitted as nat);
        }
        while self.marks.len() > 0 && self.marks[0].0 <= self.emitted
            invariant
                self.measured(),
                self.marks@.len() == self.held@.len(),
                self@.released(reopen, count) == before.released(reopen, count),
                self@.ahead() == before.ahead(),
                self@.enqueued == before.enqueued,
                self.emitted == old(self).emitted,
            decreases self.marks@.len(),
        {
            let ghost held = self.held@;
            let ghost marks = self.marks@;
            let ghost now = self@;
            proof {
                lemma_first(held, self.emitted as nat);
                assert(placed(marks)[0] == (marks[0].0 as nat, marks[0].1@));
                let empty = Seq::<char>::empty();
                lemma_no_bytes();
                if held[0].before.len() > 0 {
                    assert(empty =~= held[0].before.take(0));
                    lemma_longer_takes_more(empty, held[0].before);
                }
                assert(held[0].before =~= empty);
                assert(held[0].note == marks[0].1@);
            }
            match self.marks.pop_front() {
                Some((_, mark)) => {
                    self.held = Ghost(held.skip(1));
                    proof {
                        assert(placed(self.marks@) =~= placed(marks).skip(1));
                        assert(places(held, self.emitted as nat).skip(1) =~= places(
                            held.skip(1),
                            self.emitted as nat,
                        ));
                        assert(stretch(held.skip(1)) =~= stretch(held));
                    }
                    self.run_mark(mark);
                    proof {
                        assert(self@ == now.unheld(now.paper));
                    }
                },
                None => {},
            }
        }
        proof {
            if self.held@.len() > 0 {
                lemma_first(self.held@, self.emitted as nat);
                assert(placed(self.marks@)[0] == (self.marks@[0].0 as nat, self.marks@[0].1@));
                lemma_no_bytes();
                if self.held@[0].before.len() == 0 {
                    assert(self.held@[0].before =~= Seq::empty());
                }
            }
        }
    }

    /// Writes the next piece of an emission, and says what is left of it.
    fn emit_piece<'a>(&mut self, reopen: &str, body: &'a str) -> (further: &'a str)
        requires
            old(self).well_formed(),
            0 < body@.len() <= old(self)@.ahead().len(),
            body@ == old(self)@.ahead().take(body@.len() as int),
        ensures
            final(self).measured(),
            further@.len() < body@.len(),
            further@.len() <= final(self)@.ahead().len(),
            further@ == final(self)@.ahead().take(further@.len() as int),
            final(self)@.released(Seq::empty(), further@.len()) == old(self)@.released(
                reopen@,
                body@.len(),
            ),
    {
        let ghost now = self@;
        let ghost whole = body@;
        let ghost cut = piece_of(now, whole.len());
        let left: usize = body.as_bytes().len();
        proof {
            lemma_piece(now, whole);
            lemma_advance(now, cut, self.emitted as nat);
            lemma_places_len(self.held@, self.emitted as nat);
            assert(placed(self.marks@).len() == self.marks@.len());
            assert(whole =~= whole.take(cut as int) + whole.skip(cut as int));
            if self.held@.len() > 0 {
                lemma_first(self.held@, self.emitted as nat);
                assert(placed(self.marks@)[0].0 == self.marks@[0].0 as nat);
            } else {
                assert(whole.take(cut as int) =~= whole);
            }
        }
        let room: usize = if self.marks.len() > 0 {
            self.marks[0].0.saturating_sub(self.emitted)
        } else {
            left
        };
        let size: usize = if room < left {
            room
        } else {
            left
        };
        let (piece, further) = text::parted(
            body,
            size,
            Ghost(whole.take(cut as int)),
            Ghost(whole.skip(cut as int)),
        );
        let mut text: String = reopen.to_owned();
        text.append(piece);
        self.emitted = self.emitted.saturating_add(size);
        self.held = Ghost(advanced(now, cut).0);
        self.tail = Ghost(advanced(now, cut).1);
        self.put(text.as_str());
        proof {
            assert(text@ =~= reopen@ + now.ahead().take(cut as int));
            lemma_step(now, reopen@, whole.len(), self@);
            assert(further@ =~= self@.ahead().take(further@.len() as int));
        }
        further
    }

    /// Puts one emission of the stream into the document, stopping at every
    /// write of the session's own that it crosses.
    ///
    /// `consumed` counts the bytes of the stream it carries, which is not its
    /// length: it may begin with what an earlier emission left switched on.
    pub fn release(&mut self, chunk: &str, consumed: usize)
        requires
            old(self).well_formed(),
            emits(old(self)@, chunk@, consumed as nat),
        ensures
            final(self)@ == old(self)@.released(
                chunk@.take(chunk@.len() - carried(chunk@, consumed as nat)),
                carried(chunk@, consumed as nat),
            ),
            final(self).well_formed(),
    {
        let ghost before = self@;
        let ghost total = carried(chunk@, consumed as nat);
        let ghost front = chunk@.take(chunk@.len() - total);
        let ghost back = chunk@.skip(chunk@.len() - total);
        proof {
            assert(chunk@ =~= front + back);
            text::lemma_encode_concat(front, back);
        }
        let size: usize = chunk.as_bytes().len();
        let (reopen, rest) = text::parted(
            chunk,
            size.saturating_sub(consumed),
            Ghost(front),
            Ghost(back),
        );
        let mut reopen: &str = reopen;
        let mut body: &str = rest;
        loop
            invariant
                self.measured(),
                body@.len() <= self@.ahead().len(),
                body@ == self@.ahead().take(body@.len() as int),
                self@.released(reopen@, body@.len()) == before.released(front, total),
            ensures
                self.well_formed(),
                self@ == before.released(front, total),
            decreases body@.len(),
        {
            self.run_due_marks(Ghost(reopen@), Ghost(body@.len()));
            if body.is_empty() {
                break;
            }
            body = self.emit_piece(reopen, body);
            reopen = "";
            proof {
                reveal_strlit("");
                assert(reopen@ =~= Seq::empty());
            }
        }
    }

    /// How many bytes of answer are still ahead.
    pub fn paced_backlog(&self) -> (count: usize)
        requires
            self.well_formed(),
        ensures
            count == bytes(self@.ahead()),
    {
        self.enqueued - self.emitted
    }

    /// How many bytes of answer have ever been taken in.
    pub fn enqueued(&self) -> (count: usize)
        ensures
            count == self@.enqueued,
    {
        self.enqueued
    }

    /// Takes the writes the terminal is owed, oldest first.
    pub fn take_pending(&mut self) -> (pending: Vec<Append>)
        requires
            old(self).well_formed(),
        ensures
            owings(pending@) == old(self)@.paper.owed,
            final(self)@ == (Script {
                paper: Paper { owed: Seq::empty(), ..old(self)@.paper },
                ..old(self)@
            }),
            final(self).well_formed(),
    {
        let mut pending: Vec<Append> = Vec::new();
        pending.append(&mut self.pending);
        proof {
            assert(pending@ =~= old(self).pending@);
            assert(owings(self.pending@) =~= Seq::empty());
        }
        pending
    }

    /// Gives back writes that were taken and not made. They go ahead of
    /// anything owed since, which is where they were.
    pub fn restore_pending(&mut self, untried: Vec<Append>)
        requires
            old(self).well_formed(),
        ensures
            final(self)@ == (Script {
                paper: Paper {
                    owed: owings(untried@) + old(self)@.paper.owed,
                    ..old(self)@.paper
                },
                ..old(self)@
            }),
            final(self).well_formed(),
    {
        let mut all: Vec<Append> = untried;
        all.append(&mut self.pending);
        self.pending = all;
        proof {
            assert(self.pending@ =~= untried@ + old(self).pending@);
            assert(owings(self.pending@) =~= owings(untried@) + owings(old(self).pending@));
        }
    }

    /// Whether a write has been queued since this was last asked.
    pub fn take_frame(&mut self) -> (frame: bool)
        requires
            old(self).well_formed(),
        ensures
            frame == old(self)@.paper.frame,
            final(self)@ == (Script {
                paper: Paper { frame: false, ..old(self)@.paper },
                ..old(self)@
            }),
            final(self).well_formed(),
    {
        let frame: bool = self.frame;
        self.frame = false;
        frame
    }

    /// Forgets everything: what is owed, what is ahead, and the line that had
    /// begun. Nothing said afterwards waits for text that will never come.
    pub fn clear(&mut self, cols: u16)
        requires
            old(self).well_formed(),
        ensures
            final(self)@ == (Script {
                paper: Paper {
                    unfinished: Unfinished {
                        cols,
                        tail: Seq::empty(),
                        painted: 0,
                        split_crlf: false,
                    },
                    owed: Seq::empty(),
                    frame: old(self)@.paper.frame,
                },
                held: Seq::empty(),
                tail: Seq::empty(),
                enqueued: old(self)@.enqueued,
            }),
            final(self).well_formed(),
    {
        self.pending.clear();
        self.transcript = Transcript::new(cols);
        self.marks.clear();
        self.held = Ghost(Seq::empty());
        self.tail = Ghost(Seq::empty());
        self.emitted = self.enqueued;
        proof {
            assert(owings(self.pending@) =~= Seq::empty());
            assert(placed(self.marks@) =~= Seq::empty());
            assert(stretch(self.held@) + self.tail@ =~= Seq::empty());
            lemma_no_bytes();
        }
    }

    /// Wraps the line that has begun to another width. Finished rows are the
    /// terminal's own.
    pub fn resize_unfinished(&mut self, cols: u16)
        requires
            old(self).well_formed(),
        ensures
            final(self)@ == (Script {
                paper: Paper {
                    unfinished: old(self)@.paper.unfinished.rewrapped(cols),
                    ..old(self)@.paper
                },
                ..old(self)@
            }),
            final(self).well_formed(),
    {
        self.transcript.resize_unfinished(cols);
    }
}

/// One thing a release does to the document.
pub enum Act {
    /// Writes a piece of the answer.
    Text(Seq<char>),
    /// Makes one of the session's own writes.
    Own(Note),
}

/// The document once `acts` have been done to it.
pub open spec fn performed(paper: Paper, acts: Seq<Act>) -> Paper
    decreases acts.len(),
{
    if acts.len() == 0 {
        paper
    } else {
        match acts[0] {
            Act::Text(text) => performed(paper.written(text), acts.skip(1)),
            Act::Own(note) => performed(paper.with(note), acts.skip(1)),
        }
    }
}

/// The answer's text among `acts`.
pub open spec fn words(acts: Seq<Act>) -> Seq<char>
    decreases acts.len(),
{
    if acts.len() == 0 {
        Seq::empty()
    } else {
        match acts[0] {
            Act::Text(text) => text + words(acts.skip(1)),
            Act::Own(_) => words(acts.skip(1)),
        }
    }
}

/// The session's own writes among `acts`.
pub open spec fn owns(acts: Seq<Act>) -> Seq<Note>
    decreases acts.len(),
{
    if acts.len() == 0 {
        Seq::empty()
    } else {
        match acts[0] {
            Act::Text(_) => owns(acts.skip(1)),
            Act::Own(note) => seq![note] + owns(acts.skip(1)),
        }
    }
}

impl Script {
    /// What releasing `count` characters does, act by act.
    pub open spec fn acts(self, reopen: Seq<char>, count: nat) -> Seq<Act>
        decreases self.held.len(),
    {
        if self.held.len() == 0 {
            if count == 0 {
                Seq::empty()
            } else {
                seq![Act::Text(reopen + self.tail.take(count as int))]
            }
        } else {
            let first = self.held[0];
            if count < first.before.len() {
                if count == 0 {
                    Seq::empty()
                } else {
                    seq![Act::Text(reopen + first.before.take(count as int))]
                }
            } else if first.before.len() == 0 {
                seq![Act::Own(first.note)] + self.unheld(self.paper).acts(reopen, count)
            } else {
                seq![Act::Text(reopen + first.before), Act::Own(first.note)] + self.unheld(
                    self.paper.written(reopen + first.before),
                ).acts(Seq::empty(), (count - first.before.len()) as nat)
            }
        }
    }
}

/// What a release leaves of the document is what its acts do to it.
#[verifier::rlimit(30)]
pub proof fn law_a_release_is_its_acts(script: Script, reopen: Seq<char>, count: nat)
    ensures
        script.released(reopen, count).paper == performed(
            script.paper,
            script.acts(reopen, count),
        ),
    decreases script.held.len(),
{
    let acts = script.acts(reopen, count);
    if acts.len() == 1 {
        assert(performed(script.paper.written(acts[0]->Text_0), acts.skip(1)) == script.paper.written(
            acts[0]->Text_0,
        )) by {
            assert(acts.skip(1) =~= Seq::empty());
        }
    }
    if script.held.len() > 0 {
        let first = script.held[0];
        if count < first.before.len() {
        } else if first.before.len() == 0 {
            let next = script.unheld(script.paper);
            law_a_release_is_its_acts(next, reopen, count);
            assert(acts.skip(1) =~= next.acts(reopen, count));
        } else {
            let next = script.unheld(script.paper.written(reopen + first.before));
            let less = (count - first.before.len()) as nat;
            law_a_release_is_its_acts(next, Seq::empty(), less);
            assert(acts.skip(1).skip(1) =~= next.acts(Seq::empty(), less));
            assert(acts.skip(1)[0] == Act::Own(first.note));
            assert(performed(script.paper, acts) == performed(
                script.paper.written(reopen + first.before),
                acts.skip(1),
            ));
        }
    }
}

proof fn lemma_words_concat(a: Seq<Act>, b: Seq<Act>)
    ensures
        words(a + b) == words(a) + words(b),
        owns(a + b) == owns(a) + owns(b),
    decreases a.len(),
{
    if a.len() == 0 {
        assert(a + b =~= b);
        assert(words(a) + words(b) =~= words(b));
        assert(owns(a) + owns(b) =~= owns(b));
    } else {
        assert((a + b).skip(1) =~= a.skip(1) + b);
        assert((a + b)[0] == a[0]);
        lemma_words_concat(a.skip(1), b);
        assert(words(a + b) =~= words(a) + words(b));
        assert(owns(a + b) =~= owns(a) + owns(b));
    }
}

proof fn lemma_words_one(act: Act)
    ensures
        words(seq![act]) == (match act {
            Act::Text(text) => text,
            Act::Own(_) => Seq::empty(),
        }),
        owns(seq![act]) == (match act {
            Act::Text(_) => Seq::empty(),
            Act::Own(note) => seq![note],
        }),
{
    reveal_with_fuel(words, 2);
    reveal_with_fuel(owns, 2);
    let one = seq![act];
    assert(one.skip(1) =~= Seq::empty());
    match act {
        Act::Text(text) => {
            assert(words(one) =~= text);
        },
        Act::Own(note) => {
            assert(owns(one) =~= seq![note]);
        },
    }
}

/// The answer is written once: what the acts of a release write is the text
/// that was released, behind what they reopen.
#[verifier::rlimit(30)]
pub proof fn law_no_text_is_lost_or_repeated(script: Script, reopen: Seq<char>, count: nat)
    requires
        count <= script.ahead().len(),
    ensures
        words(script.acts(reopen, count)) == (if count == 0 {
            Seq::empty()
        } else {
            reopen + script.ahead().take(count as int)
        }),
        script.released(reopen, count).ahead() == script.ahead().skip(count as int),
    decreases script.held.len(),
{
    let acts = script.acts(reopen, count);
    let ahead = script.ahead();
    if script.held.len() == 0 {
        assert(ahead =~= script.tail);
        if count > 0 {
            lemma_words_one(acts[0]);
            assert(acts =~= seq![acts[0]]);
        }
        assert(script.released(reopen, count).ahead() =~= ahead.skip(count as int));
    } else {
        let first = script.held[0];
        let rest = script.held.skip(1);
        lemma_first(script.held, 0);
        assert(ahead =~= first.before + (stretch(rest) + script.tail));
        if count < first.before.len() {
            if count > 0 {
                lemma_words_one(acts[0]);
                assert(acts =~= seq![acts[0]]);
                assert(ahead.take(count as int) =~= first.before.take(count as int));
                lemma_advance(script, count, 0);
            } else {
                assert(ahead.skip(0) =~= ahead);
            }
        } else if first.before.len() == 0 {
            let next = script.unheld(script.paper);
            law_no_text_is_lost_or_repeated(next, reopen, count);
            lemma_words_concat(seq![Act::Own(first.note)], next.acts(reopen, count));
            lemma_words_one(Act::Own(first.note));
            assert(next.ahead() =~= ahead);
            assert(words(acts) =~= words(next.acts(reopen, count)));
        } else {
            let next = script.unheld(script.paper.written(reopen + first.before));
            let less = (count - first.before.len()) as nat;
            let empty = Seq::<char>::empty();
            law_no_text_is_lost_or_repeated(next, empty, less);
            let text = Act::Text(reopen + first.before);
            let own = Act::Own(first.note);
            lemma_words_one(text);
            lemma_words_one(own);
            lemma_words_concat(seq![text], seq![own]);
            assert(seq![text] + seq![own] =~= seq![text, own]);
            lemma_words_concat(seq![text, own], next.acts(empty, less));
            assert(next.ahead() =~= ahead.skip(first.before.len() as int));
            assert(ahead.take(count as int) =~= first.before + next.ahead().take(less as int));
            assert(next.ahead().skip(less as int) =~= ahead.skip(count as int));
            assert(words(acts) =~= reopen + ahead.take(count as int));
        }
    }
}

/// Where the `index`th write that waits is made by a release that reaches it.
proof fn lemma_made_at(script: Script, reopen: Seq<char>, count: nat, index: int) -> (at: int)
    requires
        0 <= index < script.held.len(),
        stretch(script.held.take(index + 1)).len() <= count,
    ensures
        ({
            let acts = script.acts(reopen, count);
            let text = stretch(script.held.take(index + 1));
            &&& 0 <= at < acts.len()
            &&& acts[at] == Act::Own(script.held[index].note)
            &&& owns(acts.take(at)).len() == index
            &&& words(acts.take(at)) == (if text.len() == 0 {
                Seq::empty()
            } else {
                reopen + text
            })
        }),
    decreases script.held.len(),
{
    let acts = script.acts(reopen, count);
    let first = script.held[0];
    let rest = script.held.skip(1);
    let some = script.held.take(index + 1);
    lemma_first(some, 0);
    assert(some.skip(1) =~= rest.take(index));
    assert(some[0] == first);
    let text = stretch(some);
    assert(text =~= first.before + stretch(rest.take(index)));
    if first.before.len() == 0 {
        let next = script.unheld(script.paper);
        let own = Act::Own(first.note);
        if index == 0 {
            assert(rest.take(0) =~= Seq::empty());
            assert(acts.take(0) =~= Seq::empty());
            assert(words(acts.take(0)) =~= Seq::empty());
            0
        } else {
            assert(text =~= stretch(rest.take(index)));
            let at = lemma_made_at(next, reopen, count, index - 1);
            let inner = next.acts(reopen, count);
            assert(acts.take(at + 1) =~= seq![own] + inner.take(at));
            lemma_words_concat(seq![own], inner.take(at));
            lemma_words_one(own);
            assert(words(acts.take(at + 1)) =~= words(inner.take(at)));
            at + 1
        }
    } else {
        let next = script.unheld(script.paper.written(reopen + first.before));
        let less = (count - first.before.len()) as nat;
        let empty = Seq::<char>::empty();
        let inner = next.acts(empty, less);
        let piece = Act::Text(reopen + first.before);
        let own = Act::Own(first.note);
        lemma_words_one(piece);
        lemma_words_one(own);
        if index == 0 {
            assert(rest.take(0) =~= Seq::empty());
            assert(acts.take(1) =~= seq![piece]);
            assert(text =~= first.before);
            1
        } else {
            let at = lemma_made_at(next, empty, less, index - 1);
            assert(acts.take(at + 2) =~= seq![piece, own] + inner.take(at));
            assert(seq![piece, own] =~= seq![piece] + seq![own]);
            lemma_words_concat(seq![piece], seq![own]);
            lemma_words_concat(seq![piece, own], inner.take(at));
            assert(words(acts.take(at + 2)) =~= reopen + text);
            at + 2
        }
    }
}

/// A line of the session's own lands where it was said: behind exactly the
/// text that was in front of it then, and behind exactly the lines said before
/// it, wherever the clock cuts the stream.
pub proof fn law_a_line_lands_where_it_was_said(
    script: Script,
    reopen: Seq<char>,
    count: nat,
    index: int,
)
    requires
        script.well_formed(),
        0 <= index < script.held.len(),
        stretch(script.held.take(index + 1)).len() <= count,
    ensures
        ({
            let acts = script.acts(reopen, count);
            exists|at: int|
                0 <= at < acts.len() && #[trigger] acts[at] == Act::Own(script.held[index].note)
                    && owns(acts.take(at)).len() == index && words(acts.take(at)) == reopen
                    + stretch(script.held.take(index + 1))
        }),
{
    let at = lemma_made_at(script, reopen, count, index);
    let some = script.held.take(index + 1);
    lemma_first(some, 0);
    assert(stretch(some).len() > 0);
    assert(script.acts(reopen, count)[at] == Act::Own(script.held[index].note));
}

/// The next `count` characters of what is ahead, behind whatever reopens what
/// was switched on, are an emission that carries just those.
pub proof fn law_what_is_next_is_an_emission(script: Script, reopen: Seq<char>, count: nat)
    requires
        count <= script.ahead().len(),
    ensures
        ({
            let next = script.ahead().take(count as int);
            &&& emits(script, reopen + next, bytes(next))
            &&& carried(reopen + next, bytes(next)) == count
        }),
{
    let next = script.ahead().take(count as int);
    let chunk = reopen + next;
    assert(chunk.skip(chunk.len() - count) =~= next);
    assert(carries(chunk, bytes(next), count));
    let other = carried(chunk, bytes(next));
    let far = chunk.skip(chunk.len() - other);
    if other < count {
        let between = next.take(count - other);
        assert(next =~= between + far);
        text::lemma_encode_concat(between, far);
        encode_utf8_first_scalar(between);
    } else if other > count {
        let between = far.take(other - count);
        assert(far =~= between + next);
        text::lemma_encode_concat(between, next);
        encode_utf8_first_scalar(between);
    }
}

/// An emission that takes as many bytes as are ahead takes everything that is.
pub proof fn lemma_all_of_it(script: Script, chunk: Seq<char>)
    requires
        emits(script, chunk, bytes(script.ahead())),
    ensures
        carried(chunk, bytes(script.ahead())) == script.ahead().len(),
        forall|reopen: Seq<char>|
            (#[trigger] script.released(reopen, script.ahead().len())).held.len() == 0
                && script.released(reopen, script.ahead().len()).tail.len() == 0,
{
    let ahead = script.ahead();
    let count = carried(chunk, bytes(ahead));
    if count < ahead.len() {
        lemma_longer_takes_more(ahead.take(count as int), ahead);
    }
    assert forall|reopen: Seq<char>|
        (#[trigger] script.released(reopen, ahead.len())).held.len() == 0 && script.released(
            reopen,
            ahead.len(),
        ).tail.len() == 0 by {
        law_releasing_all_leaves_nothing(script, reopen);
    }
}

/// Where no text is ahead, nothing waits at all.
pub proof fn lemma_nothing_ahead(document: &Document)
    requires
        document.well_formed(),
        document@.ahead().len() == 0,
    ensures
        document@.held.len() == 0,
        document@.tail.len() == 0,
{
    if document@.held.len() > 0 {
        lemma_first(document@.held, 0);
    }
}

/// Once everything has been released, nothing waits: no text and no line of the
/// session's own is left behind.
pub proof fn law_releasing_all_leaves_nothing(script: Script, reopen: Seq<char>)
    ensures
        script.released(reopen, script.ahead().len()).held.len() == 0,
        script.released(reopen, script.ahead().len()).tail.len() == 0,
    decreases script.held.len(),
{
    if script.held.len() > 0 {
        let first = script.held[0];
        lemma_first(script.held, 0);
        let next = if first.before.len() == 0 {
            script.unheld(script.paper)
        } else {
            script.unheld(script.paper.written(reopen + first.before))
        };
        assert(next.ahead().len() == script.ahead().len() - first.before.len());
        if first.before.len() == 0 {
            law_releasing_all_leaves_nothing(next, reopen);
        } else {
            law_releasing_all_leaves_nothing(next, Seq::empty());
        }
    }
}

/// What joins the stream is ahead of the document, behind everything that is, and
/// is counted; what waits and what was written stay.
pub proof fn law_what_is_streamed_is_ahead(script: Script, text: Seq<char>)
    ensures
        script.streamed(text).ahead() == script.ahead() + text,
        script.streamed(text).enqueued == script.enqueued + bytes(text),
        script.streamed(text).paper == script.paper,
        script.streamed(text).held == script.held,
{
    assert(script.streamed(text).ahead() =~= script.ahead() + text);
}

/// A line of the session's own is written at once where nothing is ahead of the
/// document, and waits behind everything that is where something is; no text is
/// lost either way. One that answers a key is written at once wherever the stream
/// is, and moves nothing that waits.
pub proof fn law_a_line_waits_for_what_is_ahead(script: Script, line: Seq<char>)
    ensures
        script.said(line) == script.marked(Note::Line(line)),
        script.held.len() == 0 && script.tail.len() == 0 ==> {
            &&& script.said(line).paper == script.paper.with_line(line)
            &&& script.said(line).held.len() == 0
            &&& script.said(line).tail.len() == 0
            &&& script.marked(Note::EndOfLine).paper == script.paper.finished()
        },
        script.held.len() > 0 || script.tail.len() > 0 ==> {
            &&& script.said(line).paper == script.paper
            &&& script.said(line).held == script.held.push(
                Held { before: script.tail, note: Note::Line(line) },
            )
            &&& script.said(line).tail.len() == 0
            &&& script.marked(Note::EndOfLine).paper == script.paper
            &&& script.marked(Note::EndOfLine).held == script.held.push(
                Held { before: script.tail, note: Note::EndOfLine },
            )
        },
        script.said(line).ahead() == script.ahead(),
        script.said(line).enqueued == script.enqueued,
        script.interjected(line).paper == script.paper.with_line(line),
        script.interjected(line).held == script.held,
        script.interjected(line).tail == script.tail,
        script.interjected(line).enqueued == script.enqueued,
{
    reveal(Script::marked);
    let after = script.said(line);
    if script.held.len() > 0 || script.tail.len() > 0 {
        assert(after.held.drop_last() =~= script.held);
        assert(after.ahead() =~= script.ahead());
    }
}

/// A line without breaks is written on rows of its own: the terminal is owed its
/// rows, and one row more of screen for each of them, behind everything it was
/// owed; the line that was unfinished is ended and left as it is, and nothing is
/// unfinished afterwards.
pub proof fn law_a_line_has_rows_of_its_own(paper: Paper, line: Seq<char>)
    requires
        paper.unfinished.well_formed(),
        crate::tui::transcript::unbroken(line),
        line.len() > 0,
    ensures
        ({
            let rows = crate::tui::transcript::row_texts(line, paper.unfinished.cols);
            let after = paper.with_line(line);
            &&& after.owed == paper.owed.push(Owed { scroll: rows.len(), rows })
            &&& after.frame
            &&& after.unfinished.tail.len() == 0
            &&& after.unfinished.painted == 0
            &&& after.unfinished.cols == paper.unfinished.cols
        }),
{
    let cols = paper.unfinished.cols;
    let rows = crate::tui::transcript::row_texts(line, cols);
    let fresh = paper.finished();
    crate::tui::transcript::law_an_ended_line_stays(paper.unfinished, cols);
    crate::tui::transcript::law_lines_have_their_own_rows(line, Seq::empty(), Seq::empty(), cols);
    assert(fresh.owed == paper.owed);
    assert(fresh.unfinished.tail =~= Seq::empty());
    assert(fresh.unfinished.painted == 0 && fresh.unfinished.cols == cols);
    assert(!line.contains('\r') && !line.contains('\n')) by {
        assert forall|i: int| 0 <= i < line.len() implies line[i] != '\r' && line[i] != '\n' by {
            assert(!crate::tui::transcript::is_break(line[i]));
        }
    }
    assert(!crate::tui::transcript::is_break(line[0]));
    crate::tui::transcript::law_what_holds_no_return_is_left(fresh.unfinished.split_crlf, line);
    crate::tui::transcript::law_lines_end_at_line_feeds(line, Seq::empty());
    assert(fresh.unfinished.tail + line =~= line);
    let written = fresh.written(line);
    assert(seq![line].last() == line);
    assert(written.unfinished.tail == line);
    assert(written.unfinished.painted == rows.len());
    assert(written.owed == paper.owed.push(Owed { scroll: rows.len(), rows }));
    assert(written.unfinished.cols == cols);
    assert(written.unfinished.closing().scroll == 0);
}

/// A line with nothing on it takes one row, and ending a line that has begun
/// writes nothing.
pub proof fn law_an_empty_line_takes_a_row(paper: Paper)
    requires
        paper.unfinished.well_formed(),
    ensures
        ({
            let rows = crate::tui::transcript::row_texts(Seq::empty(), paper.unfinished.cols);
            let after = paper.with_line(Seq::empty());
            &&& rows.len() > 0
            &&& after.owed == paper.owed.push(Owed { scroll: rows.len(), rows })
            &&& after.frame
        }),
        paper.finished().owed == paper.owed,
        paper.finished().unfinished.painted == 0,
        paper.finished().unfinished.tail.len() == 0,
{
    let cols = paper.unfinished.cols;
    let none: Seq<char> = Seq::empty();
    let rows = crate::tui::transcript::row_texts(none, cols);
    let fresh = paper.finished();
    crate::tui::transcript::law_an_ended_line_stays(paper.unfinished, cols);
    crate::tui::transcript::law_lines_have_their_own_rows(none, Seq::empty(), Seq::empty(), cols);
    assert(fresh.unfinished.tail =~= none);
    let written = fresh.written(none);
    assert(crate::tui::transcript::fed(fresh.unfinished.split_crlf, none) =~= none);
    assert(written.owed == fresh.owed);
    assert(written.unfinished.tail == fresh.unfinished.tail);
    assert(written.unfinished.painted == 0);
    assert(written.unfinished.closing().rows == rows);
}

} // verus!
