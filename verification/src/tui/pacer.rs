//! Which bytes of a stream travel together.
//!
//! An escape sequence is one instruction to the terminal: it is measured,
//! wrapped and removed whole or not at all. [`escape_at`] is the one tokenizer
//! that says how long such a sequence is.

use vstd::prelude::*;
use vstd::string::*;
use vstd::utf8::*;

use crate::text;

verus! {

/// The byte every sequence opens with.
pub const ESC: u8 = 0x1b;

/// The byte that ends a string sequence on its own.
pub const BEL: u8 = 0x07;

/// Where a control sequence (`ESC [`) ends whose parameters begin at `at`: past
/// its final byte, at the end of the text while that has not arrived, or before
/// the first byte that no control sequence holds.
pub open spec fn control_end(bytes: Seq<u8>, at: int) -> int
    decreases bytes.len() - at,
{
    if at >= bytes.len() {
        bytes.len() as int
    } else if 0x20 <= bytes[at] <= 0x3f {
        control_end(bytes, at + 1)
    } else if 0x40 <= bytes[at] <= 0x7e {
        at + 1
    } else {
        at
    }
}

/// Where a string sequence (`ESC ]` and its kin) ends whose payload begins at
/// `at`: past the `BEL` or the `ESC \` that terminates it, at the end of the
/// text while neither has arrived, or before an `ESC` that opens another
/// sequence.
pub open spec fn string_end(bytes: Seq<u8>, at: int) -> int
    decreases bytes.len() - at,
{
    if at >= bytes.len() {
        bytes.len() as int
    } else if bytes[at] == BEL {
        at + 1
    } else if bytes[at] == ESC {
        if at + 1 >= bytes.len() {
            bytes.len() as int
        } else if bytes[at + 1] == 0x5c {
            at + 2
        } else {
            at
        }
    } else {
        string_end(bytes, at + 1)
    }
}

/// Where a plain escape (`ESC` and one letter, intermediates between them) ends
/// whose first byte after the `ESC` is at `at`.
pub open spec fn plain_end(bytes: Seq<u8>, at: int) -> int
    decreases bytes.len() - at,
{
    if at >= bytes.len() {
        bytes.len() as int
    } else if 0x20 <= bytes[at] <= 0x2f {
        plain_end(bytes, at + 1)
    } else if 0x30 <= bytes[at] <= 0x7e {
        at + 1
    } else {
        at
    }
}

/// Whether the byte after an `ESC` opens a string: a device control string, a
/// start of string, an operating system command, a privacy message or an
/// application program command.
pub open spec fn opens_string(byte: u8) -> bool {
    byte == 0x50 || byte == 0x58 || byte == 0x5d || byte == 0x5e || byte == 0x5f
}

/// How many bytes the escape sequence at the head of `bytes` takes; none where
/// there is no sequence there.
pub open spec fn escape_len(bytes: Seq<u8>) -> int {
    if bytes.len() == 0 || bytes[0] != ESC {
        0
    } else if bytes.len() == 1 {
        1
    } else if bytes[1] == 0x5b {
        control_end(bytes, 2)
    } else if opens_string(bytes[1]) {
        string_end(bytes, 2)
    } else {
        plain_end(bytes, 1)
    }
}

/// What every place a sequence may end at has in common.
spec fn ends_cleanly(bytes: Seq<u8>, end: int) -> bool {
    ||| end == bytes.len()
    ||| 0 < end <= bytes.len() && bytes[end - 1] < 0x80
    ||| 0 <= end < bytes.len() && bytes[end] == ESC
}

proof fn lemma_control_end(bytes: Seq<u8>, at: int)
    requires
        0 < at <= bytes.len(),
        bytes[at - 1] < 0x80,
    ensures
        at <= control_end(bytes, at) <= bytes.len(),
        ends_cleanly(bytes, control_end(bytes, at)),
    decreases bytes.len() - at,
{
    if at < bytes.len() && 0x20 <= bytes[at] <= 0x3f {
        lemma_control_end(bytes, at + 1);
    }
}

proof fn lemma_string_end(bytes: Seq<u8>, at: int)
    requires
        0 < at <= bytes.len(),
    ensures
        at <= string_end(bytes, at) <= bytes.len(),
        ends_cleanly(bytes, string_end(bytes, at)),
    decreases bytes.len() - at,
{
    if at < bytes.len() && bytes[at] != BEL && bytes[at] != ESC {
        lemma_string_end(bytes, at + 1);
    }
}

proof fn lemma_plain_end(bytes: Seq<u8>, at: int)
    requires
        0 < at <= bytes.len(),
        bytes[at - 1] < 0x80,
    ensures
        at <= plain_end(bytes, at) <= bytes.len(),
        ends_cleanly(bytes, plain_end(bytes, at)),
    decreases bytes.len() - at,
{
    if at < bytes.len() && 0x20 <= bytes[at] <= 0x2f {
        lemma_plain_end(bytes, at + 1);
    }
}

/// A sequence lies within the text, is not empty where there is one, and ends
/// on a character boundary.
pub proof fn lemma_escape_len(bytes: Seq<u8>)
    requires
        valid_utf8(bytes),
    ensures
        0 <= escape_len(bytes) <= bytes.len(),
        (escape_len(bytes) > 0) == (bytes.len() > 0 && bytes[0] == ESC),
        is_char_boundary(bytes, escape_len(bytes)),
{
    let end = escape_len(bytes);
    if bytes.len() > 0 && bytes[0] == ESC {
        if bytes.len() > 1 {
            if bytes[1] == 0x5b {
                lemma_control_end(bytes, 2);
            } else if opens_string(bytes[1]) {
                lemma_string_end(bytes, 2);
            } else {
                lemma_plain_end(bytes, 1);
            }
        }
        if end == bytes.len() {
            is_char_boundary_start_end_of_seq(bytes);
        } else if bytes[end - 1] < 0x80 {
            text::lemma_boundary_after_ascii(bytes, end);
        } else {
            is_char_boundary_iff_not_is_continuation_byte(bytes, end);
        }
    }
}

/// A sequence lies within any bytes, and is not empty where there is one.
pub proof fn lemma_escape_within(bytes: Seq<u8>)
    ensures
        0 <= escape_len(bytes) <= bytes.len(),
        (escape_len(bytes) > 0) == (bytes.len() > 0 && bytes[0] == ESC),
{
    if bytes.len() > 1 && bytes[0] == ESC {
        if bytes[1] == 0x5b {
            lemma_control_end(bytes, 2);
        } else if opens_string(bytes[1]) {
            lemma_string_end(bytes, 2);
        } else {
            lemma_plain_end(bytes, 1);
        }
    }
}

proof fn lemma_control_end_cut(bytes: Seq<u8>, at: int, kept: int)
    requires
        0 <= at,
        control_end(bytes, at) < kept <= bytes.len(),
    ensures
        control_end(bytes.take(kept), at) == control_end(bytes, at),
    decreases bytes.len() - at,
{
    if at < bytes.len() {
        if 0x20 <= bytes[at] <= 0x3f {
            lemma_control_end_cut(bytes, at + 1, kept);
            assert(at < kept) by {
                lemma_control_end_behind(bytes, at + 1);
            }
        }
    }
}

proof fn lemma_control_end_behind(bytes: Seq<u8>, at: int)
    ensures
        at <= control_end(bytes, at) || control_end(bytes, at) == bytes.len(),
    decreases bytes.len() - at,
{
    if at < bytes.len() && 0x20 <= bytes[at] <= 0x3f {
        lemma_control_end_behind(bytes, at + 1);
    }
}

proof fn lemma_plain_end_cut(bytes: Seq<u8>, at: int, kept: int)
    requires
        0 <= at,
        plain_end(bytes, at) < kept <= bytes.len(),
    ensures
        plain_end(bytes.take(kept), at) == plain_end(bytes, at),
    decreases bytes.len() - at,
{
    if at < bytes.len() {
        if 0x20 <= bytes[at] <= 0x2f {
            lemma_plain_end_cut(bytes, at + 1, kept);
            assert(at < kept) by {
                lemma_plain_end_behind(bytes, at + 1);
            }
        }
    }
}

proof fn lemma_plain_end_behind(bytes: Seq<u8>, at: int)
    ensures
        at <= plain_end(bytes, at) || plain_end(bytes, at) == bytes.len(),
    decreases bytes.len() - at,
{
    if at < bytes.len() && 0x20 <= bytes[at] <= 0x2f {
        lemma_plain_end_behind(bytes, at + 1);
    }
}

proof fn lemma_string_end_cut(bytes: Seq<u8>, at: int, kept: int)
    requires
        0 <= at,
        string_end(bytes, at) < kept <= bytes.len(),
        bytes[string_end(bytes, at)] == ESC ==> string_end(bytes, at) + 1 < kept,
    ensures
        string_end(bytes.take(kept), at) == string_end(bytes, at),
    decreases bytes.len() - at,
{
    if at < bytes.len() && bytes[at] != BEL && bytes[at] != ESC {
        lemma_string_end_cut(bytes, at + 1, kept);
        assert(at < kept) by {
            lemma_string_end_behind(bytes, at + 1);
        }
    }
}

proof fn lemma_string_end_behind(bytes: Seq<u8>, at: int)
    ensures
        at <= string_end(bytes, at) || string_end(bytes, at) == bytes.len(),
    decreases bytes.len() - at,
{
    if at < bytes.len() && bytes[at] != BEL && bytes[at] != ESC {
        lemma_string_end_behind(bytes, at + 1);
    }
}

/// A sequence stays what it is when the bytes are cut off behind it, as long as
/// an `ESC` right behind it keeps the byte that follows it.
pub proof fn lemma_escape_cut(bytes: Seq<u8>, kept: int)
    requires
        0 < escape_len(bytes) < kept <= bytes.len(),
        bytes[escape_len(bytes)] == ESC ==> escape_len(bytes) + 1 < kept,
    ensures
        escape_len(bytes.take(kept)) == escape_len(bytes),
{
    let cut = bytes.take(kept);
    assert(cut[0] == bytes[0] && cut[1] == bytes[1]);
    if bytes[1] == 0x5b {
        lemma_control_end_cut(bytes, 2, kept);
    } else if opens_string(bytes[1]) {
        lemma_string_end_cut(bytes, 2, kept);
    } else {
        lemma_plain_end_cut(bytes, 1, kept);
    }
}

/// How many bytes the escape sequence at the head of `text` takes, if one is
/// there. A sequence that has not finished takes every byte that has arrived.
pub fn escape_at(text: &str) -> (found: Option<usize>)
    ensures
        found is Some <==> escape_len(text.spec_bytes()) > 0,
        found matches Some(len) ==> len == escape_len(text.spec_bytes()),
{
    let bytes = text.as_bytes();
    let ghost all = bytes@;
    let total: usize = bytes.len();
    proof {
        encode_utf8_valid_utf8(text@);
        lemma_escape_len(all);
    }
    if total == 0 || bytes[0] != ESC {
        return None;
    }
    if total == 1 {
        return Some(1);
    }
    let opener: u8 = bytes[1];
    let string: bool = opener == 0x50 || opener == 0x58 || opener == 0x5d || opener == 0x5e
        || opener == 0x5f;
    let control: bool = opener == 0x5b;
    let mut at: usize = if control || string {
        2
    } else {
        1
    };
    while at < total
        invariant
            total == all.len(),
            bytes@ == all,
            all == text.spec_bytes(),
            1 <= at <= total,
            0 < escape_len(all) <= total,
            !(control && string),
            control ==> escape_len(all) == control_end(all, at as int),
            string ==> escape_len(all) == string_end(all, at as int),
            !control && !string ==> escape_len(all) == plain_end(all, at as int),
        decreases total - at,
    {
        let byte: u8 = bytes[at];
        if string {
            if byte == BEL {
                return Some(at + 1);
            }
            if byte == ESC {
                if at + 1 >= total {
                    return Some(total);
                }
                if bytes[at + 1] == 0x5c {
                    return Some(at + 2);
                }
                return Some(at);
            }
        } else if byte >= 0x20 && byte <= 0x2f || control && byte >= 0x30 && byte <= 0x3f {
        } else if byte >= 0x30 && byte <= 0x7e {
            return Some(at + 1);
        } else {
            return Some(at);
        }
        at = at + 1;
    }
    Some(total)
}

// ---------------------------------------------------------------------------
// laws
// ---------------------------------------------------------------------------

proof fn lemma_control_of(bytes: Seq<u8>, at: int, end: int)
    requires
        0 <= at <= end <= bytes.len(),
        forall|i: int| at <= i < end ==> 0x20 <= #[trigger] bytes[i] <= 0x3f,
    ensures
        end == bytes.len() ==> control_end(bytes, at) == end,
        end < bytes.len() && 0x40 <= bytes[end] <= 0x7e ==> control_end(bytes, at) == end + 1,
        end < bytes.len() && !(0x20 <= bytes[end] <= 0x7e) ==> control_end(bytes, at) == end,
    decreases end - at,
{
    if at < end {
        lemma_control_of(bytes, at + 1, end);
    }
}

proof fn lemma_string_of(bytes: Seq<u8>, at: int, end: int)
    requires
        0 <= at <= end <= bytes.len(),
        forall|i: int| at <= i < end ==> #[trigger] bytes[i] != BEL && bytes[i] != ESC,
    ensures
        end == bytes.len() ==> string_end(bytes, at) == end,
        end < bytes.len() && bytes[end] == BEL ==> string_end(bytes, at) == end + 1,
        end + 1 < bytes.len() && bytes[end] == ESC && bytes[end + 1] == 0x5c ==> string_end(
            bytes,
            at,
        ) == end + 2,
        end + 1 < bytes.len() && bytes[end] == ESC && bytes[end + 1] != 0x5c ==> string_end(
            bytes,
            at,
        ) == end,
        end + 1 == bytes.len() && bytes[end] == ESC ==> string_end(bytes, at) == end + 1,
    decreases end - at,
{
    if at < end {
        lemma_string_of(bytes, at + 1, end);
    }
}

proof fn lemma_plain_of(bytes: Seq<u8>, at: int, end: int)
    requires
        0 <= at <= end <= bytes.len(),
        forall|i: int| at <= i < end ==> 0x20 <= #[trigger] bytes[i] <= 0x2f,
    ensures
        end == bytes.len() ==> plain_end(bytes, at) == end,
        end < bytes.len() && 0x30 <= bytes[end] <= 0x7e ==> plain_end(bytes, at) == end + 1,
        end < bytes.len() && !(0x20 <= bytes[end] <= 0x7e) ==> plain_end(bytes, at) == end,
    decreases end - at,
{
    if at < end {
        lemma_plain_of(bytes, at + 1, end);
    }
}

/// A control sequence is `ESC [`, its parameters and its final byte, whatever
/// stands behind it; while the final byte has not arrived it is everything that
/// has; and it stops in front of a byte that it cannot hold.
pub proof fn law_a_control_sequence_ends_at_its_final_byte(
    parameters: Seq<u8>,
    last: u8,
    rest: Seq<u8>,
)
    requires
        forall|i: int| 0 <= i < parameters.len() ==> 0x20 <= #[trigger] parameters[i] <= 0x3f,
    ensures
        escape_len(seq![0x1bu8, 0x5bu8] + parameters) == 2 + parameters.len(),
        0x40 <= last <= 0x7e ==> escape_len(seq![0x1bu8, 0x5bu8] + parameters + seq![last] + rest)
            == 3 + parameters.len(),
        last < 0x20 || last > 0x7e ==> escape_len(
            seq![0x1bu8, 0x5bu8] + parameters + seq![last] + rest,
        ) == 2 + parameters.len(),
{
    let open = seq![0x1bu8, 0x5bu8] + parameters;
    let whole = open + seq![last] + rest;
    let end = 2 + parameters.len() as int;
    assert forall|i: int| 2 <= i < end implies 0x20 <= #[trigger] open[i] <= 0x3f by {
        assert(open[i] == parameters[i - 2]);
    }
    assert forall|i: int| 2 <= i < end implies 0x20 <= #[trigger] whole[i] <= 0x3f by {
        assert(whole[i] == parameters[i - 2]);
    }
    assert(whole[end] == last);
    lemma_control_of(open, 2, end);
    lemma_control_of(whole, 2, end);
}

/// A string sequence is `ESC` and one of its five openers, its payload, and the
/// bell or the string terminator; while neither has arrived it is everything that
/// has; and it stops in front of an `ESC` that opens another sequence.
pub proof fn law_a_string_sequence_ends_at_its_terminator(
    opener: u8,
    payload: Seq<u8>,
    other: u8,
    rest: Seq<u8>,
)
    requires
        opener == 0x50 || opener == 0x58 || opener == 0x5d || opener == 0x5e || opener == 0x5f,
        other != 0x5c,
        forall|i: int| 0 <= i < payload.len() ==> #[trigger] payload[i] != 0x07 && payload[i]
            != 0x1b,
    ensures
        escape_len(seq![0x1bu8, opener] + payload) == 2 + payload.len(),
        escape_len(seq![0x1bu8, opener] + payload + seq![0x07u8] + rest) == 3 + payload.len(),
        escape_len(seq![0x1bu8, opener] + payload + seq![0x1bu8, 0x5cu8] + rest) == 4
            + payload.len(),
        escape_len(seq![0x1bu8, opener] + payload + seq![0x1bu8, other] + rest) == 2
            + payload.len(),
{
    let open = seq![0x1bu8, opener] + payload;
    let end = 2 + payload.len() as int;
    let rung = open + seq![0x07u8] + rest;
    let ended = open + seq![0x1bu8, 0x5cu8] + rest;
    let cut = open + seq![0x1bu8, other] + rest;
    assert forall|i: int| 2 <= i < end implies {
        &&& #[trigger] open[i] != BEL && open[i] != ESC
        &&& rung[i] == open[i] && ended[i] == open[i] && cut[i] == open[i]
    } by {
        assert(open[i] == payload[i - 2]);
    }
    assert forall|i: int| 2 <= i < end implies #[trigger] rung[i] != BEL && rung[i] != ESC by {
        assert(open[i] != BEL);
    }
    assert forall|i: int| 2 <= i < end implies #[trigger] ended[i] != BEL && ended[i] != ESC by {
        assert(open[i] != BEL);
    }
    assert forall|i: int| 2 <= i < end implies #[trigger] cut[i] != BEL && cut[i] != ESC by {
        assert(open[i] != BEL);
    }
    assert(rung[end] == 0x07);
    assert(ended[end] == 0x1b && ended[end + 1] == 0x5c);
    assert(cut[end] == 0x1b && cut[end + 1] == other);
    lemma_string_of(open, 2, end);
    lemma_string_of(rung, 2, end);
    lemma_string_of(ended, 2, end);
    lemma_string_of(cut, 2, end);
}

/// A plain escape is `ESC`, its intermediates and one final byte; an `ESC` alone
/// is one by itself while nothing has followed it; and what does not begin with
/// an `ESC` is none.
pub proof fn law_a_plain_escape_ends_at_its_letter(
    between: Seq<u8>,
    last: u8,
    rest: Seq<u8>,
    plain: Seq<u8>,
)
    requires
        forall|i: int| 0 <= i < between.len() ==> 0x20 <= #[trigger] between[i] <= 0x2f,
        0x30 <= last <= 0x7e,
        between.len() == 0 ==> last != 0x5b && last != 0x50 && last != 0x58 && last != 0x5d && last
            != 0x5e && last != 0x5f,
        plain.len() > 0 ==> plain[0] != 0x1b,
    ensures
        escape_len(seq![0x1bu8] + between + seq![last] + rest) == 2 + between.len(),
        escape_len(seq![0x1bu8] + between) == 1 + between.len(),
        escape_len(plain) == 0,
{
    let open = seq![0x1bu8] + between;
    let whole = open + seq![last] + rest;
    let end = 1 + between.len() as int;
    assert forall|i: int| 1 <= i < end implies 0x20 <= #[trigger] open[i] <= 0x2f by {
        assert(open[i] == between[i - 1]);
    }
    assert forall|i: int| 1 <= i < end implies 0x20 <= #[trigger] whole[i] <= 0x2f by {
        assert(whole[i] == between[i - 1]);
    }
    assert(whole[end] == last);
    lemma_plain_of(open, 1, end);
    lemma_plain_of(whole, 1, end);
    if between.len() > 0 {
        assert(whole[1] == between[0]);
        assert(open[1] == between[0]);
    }
}

} // verus!
