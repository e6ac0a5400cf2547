//! Text as bytes and as characters.
//!
//! Offsets into a text are byte offsets, as a `str` has them; what a text says
//! is a sequence of characters. The two meet in UTF-8, and the lemmas here are
//! what lets a proof walk from one to the other.

use vstd::prelude::*;
use vstd::string::*;
use vstd::utf8::*;

verus! {

/// `String::push` appends one character.
pub assume_specification[ String::push ](string: &mut String, c: char)
    ensures
        final(string)@ == old(string)@.push(c),
;

/// The characters of a text, one by one.
pub fn characters(text: &str) -> (chars: Vec<char>)
    ensures
        chars@ == text@,
{
    let mut chars: Vec<char> = Vec::new();
    for c in each: text.chars()
        invariant
            chars@ == each.seq().take(each.index() as int),
            each.seq() == text@,
    {
        chars.push(c);
    }
    assert(chars@ =~= text@);
    chars
}

/// The text a sequence of characters spells.
pub fn spell(chars: &[char]) -> (text: String)
    ensures
        text@ == chars@,
{
    let mut text: String = String::new();
    let mut at: usize = 0;
    while at < chars.len()
        invariant
            at <= chars@.len(),
            text@ == chars@.take(at as int),
        decreases chars@.len() - at,
    {
        text.push(chars[at]);
        at = at + 1;
        assert(text@ =~= chars@.take(at as int));
    }
    assert(chars@.take(at as int) =~= chars@);
    text
}

/// Encoding distributes over concatenation.
pub proof fn lemma_encode_concat(a: Seq<char>, b: Seq<char>)
    ensures
        encode_utf8(a + b) == encode_utf8(a) + encode_utf8(b),
    decreases a.len(),
{
    if a.len() == 0 {
        assert(a + b =~= b);
        assert(encode_utf8(a) + encode_utf8(b) =~= encode_utf8(b));
    } else {
        lemma_encode_concat(a.drop_first(), b);
        assert((a + b).drop_first() =~= a.drop_first() + b);
        assert((a + b)[0] == a[0]);
        let head = encode_scalar(a[0] as u32);
        assert(head + (encode_utf8(a.drop_first()) + encode_utf8(b)) =~= (head + encode_utf8(
            a.drop_first(),
        )) + encode_utf8(b));
    }
}

/// Two texts with the same bytes are the same text.
pub proof fn lemma_encode_injective(a: Seq<char>, b: Seq<char>)
    requires
        encode_utf8(a) == encode_utf8(b),
    ensures
        a == b,
{
    encode_utf8_decode_utf8(a);
    encode_utf8_decode_utf8(b);
}

/// The end of a prefix is a character boundary.
pub proof fn lemma_prefix_boundary(a: Seq<char>, b: Seq<char>)
    ensures
        is_char_boundary(encode_utf8(a + b), encode_utf8(a).len() as int),
    decreases a.len(),
{
    encode_utf8_valid_utf8(a + b);
    if a.len() > 0 {
        let bytes = encode_utf8(a + b);
        encode_utf8_first_scalar(a + b);
        lemma_encode_concat(a, b);
        assert((a + b)[0] == a[0]);
        assert((a + b).drop_first() =~= a.drop_first() + b);
        assert(pop_first_scalar(bytes) =~= encode_utf8(a.drop_first() + b));
        lemma_prefix_boundary(a.drop_first(), b);
    }
}

/// The place after an ASCII byte is a character boundary.
pub proof fn lemma_boundary_after_ascii(bytes: Seq<u8>, at: int)
    requires
        valid_utf8(bytes),
        0 < at <= bytes.len(),
        bytes[at - 1] < 0x80,
    ensures
        is_char_boundary(bytes, at),
{
    if at == bytes.len() {
        is_char_boundary_start_end_of_seq(bytes);
    } else {
        is_char_boundary_iff_not_is_continuation_byte(bytes, at - 1);
        valid_utf8_split(bytes, at - 1);
        let rest = bytes.subrange(at - 1, bytes.len() as int);
        assert(rest[0] == bytes[at - 1]);
        assert(valid_utf8(pop_first_scalar(rest)));
        assert(pop_first_scalar(rest)[0] == bytes[at]);
        is_char_boundary_iff_not_is_continuation_byte(bytes, at);
    }
}

/// An ASCII byte of a text is one of its characters.
pub proof fn lemma_ascii_byte_is_char(chars: Seq<char>, at: int) -> (i: int)
    requires
        0 <= at < encode_utf8(chars).len(),
        encode_utf8(chars)[at] < 0x80,
    ensures
        0 <= i < chars.len(),
        chars[i] as u32 == encode_utf8(chars)[at] as u32,
{
    let bytes = encode_utf8(chars);
    let byte = bytes[at];
    encode_utf8_valid_utf8(chars);
    encode_utf8_decode_utf8(chars);
    is_char_boundary_iff_not_is_continuation_byte(bytes, at);
    valid_utf8_split(bytes, at);
    decode_utf8_split(bytes, at);
    let head = decode_utf8(bytes.subrange(0, at));
    let rest = bytes.subrange(at, bytes.len() as int);
    assert(rest[0] == byte);
    assert(byte & 0x7f == byte) by (bit_vector)
        requires
            byte < 0x80,
    ;
    assert(decode_utf8(rest)[0] as u32 == byte as u32);
    assert(chars[head.len() as int] == decode_utf8(rest)[0]);
    head.len() as int
}

/// What is left of a text from a boundary on is a text.
pub proof fn lemma_rest(whole: Seq<char>, rest: Seq<char>, at: int)
    requires
        0 <= at <= encode_utf8(whole).len(),
        encode_utf8(rest) == encode_utf8(whole).skip(at),
    ensures
        decode_utf8(encode_utf8(whole).skip(at)) == rest,
{
    encode_utf8_decode_utf8(rest);
}

/// A boundary of the rest of a text is a boundary of the text.
pub proof fn lemma_boundary_of_rest(bytes: Seq<u8>, at: int, further: int)
    requires
        valid_utf8(bytes),
        is_char_boundary(bytes, at),
        0 <= at <= bytes.len(),
        0 <= further <= bytes.len() - at,
        is_char_boundary(bytes.skip(at), further),
    ensures
        is_char_boundary(bytes, at + further),
{
    let rest = bytes.skip(at);
    assert(rest =~= bytes.subrange(at, bytes.len() as int));
    valid_utf8_split(bytes, at);
    if at + further == bytes.len() {
        is_char_boundary_start_end_of_seq(bytes);
    } else {
        is_char_boundary_iff_not_is_continuation_byte(rest, further);
        is_char_boundary_iff_not_is_continuation_byte(bytes, at + further);
        assert(rest[further] == bytes[at + further]);
    }
}

/// The part of `text` from one boundary up to another.
pub fn slice<'a>(text: &'a str, from: usize, to: usize) -> (part: &'a str)
    requires
        from <= to <= text.spec_bytes().len(),
        is_char_boundary(text.spec_bytes(), from as int),
        is_char_boundary(text.spec_bytes(), to as int),
    ensures
        part.spec_bytes() == text.spec_bytes().subrange(from as int, to as int),
        part@ == decode_utf8(text.spec_bytes().subrange(from as int, to as int)),
{
    let ghost bytes = text.spec_bytes();
    let (head, _) = text.split_at(to);
    proof {
        encode_utf8_valid_utf8(text@);
        encode_utf8_valid_utf8(head@);
        let front = head.spec_bytes();
        if from == to {
            is_char_boundary_start_end_of_seq(front);
        } else {
            is_char_boundary_iff_not_is_continuation_byte(bytes, from as int);
            is_char_boundary_iff_not_is_continuation_byte(front, from as int);
            assert(front[from as int] == bytes[from as int]);
        }
    }
    let (_, part) = head.split_at(from);
    proof {
        assert(part.spec_bytes() =~= bytes.subrange(from as int, to as int));
        encode_utf8_decode_utf8(part@);
    }
    part
}

/// A text in two parts, the first of which takes `at` bytes.
pub(crate) fn parted<'a>(
    text: &'a str,
    at: usize,
    Ghost(head): Ghost<Seq<char>>,
    Ghost(rest): Ghost<Seq<char>>,
) -> (parts: (&'a str, &'a str))
    requires
        text@ == head + rest,
        at == encode_utf8(head).len(),
    ensures
        parts.0@ == head,
        parts.1@ == rest,
{
    proof {
        lemma_prefix_boundary(head, rest);
        lemma_encode_concat(head, rest);
    }
    let parts: (&'a str, &'a str) = text.split_at(at);
    proof {
        assert(parts.0.spec_bytes() =~= encode_utf8(head));
        assert(parts.1.spec_bytes() =~= encode_utf8(rest));
        lemma_encode_injective(parts.0@, head);
        lemma_encode_injective(parts.1@, rest);
    }
    parts
}

/// Whether two texts say the same.
pub fn same(a: &str, b: &str) -> (yes: bool)
    ensures
        yes == (a@ == b@),
{
    let left: &[u8] = a.as_bytes();
    let right: &[u8] = b.as_bytes();
    proof {
        if a.spec_bytes() == b.spec_bytes() {
            lemma_encode_injective(a@, b@);
        }
    }
    same_bytes(left, right)
}

/// Whether two byte strings are the same.
pub fn same_bytes(a: &[u8], b: &[u8]) -> (yes: bool)
    ensures
        yes == (a@ == b@),
{
    if a.len() != b.len() {
        return false;
    }
    let mut at: usize = 0;
    while at < a.len()
        invariant
            a@.len() == b@.len(),
            at <= a@.len(),
            a@.take(at as int) == b@.take(at as int),
        decreases a@.len() - at,
    {
        if a[at] != b[at] {
            assert(a@[at as int] != b@[at as int]);
            return false;
        }
        at = at + 1;
        assert(a@.take(at as int) =~= b@.take(at as int));
    }
    assert(a@.take(at as int) =~= a@);
    assert(b@.take(at as int) =~= b@);
    true
}

/// Whether `part` stands in `whole` at `at`.
pub open spec fn stands_at(whole: Seq<char>, part: Seq<char>, at: int) -> bool {
    0 <= at && at + part.len() <= whole.len() && whole.subrange(at, at + part.len()) == part
}

/// Whether `part` stands in `whole` at `at`.
pub fn standing_at(whole: &[char], part: &[char], at: usize) -> (yes: bool)
    ensures
        yes == stands_at(whole@, part@, at as int),
{
    if at > whole.len() || part.len() > whole.len() - at {
        return false;
    }
    let total: usize = whole.len();
    let mut n: usize = 0;
    while n < part.len()
        invariant
            total == whole@.len(),
            at + part@.len() <= whole@.len(),
            n <= part@.len(),
            whole@.subrange(at as int, at + n) == part@.take(n as int),
        decreases part@.len() - n,
    {
        if whole[at + n] != part[n] {
            proof {
                let stretch = whole@.subrange(at as int, at + part@.len());
                assert(stretch[n as int] == whole@[at + n]);
            }
            return false;
        }
        n = n + 1;
        assert(whole@.subrange(at as int, at + n) =~= part@.take(n as int));
    }
    assert(part@.take(n as int) =~= part@);
    true
}

/// Whether `part` stands anywhere in `whole`.
pub open spec fn holds(whole: Seq<char>, part: Seq<char>) -> bool {
    exists|at: int| #[trigger] stands_at(whole, part, at)
}

/// Whether `part` stands anywhere in `whole`.
pub fn holding(whole: &str, part: &str) -> (yes: bool)
    ensures
        yes == holds(whole@, part@),
{
    let w: Vec<char> = characters(whole);
    let p: Vec<char> = characters(part);
    if p.len() > w.len() {
        return false;
    }
    let mut at: usize = 0;
    while at <= w.len() - p.len()
        invariant
            w@ == whole@,
            p@ == part@,
            p@.len() <= w@.len(),
            at <= w@.len() - p@.len() + 1,
            forall|before: int| 0 <= before < at ==> !#[trigger] stands_at(w@, p@, before),
        decreases w@.len() + 1 - at,
    {
        if standing_at(w.as_slice(), p.as_slice(), at) {
            return true;
        }
        if at == w.len() - p.len() {
            return false;
        }
        at = at + 1;
    }
    false
}

/// The parts of a text between the places where `mark` stands.
pub open spec fn split_on(text: Seq<char>, mark: char) -> Seq<Seq<char>>
    decreases text.len(),
{
    if text.len() == 0 {
        seq![Seq::empty()]
    } else {
        let before = split_on(text.drop_last(), mark);
        if text.last() == mark {
            before.push(Seq::empty())
        } else {
            before.drop_last().push(before.last().push(text.last()))
        }
    }
}

/// What the characters of several texts are.
pub open spec fn spelled(parts: Seq<Vec<char>>) -> Seq<Seq<char>> {
    parts.map_values(|part: Vec<char>| part@)
}

/// The parts of a text between the places where `mark` stands.
pub fn split(text: &[char], mark: char) -> (parts: Vec<Vec<char>>)
    ensures
        spelled(parts@) == split_on(text@, mark),
        parts@.len() > 0,
{
    let mut parts: Vec<Vec<char>> = Vec::new();
    let mut part: Vec<char> = Vec::new();
    let mut at: usize = 0;
    assert(spelled(parts@) =~= split_on(text@.take(0), mark).drop_last());
    assert(part@ =~= Seq::empty());
    while at < text.len()
        invariant
            at <= text@.len(),
            split_on(text@.take(at as int), mark).len() > 0,
            spelled(parts@) == split_on(text@.take(at as int), mark).drop_last(),
            part@ == split_on(text@.take(at as int), mark).last(),
        decreases text@.len() - at,
    {
        let ghost before = spelled(parts@);
        let ghost open = part@;
        let ghost next = text@.take(at + 1);
        assert(next.drop_last() =~= text@.take(at as int));
        assert(next.last() == text@[at as int]);
        if text[at] == mark {
            parts.push(part);
            part = Vec::new();
            proof {
                assert(spelled(parts@) =~= before.push(open));
                assert(split_on(next, mark).drop_last() =~= before.push(open));
                assert(part@ =~= Seq::empty());
            }
        } else {
            part.push(text[at]);
            proof {
                assert(split_on(next, mark).drop_last() =~= before);
            }
        }
        at = at + 1;
    }
    let ghost before = spelled(parts@);
    let ghost open = part@;
    parts.push(part);
    proof {
        assert(text@.take(at as int) =~= text@);
        assert(spelled(parts@) =~= before.push(open));
        assert(split_on(text@, mark) =~= before.push(open));
    }
    parts
}

/// An ASCII capital as its small letter; any other character as it is.
pub open spec fn small(c: char) -> char {
    if 'A' <= c <= 'Z' {
        (c as u32 + 32) as char
    } else {
        c
    }
}

/// Whether two texts say the same, ASCII capitals or not.
pub open spec fn same_letters(a: Seq<char>, b: Seq<char>) -> bool {
    a.len() == b.len() && forall|i: int| 0 <= i < a.len() ==> #[trigger] small(a[i]) == small(b[i])
}

/// An ASCII capital as its small letter; any other character as it is.
fn to_small(c: char) -> (letter: char)
    ensures
        letter == small(c),
{
    if c >= 'A' && c <= 'Z' {
        let code: u8 = c as u8;
        (code + 32) as char
    } else {
        c
    }
}

/// Whether two texts say the same, ASCII capitals or not.
pub fn same_but_for_case(a: &str, b: &str) -> (yes: bool)
    ensures
        yes == same_letters(a@, b@),
{
    let left: Vec<char> = characters(a);
    let right: Vec<char> = characters(b);
    if left.len() != right.len() {
        return false;
    }
    let mut at: usize = 0;
    while at < left.len()
        invariant
            left@ == a@,
            right@ == b@,
            left@.len() == right@.len(),
            at <= left@.len(),
            forall|i: int| 0 <= i < at ==> #[trigger] small(a@[i]) == small(b@[i]),
        decreases left@.len() - at,
    {
        if to_small(left[at]) != to_small(right[at]) {
            assert(small(a@[at as int]) != small(b@[at as int]));
            return false;
        }
        at = at + 1;
    }
    true
}

/// The value of one digit, in a base up to sixteen.
pub open spec fn digit_value(c: char, base: nat) -> Option<nat> {
    let value = if '0' <= c <= '9' {
        c as u32 - '0' as u32
    } else if 'a' <= c <= 'f' {
        c as u32 - 'a' as u32 + 10
    } else if 'A' <= c <= 'F' {
        c as u32 - 'A' as u32 + 10
    } else {
        base as int
    };
    if 0 <= value < base {
        Some(value as nat)
    } else {
        None
    }
}

/// The number a run of digits spells, if it is one.
pub open spec fn digits_value(digits: Seq<char>, base: nat) -> Option<nat>
    decreases digits.len(),
{
    if digits.len() == 0 {
        None
    } else if digits.len() == 1 {
        digit_value(digits[0], base)
    } else {
        match (digits_value(digits.drop_last(), base), digit_value(digits.last(), base)) {
            (Some(high), Some(low)) => Some(high * base + low),
            _ => None,
        }
    }
}

/// A number as text has it: a run of digits, a plus sign in front of it or not.
pub open spec fn number(text: Seq<char>, base: nat) -> Option<nat> {
    if text.len() > 0 && text[0] == '+' {
        digits_value(text.skip(1), base)
    } else {
        digits_value(text, base)
    }
}

/// The value of one digit, in a base up to sixteen.
fn digit(c: char, base: u32) -> (value: Option<u32>)
    requires
        2 <= base <= 16,
    ensures
        value is Some == digit_value(c, base as nat) is Some,
        value matches Some(v) ==> Some(v as nat) == digit_value(c, base as nat) && v < base,
{
    let value: u32 = if c >= '0' && c <= '9' {
        c as u32 - 48
    } else if c >= 'a' && c <= 'f' {
        c as u32 - 97 + 10
    } else if c >= 'A' && c <= 'F' {
        c as u32 - 65 + 10
    } else {
        base
    };
    if value < base {
        Some(value)
    } else {
        None
    }
}

/// A run of digits that goes on spells no smaller number, if it spells one.
proof fn lemma_digits_grow(digits: Seq<char>, base: nat, at: int)
    requires
        0 < at <= digits.len(),
        base >= 2,
    ensures
        digits_value(digits, base) is Some ==> digits_value(digits.take(at), base) is Some
            && digits_value(digits.take(at), base)->0 <= digits_value(digits, base)->0,
    decreases digits.len() - at,
{
    if at < digits.len() {
        let shorter = digits.drop_last();
        lemma_digits_grow(shorter, base, at);
        assert(shorter.take(at) =~= digits.take(at));
        if digits_value(digits, base) is Some {
            let high = digits_value(shorter, base)->0;
            assert(high <= high * base) by (nonlinear_arith)
                requires
                    base >= 2,
            ;
        }
    } else {
        assert(digits.take(at) =~= digits);
    }
}

/// The number the digits from `from` on spell, if they do and it is no greater
/// than `most`.
pub fn parse_digits(text: &[char], from: usize, base: u32, most: u32) -> (value: Option<u32>)
    requires
        from <= text@.len(),
        2 <= base <= 16,
        most <= 0xffff,
    ensures
        ({
            let spelt = digits_value(text@.skip(from as int), base as nat);
            &&& value is Some == (spelt is Some && spelt->0 <= most)
            &&& value matches Some(v) ==> spelt == Some(v as nat)
        }),
{
    let ghost digits = text@.skip(from as int);
    if from >= text.len() {
        return None;
    }
    let mut value: u32 = 0;
    let mut at: usize = from;
    while at < text.len()
        invariant
            2 <= base <= 16,
            most <= 0xffff,
            from <= at <= text@.len(),
            from < text@.len(),
            digits == text@.skip(from as int),
            value <= most,
            at > from ==> digits_value(digits.take(at - from), base as nat) == Some(value as nat),
            at == from ==> value == 0,
        decreases text@.len() - at,
    {
        let ghost next = digits.take(at + 1 - from);
        proof {
            assert(next.last() == text@[at as int]);
            assert(next.drop_last() =~= digits.take(at - from));
            lemma_digits_grow(digits, base as nat, at + 1 - from);
        }
        match digit(text[at], base) {
            None => {
                return None;
            },
            Some(low) => {
                proof {
                    assert(value * base <= 0xffff * 16) by (nonlinear_arith)
                        requires
                            value <= 0xffff,
                            base <= 16,
                    ;
                }
                value = value * base + low;
                assert(digits_value(next, base as nat) == Some(value as nat));
                if value > most {
                    return None;
                }
            },
        }
        at = at + 1;
    }
    assert(digits.take(at - from) =~= digits);
    Some(value)
}

/// Where the digits of a number start: behind its plus sign, where it has one.
fn sign_len(text: &[char]) -> (from: usize)
    ensures
        from <= text@.len(),
        forall|base: nat| #[trigger]
            number(text@, base) == digits_value(text@.skip(from as int), base),
{
    assert(text@.skip(0) =~= text@);
    if text.len() > 0 && text[0] == '+' {
        1
    } else {
        0
    }
}

/// The number a text spells, if it is one and no greater than `most`.
pub fn parse_number(text: &[char], base: u32, most: u32) -> (value: Option<u32>)
    requires
        2 <= base <= 16,
        most <= 0xffff,
    ensures
        value is Some == (number(text@, base as nat) is Some && number(text@, base as nat)->0
            <= most),
        value matches Some(v) ==> number(text@, base as nat) == Some(v as nat),
{
    let from: usize = sign_len(text);
    assert(number(text@, base as nat) == digits_value(text@.skip(from as int), base as nat));
    parse_digits(text, from, base, most)
}

/// Whether a text spells a number, however large.
pub fn is_number(text: &[char], base: u32) -> (yes: bool)
    requires
        2 <= base <= 16,
    ensures
        yes == (number(text@, base as nat) is Some),
{
    let from: usize = sign_len(text);
    let ghost digits = text@.skip(from as int);
    assert(number(text@, base as nat) == digits_value(digits, base as nat));
    if from >= text.len() {
        return false;
    }
    let mut at: usize = from;
    while at < text.len()
        invariant
            2 <= base <= 16,
            from <= at <= text@.len(),
            from < text@.len(),
            digits == text@.skip(from as int),
            number(text@, base as nat) == digits_value(digits, base as nat),
            at > from ==> digits_value(digits.take(at - from), base as nat) is Some,
        decreases text@.len() - at,
    {
        let ghost next = digits.take(at + 1 - from);
        proof {
            assert(next.last() == text@[at as int]);
            assert(next.drop_last() =~= digits.take(at - from));
            lemma_digits_grow(digits, base as nat, at + 1 - from);
        }
        if digit(text[at], base).is_none() {
            return false;
        }
        at = at + 1;
    }
    assert(digits.take(at - from) =~= digits);
    true
}

/// Whether a character is white space: the Unicode property `White_Space`.
pub open spec fn is_white(c: char) -> bool {
    let code = c as u32;
    ||| 0x09 <= code <= 0x0d
    ||| code == 0x20
    ||| code == 0x85
    ||| code == 0xa0
    ||| code == 0x1680
    ||| 0x2000 <= code <= 0x200a
    ||| code == 0x2028
    ||| code == 0x2029
    ||| code == 0x202f
    ||| code == 0x205f
    ||| code == 0x3000
}

/// A text without the white space in front of it.
pub open spec fn trimmed_front(text: Seq<char>) -> Seq<char>
    decreases text.len(),
{
    if text.len() > 0 && is_white(text[0]) {
        trimmed_front(text.skip(1))
    } else {
        text
    }
}

/// A text without the white space behind it.
pub open spec fn trimmed_back(text: Seq<char>) -> Seq<char>
    decreases text.len(),
{
    if text.len() > 0 && is_white(text.last()) {
        trimmed_back(text.drop_last())
    } else {
        text
    }
}

/// A text without the white space around it.
pub open spec fn trimmed(text: Seq<char>) -> Seq<char> {
    trimmed_back(trimmed_front(text))
}

/// Whether a text says something and has no white space around it.
pub open spec fn is_snug(text: Seq<char>) -> bool {
    text.len() > 0 && !is_white(text[0]) && !is_white(text.last())
}

/// What is left of a text without the white space around it has none around it.
pub proof fn lemma_trimmed_is_snug(text: Seq<char>)
    ensures
        trimmed(text).len() > 0 ==> is_snug(trimmed(text)),
{
    lemma_trimmed_front(text);
    lemma_trimmed_back(trimmed_front(text));
}

proof fn lemma_trimmed_front(text: Seq<char>)
    ensures
        trimmed_front(text).len() > 0 ==> !is_white(trimmed_front(text)[0]),
    decreases text.len(),
{
    if text.len() > 0 && is_white(text[0]) {
        lemma_trimmed_front(text.skip(1));
    }
}

proof fn lemma_trimmed_back(text: Seq<char>)
    ensures
        trimmed_back(text).len() > 0 ==> !is_white(trimmed_back(text).last())
            && trimmed_back(text)[0] == text[0],
    decreases text.len(),
{
    if text.len() > 0 && is_white(text.last()) {
        lemma_trimmed_back(text.drop_last());
    }
}

/// Whether a character is white space.
pub(crate) fn white(c: char) -> (yes: bool)
    ensures
        yes == is_white(c),
{
    let code: u32 = c as u32;
    code >= 0x09 && code <= 0x0d || code == 0x20 || code == 0x85 || code == 0xa0 || code == 0x1680
        || code >= 0x2000 && code <= 0x200a || code == 0x2028 || code == 0x2029 || code == 0x202f
        || code == 0x205f || code == 0x3000
}

/// `text` without the white space around it.
pub fn trim(text: &str) -> (rest: String)
    ensures
        rest@ == trimmed(text@),
{
    let chars: Vec<char> = characters(text);
    let mut from: usize = 0;
    assert(chars@.skip(0) =~= chars@);
    while from < chars.len() && white(chars[from])
        invariant
            from <= chars@.len(),
            trimmed_front(chars@) == trimmed_front(chars@.skip(from as int)),
        ensures
            from <= chars@.len(),
            trimmed_front(chars@) == chars@.skip(from as int),
        decreases chars@.len() - from,
    {
        assert(chars@.skip(from as int)[0] == chars@[from as int]);
        assert(chars@.skip(from as int).skip(1) =~= chars@.skip(from + 1));
        from = from + 1;
    }
    let ghost front = chars@.skip(from as int);
    let mut to: usize = chars.len();
    assert(chars@.subrange(from as int, to as int) =~= front);
    while to > from && white(chars[to - 1])
        invariant
            from <= to <= chars@.len(),
            trimmed_back(front) == trimmed_back(chars@.subrange(from as int, to as int)),
        ensures
            from <= to <= chars@.len(),
            trimmed_back(front) == chars@.subrange(from as int, to as int),
        decreases to - from,
    {
        let ghost part = chars@.subrange(from as int, to as int);
        assert(part.last() == chars@[to - 1]);
        assert(part.drop_last() =~= chars@.subrange(from as int, to - 1));
        to = to - 1;
    }
    spell(vstd::slice::slice_subrange(chars.as_slice(), from, to))
}

/// Whether a character is a control: the general category `Cc`.
pub open spec fn is_control(c: char) -> bool {
    c as u32 <= 0x1f || 0x7f <= c as u32 <= 0x9f
}

/// Whether a character is a control.
pub fn control(c: char) -> (yes: bool)
    ensures
        yes == is_control(c),
{
    let code: u32 = c as u32;
    code <= 0x1f || code >= 0x7f && code <= 0x9f
}

/// The character of a digit.
pub open spec fn digit_of(value: nat) -> char {
    seq!['0', '1', '2', '3', '4', '5', '6', '7', '8', '9'][value as int]
}

/// A number in base ten, without leading zeros.
pub open spec fn decimal(value: nat) -> Seq<char>
    decreases value,
{
    if value < 10 {
        seq![digit_of(value)]
    } else {
        decimal(value / 10).push(digit_of(value % 10))
    }
}

fn digit_char(value: u64) -> (digit: char)
    requires
        value < 10,
    ensures
        digit == digit_of(value as nat),
{
    match value {
        0 => '0',
        1 => '1',
        2 => '2',
        3 => '3',
        4 => '4',
        5 => '5',
        6 => '6',
        7 => '7',
        8 => '8',
        _ => '9',
    }
}

/// A number in base ten.
pub fn decimal_text(value: u64) -> (text: String)
    ensures
        text@ == decimal(value as nat),
    decreases value,
{
    let mut text: String = if value < 10 {
        String::new()
    } else {
        decimal_text(value / 10)
    };
    text.push(digit_char(value % 10));
    proof {
        assert(text@ =~= decimal(value as nat));
    }
    text
}

/// What a list of strings says.
pub open spec fn texts(parts: Seq<String>) -> Seq<Seq<char>> {
    parts.map_values(|part: String| part@)
}

/// Parts one behind the other, with `mark` between each two.
pub open spec fn listed(parts: Seq<Seq<char>>, mark: Seq<char>) -> Seq<char>
    decreases parts.len(),
{
    if parts.len() == 0 {
        Seq::empty()
    } else if parts.len() == 1 {
        parts[0]
    } else {
        listed(parts.drop_last(), mark) + mark + parts.last()
    }
}

/// Parts one behind the other, with `mark` between each two.
pub fn list(parts: &[String], mark: &str) -> (text: String)
    ensures
        text@ == listed(texts(parts@), mark@),
{
    let mut text: String = String::new();
    let ghost all = texts(parts@);
    let mut at: usize = 0;
    proof {
        assert(all.take(0) =~= Seq::empty());
    }
    while at < parts.len()
        invariant
            at <= parts@.len(),
            all == texts(parts@),
            text@ == listed(all.take(at as int), mark@),
        decreases parts@.len() - at,
    {
        if at > 0 {
            text.append(mark);
        }
        text.append(parts[at].as_str());
        proof {
            let next = all.take(at + 1);
            assert(next.drop_last() =~= all.take(at as int));
            assert(next.last() == parts@[at as int]@);
            assert(text@ =~= listed(next, mark@));
        }
        at = at + 1;
    }
    proof {
        assert(all.take(at as int) =~= all);
    }
    text
}

// ---------------------------------------------------------------------------
// laws
// ---------------------------------------------------------------------------

/// A text stands in another exactly where that one is made of something, the
/// text, and something behind it.
pub proof fn law_what_holds_a_text_is_made_of_it(
    before: Seq<char>,
    part: Seq<char>,
    after: Seq<char>,
    whole: Seq<char>,
)
    ensures
        stands_at(before + part + after, part, before.len() as int),
        holds(before + part + after, part),
        holds(whole, part) <==> exists|at: int|
            0 <= at <= whole.len() && #[trigger] whole.take(at) + part == whole.take(
                at + part.len(),
            ) && at + part.len() <= whole.len(),
{
    let made = before + part + after;
    assert(made.subrange(before.len() as int, (before.len() + part.len()) as int) =~= part);
    assert(stands_at(made, part, before.len() as int));
    if holds(whole, part) {
        let at = choose|at: int| #[trigger] stands_at(whole, part, at);
        assert(whole.take(at) + part =~= whole.take(at + part.len()));
    }
    if exists|at: int|
        0 <= at <= whole.len() && #[trigger] whole.take(at) + part == whole.take(at + part.len())
            && at + part.len() <= whole.len() {
        let at = choose|at: int|
            0 <= at <= whole.len() && #[trigger] whole.take(at) + part == whole.take(
                at + part.len(),
            ) && at + part.len() <= whole.len();
        let grown = whole.take(at) + part;
        assert(whole.subrange(at, at + part.len()) =~= grown.skip(at));
        assert(grown.skip(at) =~= part);
        assert(stands_at(whole, part, at));
    }
}

/// A text is parted at its marks and nowhere else: one without a mark is one
/// part, and one with a mark is what stands in front of the first, and then the
/// parts of what stands behind it.
pub proof fn law_a_text_is_parted_at_its_marks(first: Seq<char>, mark: char, rest: Seq<char>)
    requires
        !first.contains(mark),
    ensures
        split_on(first, mark) == seq![first],
        split_on(first.push(mark) + rest, mark) == seq![first] + split_on(rest, mark),
    decreases first.len() + rest.len(),
{
    if first.len() > 0 {
        let less = first.drop_last();
        assert forall|i: int| 0 <= i < less.len() implies less[i] != mark by {
            assert(first.contains(first[i]));
        }
        assert(!less.contains(mark));
        law_a_text_is_parted_at_its_marks(less, mark, Seq::empty());
        assert(first.contains(first.last()));
        assert(seq![less].drop_last().push(less.push(first.last())) =~= seq![first]) by {
            assert(less.push(first.last()) =~= first);
        }
    } else {
        assert(first =~= Seq::empty());
    }
    assert(split_on(first, mark) =~= seq![first]);
    let whole = first.push(mark) + rest;
    if rest.len() == 0 {
        assert(whole =~= first.push(mark));
        assert(whole.drop_last() =~= first);
        assert(seq![first].push(Seq::empty()) =~= seq![first] + split_on(rest, mark));
    } else {
        let shorter = rest.drop_last();
        law_a_text_is_parted_at_its_marks(first, mark, shorter);
        lemma_some_part(shorter, mark);
        assert(whole.drop_last() =~= first.push(mark) + shorter);
        let before = seq![first] + split_on(shorter, mark);
        assert(before.last() == split_on(shorter, mark).last());
        assert(before.drop_last() =~= seq![first] + split_on(shorter, mark).drop_last());
        assert(split_on(whole, mark) =~= seq![first] + split_on(rest, mark));
    }
}

proof fn lemma_some_part(text: Seq<char>, mark: char)
    ensures
        split_on(text, mark).len() > 0,
    decreases text.len(),
{
    if text.len() > 0 {
        lemma_some_part(text.drop_last(), mark);
    }
}

/// Two texts are the same but for case where each character of one is that of
/// the other, or one of the two is a capital and the other the letter 32 places
/// behind it.
pub proof fn law_case_is_a_matter_of_letters(a: Seq<char>, b: Seq<char>)
    ensures
        same_letters(a, b) <==> a.len() == b.len() && forall|i: int|
            0 <= i < a.len() ==> {
                ||| #[trigger] a[i] == b[i]
                ||| 'A' <= a[i] <= 'Z' && b[i] as int == a[i] as int + 32
                ||| 'A' <= b[i] <= 'Z' && a[i] as int == b[i] as int + 32
            },
{
    if same_letters(a, b) {
        assert forall|i: int| 0 <= i < a.len() implies {
            ||| #[trigger] a[i] == b[i]
            ||| 'A' <= a[i] <= 'Z' && b[i] as int == a[i] as int + 32
            ||| 'A' <= b[i] <= 'Z' && a[i] as int == b[i] as int + 32
        } by {
            assert(small(a[i]) == small(b[i]));
        }
    }
    if a.len() == b.len() && forall|i: int|
        0 <= i < a.len() ==> {
            ||| #[trigger] a[i] == b[i]
            ||| 'A' <= a[i] <= 'Z' && b[i] as int == a[i] as int + 32
            ||| 'A' <= b[i] <= 'Z' && a[i] as int == b[i] as int + 32
        } {
        assert forall|i: int| 0 <= i < a.len() implies #[trigger] small(a[i]) == small(b[i]) by {
            assert(a[i] == a[i]);
        }
    }
}

/// The digits of a number count by their places: a run of them behind another
/// makes the first one larger by the base once for each of its digits.
pub proof fn law_digits_count_by_their_places(high: Seq<char>, low: Seq<char>, base: nat)
    requires
        2 <= base <= 16,
        high.len() > 0,
        low.len() > 0,
    ensures
        digits_value(high + low, base) is Some <==> digits_value(high, base) is Some
            && digits_value(low, base) is Some,
        digits_value(high + low, base) matches Some(value) ==> value == digits_value(high, base)->0
            * vstd::arithmetic::power::pow(base as int, low.len()) + digits_value(low, base)->0,
    decreases low.len(),
{
    reveal_with_fuel(vstd::arithmetic::power::pow, 2);
    let all = high + low;
    let front = low.drop_last();
    assert(all.last() == low.last());
    assert(all.drop_last() =~= high + front);
    if low.len() == 1 {
        assert(high + front =~= high);
        assert(low[0] == low.last());
    } else {
        law_digits_count_by_their_places(high, front, base);
        if digits_value(all, base) is Some {
            let h = digits_value(high, base)->0 as int;
            let f = digits_value(front, base)->0 as int;
            let p = vstd::arithmetic::power::pow(base as int, front.len());
            assert(vstd::arithmetic::power::pow(base as int, low.len()) == base * p);
            assert((h * p + f) * base == h * (base * p) + f * base) by (nonlinear_arith);
        }
    }
}

/// One digit is worth its place in the row from zero to nine, and a letter, small
/// or capital, its place in the row from ten on; nothing else is a digit.
pub proof fn law_a_digit_is_worth_its_place(c: char, base: nat, value: nat)
    requires
        2 <= base <= 16,
    ensures
        digits_value(seq![c], base) == Some(value) <==> value < base && {
            ||| value < 10 && c as int == '0' as int + value
            ||| value >= 10 && c as int == 'a' as int + value - 10
            ||| value >= 10 && c as int == 'A' as int + value - 10
        },
{
}

/// A number reads back as it was written, with a plus sign in front of it or
/// not, and is written without leading zeros.
pub proof fn law_a_number_reads_back(value: nat)
    ensures
        digits_value(decimal(value), 10) == Some(value),
        number(decimal(value), 10) == Some(value),
        number(seq!['+'] + decimal(value), 10) == Some(value),
        number(Seq::empty(), 10) is None,
        number(seq!['+'], 10) is None,
        decimal(value).len() > 0,
        decimal(value)[0] == '0' ==> value == 0 && decimal(value).len() == 1,
        forall|i: int|
            0 <= i < decimal(value).len() ==> '0' <= #[trigger] decimal(value)[i] <= '9',
    decreases value,
{
    if value >= 10 {
        law_a_number_reads_back(value / 10);
        let front = decimal(value / 10);
        assert(decimal(value).drop_last() =~= front);
        assert(decimal(value)[0] == front[0]);
        assert forall|i: int| 0 <= i < decimal(value).len() implies '0' <= #[trigger] decimal(
            value,
        )[i] <= '9' by {
            if i < front.len() {
                assert(decimal(value)[i] == front[i]);
            }
        }
    }
    assert((seq!['+'] + decimal(value)).skip(1) =~= decimal(value));
    assert(seq!['+'].skip(1) =~= Seq::empty());
}

/// A text is what is left of it without the white space around it, with white
/// space and nothing else in front of that and behind it; and what is left is
/// nothing, or has none around it. The two numbers are where it begins and ends.
pub proof fn law_trimming_takes_white_space_only(text: Seq<char>) -> (ends: (int, int))
    ensures
        0 <= ends.0 <= ends.1 <= text.len(),
        trimmed(text) == text.subrange(ends.0, ends.1),
        forall|i: int| 0 <= i < ends.0 ==> is_white(#[trigger] text[i]),
        forall|i: int| ends.1 <= i < text.len() ==> is_white(#[trigger] text[i]),
        ends.0 < ends.1 ==> !is_white(text[ends.0]) && !is_white(text[ends.1 - 1]),
        ends.0 == ends.1 ==> forall|i: int| 0 <= i < text.len() ==> is_white(#[trigger] text[i]),
{
    let from = lemma_front(text);
    let front = text.skip(from);
    let to = lemma_back(front);
    assert(front.take(to) =~= text.subrange(from, from + to));
    assert forall|i: int| from + to <= i < text.len() implies is_white(#[trigger] text[i]) by {
        assert(front[i - from] == text[i]);
    }
    if to > 0 {
        assert(front[to - 1] == text[from + to - 1]);
        assert(front[0] == text[from]);
    }
    (from, from + to)
}

proof fn lemma_front(text: Seq<char>) -> (from: int)
    ensures
        0 <= from <= text.len(),
        trimmed_front(text) == text.skip(from),
        forall|i: int| 0 <= i < from ==> is_white(#[trigger] text[i]),
        from < text.len() ==> !is_white(text[from]),
    decreases text.len(),
{
    if text.len() > 0 && is_white(text[0]) {
        let rest = text.skip(1);
        let from = lemma_front(rest);
        assert(rest.skip(from) =~= text.skip(from + 1));
        assert forall|i: int| 0 <= i < from + 1 implies is_white(#[trigger] text[i]) by {
            if i > 0 {
                assert(rest[i - 1] == text[i]);
            }
        }
        if from < rest.len() {
            assert(rest[from] == text[from + 1]);
        }
        from + 1
    } else {
        assert(text.skip(0) =~= text);
        0
    }
}

proof fn lemma_back(text: Seq<char>) -> (to: int)
    ensures
        0 <= to <= text.len(),
        trimmed_back(text) == text.take(to),
        forall|i: int| to <= i < text.len() ==> is_white(#[trigger] text[i]),
        to > 0 ==> !is_white(text[to - 1]),
    decreases text.len(),
{
    if text.len() > 0 && is_white(text.last()) {
        let rest = text.drop_last();
        let to = lemma_back(rest);
        assert(rest.take(to) =~= text.take(to));
        assert forall|i: int| to <= i < text.len() implies is_white(#[trigger] text[i]) by {
            if i < rest.len() {
                assert(rest[i] == text[i]);
            }
        }
        to
    } else {
        assert(text.take(text.len() as int) =~= text);
        text.len() as int
    }
}

/// Of the characters of ASCII, white space is the blank and the five from the
/// tab to the carriage return, and the controls are all in front of the blank
/// and the one at the end. Beyond it, the spaces that a font may set in several
/// widths are white space, and one of no width is not; and the second row of
/// controls are controls.
pub proof fn law_white_space_and_controls(c: char)
    ensures
        (c as u32) < 128 ==> (is_white(c) <==> c == ' ' || c == '\t' || c == '\n' || c == '\u{b}'
            || c == '\u{c}' || c == '\r'),
        (c as u32) < 128 ==> (is_control(c) <==> !(' ' <= c <= '~')),
        is_white(c) && !is_control(c) && c != ' ' ==> (c as u32) >= 0xa0,
        c == '\u{a0}' || c == '\u{3000}' || '\u{2000}' <= c <= '\u{200a}' || c == '\u{2028}' || c
            == '\u{2029}' || c == '\u{202f}' || c == '\u{205f}' || c == '\u{1680}' || c
            == '\u{85}' ==> is_white(c),
        c == '\u{200b}' || c == '\u{feff}' || c == '\u{180e}' || c > '\u{3000}' ==> !is_white(c),
        '\u{80}' <= c <= '\u{9f}' ==> is_control(c),
        c >= '\u{a0}' ==> !is_control(c),
{
}

/// A list of texts is one behind the other: one text alone is itself, and two
/// lists with the mark between them are the list of both.
pub proof fn law_a_list_is_its_parts(
    one: Seq<char>,
    front: Seq<Seq<char>>,
    back: Seq<Seq<char>>,
    mark: Seq<char>,
)
    requires
        front.len() > 0,
        back.len() > 0,
    ensures
        listed(seq![one], mark) == one,
        listed(front + back, mark) == listed(front, mark) + mark + listed(back, mark),
        listed(Seq::empty(), mark) == Seq::<char>::empty(),
    decreases back.len(),
{
    let all = front + back;
    let less = back.drop_last();
    assert(all.last() == back.last());
    assert(all.drop_last() =~= front + less);
    if back.len() == 1 {
        assert(front + less =~= front);
    } else {
        law_a_list_is_its_parts(one, front, less, mark);
        assert(listed(all, mark) =~= listed(front, mark) + mark + listed(back, mark));
    }
}

} // verus!
