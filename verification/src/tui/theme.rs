//! Which of two palettes the band paints in, decided once at start-up.
//!
//! A band drawn at the bottom of the terminal's normal buffer shares the screen
//! with the user's shell, so its rows have to read against a background this
//! process did not choose and cannot see. Three things can say what that
//! background is, and they are consulted in the order of how much each one
//! knows:
//!
//! 1. [`ENV`]: the user said so. Exactly `light` or `dark`, in any case;
//!    anything else is not an answer.
//! 2. The terminal's own answer to a background query ([`QUERY`]), read back off
//!    standard input with a deadline ([`DEADLINE_MILLIS`]).
//! 3. [`COLORFGBG`], which some terminals export and most do not.
//!
//! and when none of them says anything, dark.

use vstd::prelude::*;
use vstd::string::*;

use crate::text;

verus! {

/// The variable that fixes the palette without asking the terminal.
pub const ENV: &'static str = "XFX_THEME";

/// The variable some terminals export their foreground and background indices
/// in.
pub const COLORFGBG: &'static str = "COLORFGBG";

/// The variable a terminal claims 24-bit colour in.
pub const COLORTERM: &'static str = "COLORTERM";

/// The variable a terminal names itself in.
pub const TERM_PROGRAM: &'static str = "TERM_PROGRAM";

/// The background colour query (`OSC 11 ; ? ST`), written immediately before the
/// launch's cursor report request: a terminal answers in the order it parsed,
/// so a cursor report with no background reply in front of it says that none is
/// coming.
pub const QUERY: &'static str = "\u{1b}]11;?\u{1b}\\";

/// What every answer to [`QUERY`] begins with, and nothing else does.
pub const REPLY_PREFIX: &'static str = "\u{1b}]11;";

/// How long the terminal has to answer before the launch stops waiting, in
/// milliseconds.
pub const DEADLINE_MILLIS: u64 = 200;

/// What ends every run of colour this crate writes.
pub const RESET: &'static str = "\u{1b}[0m";

/// Where each role sits in a palette.
pub const DIVIDER: usize = 0;

pub const HINT: usize = 1;

pub const NOTICE: usize = 2;

/// Which way round the terminal's colours are.
#[derive(Debug, Clone, Copy, PartialEq, Eq, Structural)]
pub enum Mode {
    Dark,
    Light,
}

/// How exactly a colour can be asked for.
#[derive(Debug, Clone, Copy, PartialEq, Eq, Structural)]
pub enum Depth {
    /// The 256-colour palette, which every terminal in use has.
    Ansi256,
    /// Direct 24-bit colour, for a terminal that said it has it.
    TrueColor,
}

/// The colours the band paints its own rows in.
#[derive(Debug, Clone, Copy, PartialEq, Eq, Structural)]
pub struct Palette {
    pub mode: Mode,
    pub depth: Depth,
}

/// The grey one role is painted in, by 256-colour index.
pub open spec fn shade(mode: Mode, role: int) -> int {
    match mode {
        Mode::Dark => seq![240int, 255, 250][role],
        Mode::Light => seq![250int, 235, 241][role],
    }
}

/// The 256-colour foreground sequence for one index.
pub open spec fn indexed(index: int) -> Seq<char> {
    if index == 235 {
        "\u{1b}[38;5;235m"@
    } else if index == 240 {
        "\u{1b}[38;5;240m"@
    } else if index == 241 {
        "\u{1b}[38;5;241m"@
    } else if index == 250 {
        "\u{1b}[38;5;250m"@
    } else if index == 255 {
        "\u{1b}[38;5;255m"@
    } else {
        ""@
    }
}

/// The same shade, said exactly: index `i` of the greyscale ramp is the level
/// `8 + (i - 232) * 10` on all three channels.
pub open spec fn direct(index: int) -> Seq<char> {
    if index == 235 {
        "\u{1b}[38;2;38;38;38m"@
    } else if index == 240 {
        "\u{1b}[38;2;88;88;88m"@
    } else if index == 241 {
        "\u{1b}[38;2;98;98;98m"@
    } else if index == 250 {
        "\u{1b}[38;2;188;188;188m"@
    } else if index == 255 {
        "\u{1b}[38;2;238;238;238m"@
    } else {
        ""@
    }
}

/// What a palette paints a role in.
pub open spec fn painted(palette: Palette, role: int) -> Seq<char> {
    match palette.depth {
        Depth::Ansi256 => indexed(shade(palette.mode, role)),
        Depth::TrueColor => direct(shade(palette.mode, role)),
    }
}

/// The 256-colour foreground sequence for one index. The set is closed: a grey
/// that is not spelled here reads as no colour at all rather than as a wrong
/// one.
fn ansi256(index: u8) -> (sequence: &'static str)
    ensures
        sequence@ == indexed(index as int),
{
    match index {
        235 => "\u{1b}[38;5;235m",
        240 => "\u{1b}[38;5;240m",
        241 => "\u{1b}[38;5;241m",
        250 => "\u{1b}[38;5;250m",
        255 => "\u{1b}[38;5;255m",
        _ => "",
    }
}

/// The same shade, for a terminal that can take it exactly.
fn truecolor(index: u8) -> (sequence: &'static str)
    ensures
        sequence@ == direct(index as int),
{
    match index {
        235 => "\u{1b}[38;2;38;38;38m",
        240 => "\u{1b}[38;2;88;88;88m",
        241 => "\u{1b}[38;2;98;98;98m",
        250 => "\u{1b}[38;2;188;188;188m",
        255 => "\u{1b}[38;2;238;238;238m",
        _ => "",
    }
}

/// The level of one grey of the ramp that the indices from 232 on make, on each
/// of its three channels.
pub open spec fn level(index: int) -> nat {
    (8 + (index - 232) * 10) as nat
}

/// The two depths say the same greys in two notations: by index, and by the
/// level that index has on all three channels.
pub proof fn law_both_depths_are_the_same_grey(mode: Mode, role: int)
    requires
        DIVIDER <= role <= NOTICE,
    ensures
        ({
            let index = shade(mode, role);
            let grey = text::decimal(level(index));
            &&& painted(Palette { mode, depth: Depth::Ansi256 }, role) == "\u{1b}[38;5;"@
                + text::decimal(index as nat) + "m"@
            &&& painted(Palette { mode, depth: Depth::TrueColor }, role) == "\u{1b}[38;2;"@ + grey
                + ";"@ + grey + ";"@ + grey + "m"@
        }),
{
    reveal_with_fuel(text::decimal, 4);
    reveal_strlit("\u{1b}[38;5;");
    reveal_strlit("\u{1b}[38;2;");
    reveal_strlit(";");
    reveal_strlit("m");
    reveal_strlit("\u{1b}[38;5;235m");
    reveal_strlit("\u{1b}[38;5;240m");
    reveal_strlit("\u{1b}[38;5;241m");
    reveal_strlit("\u{1b}[38;5;250m");
    reveal_strlit("\u{1b}[38;5;255m");
    reveal_strlit("\u{1b}[38;2;38;38;38m");
    reveal_strlit("\u{1b}[38;2;88;88;88m");
    reveal_strlit("\u{1b}[38;2;98;98;98m");
    reveal_strlit("\u{1b}[38;2;188;188;188m");
    reveal_strlit("\u{1b}[38;2;238;238;238m");
    let index = shade(mode, role);
    let grey = text::decimal(level(index));
    assert(index == 235 || index == 240 || index == 241 || index == 250 || index == 255);
    assert(indexed(index) =~= "\u{1b}[38;5;"@ + text::decimal(index as nat) + "m"@);
    assert(direct(index) =~= "\u{1b}[38;2;"@ + grey + ";"@ + grey + ";"@ + grey + "m"@);
}

impl Palette {
    /// The rule between the document and the band.
    pub fn divider(&self) -> (sequence: &'static str)
        ensures
            sequence@ == painted(*self, DIVIDER as int),
    {
        self.paint(DIVIDER)
    }

    /// The band's last row.
    pub fn hint(&self) -> (sequence: &'static str)
        ensures
            sequence@ == painted(*self, HINT as int),
    {
        self.paint(HINT)
    }

    /// A refusal shown on that row.
    pub fn notice(&self) -> (sequence: &'static str)
        ensures
            sequence@ == painted(*self, NOTICE as int),
    {
        self.paint(NOTICE)
    }

    /// What ends a run, in either mode and at either depth.
    pub fn reset(&self) -> (sequence: &'static str)
        ensures
            sequence@ == RESET@,
    {
        RESET
    }

    /// One role's sequence.
    pub fn paint(&self, role: usize) -> (sequence: &'static str)
        requires
            role <= NOTICE,
        ensures
            sequence@ == painted(*self, role as int),
    {
        let index: u8 = match (self.mode, role) {
            (Mode::Dark, 0) => 240,
            (Mode::Dark, 1) => 255,
            (Mode::Dark, _) => 250,
            (Mode::Light, 0) => 250,
            (Mode::Light, 1) => 235,
            (Mode::Light, _) => 241,
        };
        assert(index == shade(self.mode, role as int));
        match self.depth {
            Depth::Ansi256 => ansi256(index),
            Depth::TrueColor => truecolor(index),
        }
    }
}

/// Whether a complete `OSC` string is an answer to [`QUERY`].
pub fn is_background_reply(reply: &str) -> (yes: bool)
    ensures
        yes == text::stands_at(reply@, REPLY_PREFIX@, 0),
{
    let whole: Vec<char> = text::characters(reply);
    let prefix: Vec<char> = text::characters(REPLY_PREFIX);
    text::standing_at(whole.as_slice(), prefix.as_slice(), 0)
}

/// What a component of a given number of digits is scaled by: the most that many
/// hexadecimal digits can say.
pub open spec fn full(digits: int) -> int {
    if digits == 1 {
        0xf
    } else if digits == 2 {
        0xff
    } else if digits == 3 {
        0xfff
    } else {
        0xffff
    }
}

/// One hexadecimal component of a background reply, one to four digits, scaled
/// to sixteen bits.
pub open spec fn scaled(part: Seq<char>) -> Option<int> {
    if 1 <= part.len() <= 4 {
        match text::digits_value(part, 16) {
            Some(value) => Some((value as int) * 0xffff / full(part.len() as int)),
            None => None,
        }
    } else {
        None
    }
}

/// What is left of a background reply between its envelope: behind the prefix
/// and in front of the string terminator or the bell.
pub open spec fn reply_body(reply: Seq<char>) -> Option<Seq<char>> {
    let opened = "\u{1b}]11;rgb:"@;
    let rest = reply.skip(opened.len() as int);
    if !text::stands_at(reply, opened, 0) {
        None
    } else if text::stands_at(rest, seq!['\u{1b}', '\\'], rest.len() - 2) {
        Some(rest.take(rest.len() - 2))
    } else if text::stands_at(rest, seq!['\u{07}'], rest.len() - 1) {
        Some(rest.take(rest.len() - 1))
    } else {
        None
    }
}

/// What a background of three components is: light when its perceived luminance
/// is over half.
pub open spec fn background(parts: Seq<Seq<char>>) -> Option<Mode> {
    if parts.len() != 3 {
        None
    } else {
        match (scaled(parts[0]), scaled(parts[1]), scaled(parts[2])) {
            (Some(red), Some(green), Some(blue)) => Some(
                if (red * 299 + green * 587 + blue * 114) / 1000 > 32768 {
                    Mode::Light
                } else {
                    Mode::Dark
                },
            ),
            _ => None,
        }
    }
}

/// What a whole background reply says.
pub open spec fn reply_mode(reply: Seq<char>) -> Option<Mode> {
    match reply_body(reply) {
        Some(body) => background(text::split_on(body, '/')),
        None => None,
    }
}

/// One hexadecimal component of a background reply, scaled to sixteen bits: `f`,
/// `ff`, `fff` and `ffff` all mean full.
fn component(part: &[char]) -> (value: Option<u32>)
    ensures
        value is Some == scaled(part@) is Some,
        value matches Some(v) ==> Some(v as int) == scaled(part@) && v <= 0x10000,
{
    if part.len() == 0 || part.len() > 4 {
        return None;
    }
    let full: u32 = match part.len() {
        1 => 0xf,
        2 => 0xff,
        3 => 0xfff,
        _ => 0xffff,
    };
    proof {
        lemma_fits(part@);
    }
    assert(part@.skip(0) =~= part@);
    match text::parse_digits(part, 0, 16, full) {
        None => None,
        Some(value) => Some((value as u64 * 0xffff / full as u64) as u32),
    }
}

/// That many hexadecimal digits say no more than they can.
proof fn lemma_fits(part: Seq<char>)
    requires
        1 <= part.len() <= 4,
    ensures
        text::digits_value(part, 16) matches Some(value) ==> value <= full(part.len() as int),
{
    reveal_with_fuel(text::digits_value, 5);
}

/// What a whole background reply says the background is, when it is one.
///
/// The reply carries three hexadecimal components of one to four digits each,
/// and the mode is their perceived luminance. Anything that is not exactly this
/// shape is no answer: "the terminal did not answer" has to be tellable from
/// "the terminal said dark".
pub fn parse_osc11(reply: &str) -> (mode: Option<Mode>)
    ensures
        mode == reply_mode(reply@),
{
    let whole: Vec<char> = text::characters(reply);
    let opened: Vec<char> = text::characters("\u{1b}]11;rgb:");
    if !text::standing_at(whole.as_slice(), opened.as_slice(), 0) {
        return None;
    }
    let from: usize = opened.len();
    let ghost rest = reply@.skip(from as int);
    let left: usize = whole.len() - from;
    let terminator: Vec<char> = vec!['\u{1b}', '\\'];
    let bell: Vec<char> = vec!['\u{07}'];
    proof {
        assert(terminator@ =~= seq!['\u{1b}', '\\']);
        assert(bell@ =~= seq!['\u{07}']);
    }
    let kept: usize;
    if left >= 2 && text::standing_at(whole.as_slice(), terminator.as_slice(), whole.len() - 2) {
        kept = left - 2;
        proof {
            assert(rest.subrange(rest.len() - 2, rest.len() as int) =~= reply@.subrange(
                reply@.len() - 2,
                reply@.len() as int,
            ));
        }
    } else {
        proof {
            if left >= 2 {
                assert(rest.subrange(rest.len() - 2, rest.len() as int) =~= reply@.subrange(
                    reply@.len() - 2,
                    reply@.len() as int,
                ));
            }
            if left >= 1 {
                assert(rest.subrange(rest.len() - 1, rest.len() as int) =~= reply@.subrange(
                    reply@.len() - 1,
                    reply@.len() as int,
                ));
            }
        }
        if left >= 1 && text::standing_at(whole.as_slice(), bell.as_slice(), whole.len() - 1) {
            kept = left - 1;
        } else {
            return None;
        }
    }
    let body: &[char] = vstd::slice::slice_subrange(whole.as_slice(), from, from + kept);
    assert(body@ =~= rest.take(kept as int));
    let parts: Vec<Vec<char>> = text::split(body, '/');
    let ghost all = text::split_on(body@, '/');
    assert(all.len() == parts@.len());
    if parts.len() != 3 {
        return None;
    }
    assert(all[0] == parts@[0]@ && all[1] == parts@[1]@ && all[2] == parts@[2]@);
    let red: Option<u32> = component(parts[0].as_slice());
    let green: Option<u32> = component(parts[1].as_slice());
    let blue: Option<u32> = component(parts[2].as_slice());
    match (red, green, blue) {
        (Some(r), Some(g), Some(b)) => {
            let luminance: u32 = (r * 299 + g * 587 + b * 114) / 1000;
            if luminance > 32768 {
                Some(Mode::Light)
            } else {
                Some(Mode::Dark)
            }
        },
        _ => None,
    }
}

/// A reply that says what the background is, is an answer to [`QUERY`].
pub proof fn law_what_can_be_read_is_an_answer(reply: Seq<char>)
    requires
        reply_mode(reply) is Some,
    ensures
        text::stands_at(reply, REPLY_PREFIX@, 0),
{
    reveal_strlit("\u{1b}]11;");
    reveal_strlit("\u{1b}]11;rgb:");
    let opened = "\u{1b}]11;rgb:"@;
    assert(reply.subrange(0, opened.len() as int) =~= opened);
    assert forall|i: int| 0 <= i < 5 implies reply[i] == #[trigger] REPLY_PREFIX@[i] by {
        assert(reply[i] == reply.subrange(0, opened.len() as int)[i]);
    }
    assert(reply.subrange(0, 5) =~= REPLY_PREFIX@);
}

/// What [`COLORFGBG`] says: a list of numbers between semicolons, whose last is
/// the background index, and the bright half of the sixteen is light.
pub open spec fn indices_mode(value: Seq<char>) -> Option<Mode> {
    let fields = text::split_on(value, ';');
    let index = text::number(fields.last(), 10);
    if fields.len() < 2 {
        None
    } else if exists|i: int| 0 <= i < fields.len() && text::number(#[trigger] fields[i], 10) is None {
        None
    } else if index->0 > 255 {
        None
    } else if index->0 >= 8 {
        Some(Mode::Light)
    } else {
        Some(Mode::Dark)
    }
}

/// What [`COLORFGBG`] says the background is, when it says anything. A value that
/// is not a list of numbers is no answer.
pub fn from_colorfgbg(value: &str) -> (mode: Option<Mode>)
    ensures
        mode == indices_mode(value@),
{
    let chars: Vec<char> = text::characters(value);
    let fields: Vec<Vec<char>> = text::split(chars.as_slice(), ';');
    let ghost all = text::split_on(value@, ';');
    assert(all.len() == fields@.len());
    if fields.len() < 2 {
        return None;
    }
    let mut at: usize = 0;
    while at < fields.len()
        invariant
            all == text::split_on(value@, ';'),
            fields@.len() == all.len(),
            all.len() >= 2,
            forall|i: int| 0 <= i < all.len() ==> #[trigger] all[i] == fields@[i]@,
            at <= fields@.len(),
            forall|i: int| 0 <= i < at ==> text::number(#[trigger] all[i], 10) is Some,
        decreases fields@.len() - at,
    {
        assert(all[at as int] == fields@[at as int]@);
        if !text::is_number(fields[at].as_slice(), 10) {
            return None;
        }
        at = at + 1;
    }
    let last: usize = fields.len() - 1;
    assert(all.last() == fields@[last as int]@);
    assert(text::number(all[last as int], 10) is Some);
    match text::parse_number(fields[last].as_slice(), 10, 255) {
        None => None,
        Some(index) => if index >= 8 {
            Some(Mode::Light)
        } else {
            Some(Mode::Dark)
        },
    }
}

/// What [`ENV`] says: one of two words, in any case.
pub open spec fn word_mode(value: Seq<char>) -> Option<Mode> {
    if text::same_letters(value, "light"@) {
        Some(Mode::Light)
    } else if text::same_letters(value, "dark"@) {
        Some(Mode::Dark)
    } else {
        None
    }
}

/// What [`ENV`] says, when it says one of the two things it may say.
fn from_env(value: &str) -> (mode: Option<Mode>)
    ensures
        mode == word_mode(value@),
{
    if text::same_but_for_case(value, "light") {
        Some(Mode::Light)
    } else if text::same_but_for_case(value, "dark") {
        Some(Mode::Dark)
    } else {
        None
    }
}

/// What an optional value says.
pub open spec fn said_by(value: Option<&str>, says: spec_fn(Seq<char>) -> Option<Mode>) -> Option<
    Mode,
> {
    match value {
        Some(text) => says(text@),
        None => None,
    }
}

/// Whether the palette is already decided without asking the terminal.
pub fn decided(env_theme: Option<&str>) -> (yes: bool)
    ensures
        yes == (said_by(env_theme, |value: Seq<char>| word_mode(value)) is Some),
{
    match env_theme {
        Some(value) => from_env(value).is_some(),
        None => false,
    }
}

/// The mode, from every source in the order they outrank each other.
pub open spec fn outranked(
    env_theme: Option<&str>,
    osc: Option<Mode>,
    colorfgbg: Option<&str>,
) -> Mode {
    match said_by(env_theme, |value: Seq<char>| word_mode(value)) {
        Some(mode) => mode,
        None => match osc {
            Some(mode) => mode,
            None => match said_by(colorfgbg, |value: Seq<char>| indices_mode(value)) {
                Some(mode) => mode,
                None => Mode::Dark,
            },
        },
    }
}

/// The mode, from every source in the order they outrank each other.
pub fn detect(env_theme: Option<&str>, osc: Option<Mode>, colorfgbg: Option<&str>) -> (mode: Mode)
    ensures
        mode == outranked(env_theme, osc, colorfgbg),
{
    if let Some(value) = env_theme {
        if let Some(mode) = from_env(value) {
            return mode;
        }
    }
    if let Some(mode) = osc {
        return mode;
    }
    if let Some(value) = colorfgbg {
        if let Some(mode) = from_colorfgbg(value) {
            return mode;
        }
    }
    Mode::Dark
}

/// Whether a terminal claims 24-bit colour and is to be believed.
pub open spec fn claims_truecolor(colorterm: Option<&str>, term_program: Option<&str>) -> bool {
    &&& !(term_program matches Some(program) && program@ == "Apple_Terminal"@)
    &&& colorterm matches Some(claim) && (text::holds(claim@, "truecolor"@) || text::holds(
        claim@,
        "24bit"@,
    ))
}

/// Whether the terminal can be asked for an exact colour. Truecolor is claimed,
/// never assumed, and Apple Terminal is not believed even when it makes the
/// claim.
pub fn depth_from_env(colorterm: Option<&str>, term_program: Option<&str>) -> (depth: Depth)
    ensures
        depth == (if claims_truecolor(colorterm, term_program) {
            Depth::TrueColor
        } else {
            Depth::Ansi256
        }),
{
    if let Some(program) = term_program {
        if text::same(program, "Apple_Terminal") {
            return Depth::Ansi256;
        }
    }
    if let Some(claim) = colorterm {
        if text::holding(claim, "truecolor") || text::holding(claim, "24bit") {
            return Depth::TrueColor;
        }
    }
    Depth::Ansi256
}

/// The user's word outranks the terminal's, the terminal's outranks the
/// variable's, and with none of them the background is dark.
pub proof fn law_the_order_of_the_sources(
    env_theme: Option<&str>,
    osc: Option<Mode>,
    colorfgbg: Option<&str>,
    other_osc: Option<Mode>,
    other_colorfgbg: Option<&str>,
)
    ensures
        (env_theme matches Some(value) && word_mode(value@) is Some) ==> outranked(
            env_theme,
            osc,
            colorfgbg,
        ) == outranked(env_theme, other_osc, other_colorfgbg),
        osc is Some ==> outranked(env_theme, osc, colorfgbg) == outranked(
            env_theme,
            osc,
            other_colorfgbg,
        ),
        outranked(None, None, None) == Mode::Dark,
{
}

/// A run of hexadecimal digits holds no slash.
proof fn lemma_digits_hold_no_slash(part: Seq<char>, at: int)
    requires
        text::digits_value(part, 16) is Some,
        0 <= at < part.len(),
    ensures
        part[at] != '/',
    decreases part.len(),
{
    if part.len() > 1 && at < part.len() - 1 {
        lemma_digits_hold_no_slash(part.drop_last(), at);
    }
}

/// What three components with a slash between each two are parted into.
proof fn lemma_three_parts(red: Seq<char>, green: Seq<char>, blue: Seq<char>)
    requires
        !red.contains('/'),
        !green.contains('/'),
        !blue.contains('/'),
    ensures
        text::split_on(red.push('/') + (green.push('/') + blue), '/') == seq![red, green, blue],
{
    text::law_a_text_is_parted_at_its_marks(red, '/', green.push('/') + blue);
    text::law_a_text_is_parted_at_its_marks(green, '/', blue);
    text::law_a_text_is_parted_at_its_marks(blue, '/', Seq::empty());
    assert(seq![red] + (seq![green] + seq![blue]) =~= seq![red, green, blue]);
}

/// A reply of three components of one to four hexadecimal digits is read, in
/// either of the two envelopes a terminal may close it with: it is light exactly
/// where the sum of the components, each taken as a share of the most that many
/// digits can say and scaled to sixteen bits, weighted 299 to 587 to 114, is at
/// least 32769 thousands.
pub proof fn law_a_reply_is_light_by_its_luminance(
    red: Seq<char>,
    green: Seq<char>,
    blue: Seq<char>,
)
    requires
        1 <= red.len() <= 4 && text::digits_value(red, 16) is Some,
        1 <= green.len() <= 4 && text::digits_value(green, 16) is Some,
        1 <= blue.len() <= 4 && text::digits_value(blue, 16) is Some,
    ensures
        ({
            let said = "\u{1b}]11;rgb:"@ + red + "/"@ + green + "/"@ + blue;
            let share = |part: Seq<char>|
                (text::digits_value(part, 16)->0 as int) * 65535 / (vstd::arithmetic::power::pow(
                    16,
                    part.len(),
                ) - 1);
            let luminance = 299 * share(red) + 587 * share(green) + 114 * share(blue);
            let mode = if luminance >= 32769000 {
                Mode::Light
            } else {
                Mode::Dark
            };
            &&& reply_mode(said + "\u{1b}\\"@) == Some(mode)
            &&& reply_mode(said + "\u{7}"@) == Some(mode)
        }),
{
    reveal_strlit("\u{1b}]11;rgb:");
    reveal_strlit("/");
    reveal_strlit("\u{1b}\\");
    reveal_strlit("\u{7}");
    lemma_widths();
    let opened = "\u{1b}]11;rgb:"@;
    let body = red.push('/') + (green.push('/') + blue);
    assert(!red.contains('/') && !green.contains('/') && !blue.contains('/')) by {
        assert forall|i: int| 0 <= i < red.len() implies red[i] != '/' by {
            lemma_digits_hold_no_slash(red, i);
        }
        assert forall|i: int| 0 <= i < green.len() implies green[i] != '/' by {
            lemma_digits_hold_no_slash(green, i);
        }
        assert forall|i: int| 0 <= i < blue.len() implies blue[i] != '/' by {
            lemma_digits_hold_no_slash(blue, i);
        }
    }
    lemma_three_parts(red, green, blue);
    let said = opened + red + "/"@ + green + "/"@ + blue;
    assert(said =~= opened + body);
    let long = said + "\u{1b}\\"@;
    let short = said + "\u{7}"@;
    assert(long.subrange(0, opened.len() as int) =~= opened);
    assert(short.subrange(0, opened.len() as int) =~= opened);
    let rest = long.skip(opened.len() as int);
    assert(rest.subrange(rest.len() - 2, rest.len() as int) =~= seq!['\u{1b}', '\\']);
    assert(rest.take(rest.len() - 2) =~= body);
    let rest = short.skip(opened.len() as int);
    assert(rest.subrange(rest.len() - 1, rest.len() as int) =~= seq!['\u{07}']);
    assert(rest.subrange(rest.len() - 2, rest.len() as int)[1] == '\u{07}');
    assert(rest.take(rest.len() - 1) =~= body);
    assert(reply_body(long) == Some(body));
    assert(reply_body(short) == Some(body));
}

proof fn lemma_widths()
    ensures
        vstd::arithmetic::power::pow(16, 1) == 0x10,
        vstd::arithmetic::power::pow(16, 2) == 0x100,
        vstd::arithmetic::power::pow(16, 3) == 0x1000,
        vstd::arithmetic::power::pow(16, 4) == 0x10000,
{
    reveal_with_fuel(vstd::arithmetic::power::pow, 5);
}

/// Brightening a component never turns light into dark: of two replies whose
/// components have the same digits or say more, the brighter is light where the
/// other is. And a reply is light where every component is over half of what its
/// digits can say by one in the thousand or more, and dark where none is over
/// half.
pub proof fn law_brighter_is_never_darker(dim: Seq<Seq<char>>, bright: Seq<Seq<char>>)
    requires
        dim.len() == 3,
        bright.len() == 3,
        forall|i: int|
            0 <= i < 3 ==> {
                &&& 1 <= (#[trigger] dim[i]).len() <= 4
                &&& dim[i].len() == bright[i].len()
                &&& text::digits_value(dim[i], 16) is Some
                &&& text::digits_value(bright[i], 16) is Some
                &&& text::digits_value(dim[i], 16)->0 <= text::digits_value(bright[i], 16)->0
            },
    ensures
        background(dim) == Some(Mode::Light) ==> background(bright) == Some(Mode::Light),
        background(bright) == Some(Mode::Dark) ==> background(dim) == Some(Mode::Dark),
        (forall|i: int|
            0 <= i < 3 ==> 1000 * text::digits_value(#[trigger] dim[i], 16)->0 >= 501 * (
            vstd::arithmetic::power::pow(16, dim[i].len()) - 1)) ==> background(dim) == Some(
            Mode::Light,
        ),
        (forall|i: int|
            0 <= i < 3 ==> 2 * text::digits_value(#[trigger] dim[i], 16)->0
                <= vstd::arithmetic::power::pow(16, dim[i].len()) - 1) ==> background(dim) == Some(
            Mode::Dark,
        ),
{
    lemma_widths();
    assert forall|i: int| 0 <= i < 3 implies {
        let low = text::digits_value(#[trigger] dim[i], 16)->0 as int;
        let high = text::digits_value(bright[i], 16)->0 as int;
        let most = full(dim[i].len() as int);
        &&& low * 65535 / most <= high * 65535 / most
        &&& 1000 * low >= 501 * most ==> low * 65535 / most >= 32833 - 1
        &&& 2 * low <= most ==> low * 65535 / most <= 32768
        &&& scaled(dim[i]) == Some(low * 65535 / most)
        &&& scaled(bright[i]) == Some(high * 65535 / most)
    } by {
        let low = text::digits_value(dim[i], 16)->0 as int;
        let high = text::digits_value(bright[i], 16)->0 as int;
        let most = full(dim[i].len() as int);
        assert(low * 65535 / most <= high * 65535 / most) by (nonlinear_arith)
            requires
                low <= high,
                most == 0xf || most == 0xff || most == 0xfff || most == 0xffff,
        ;
    }
    assert(scaled(dim[0]) is Some && scaled(dim[1]) is Some && scaled(dim[2]) is Some);
    assert(scaled(bright[0]) is Some && scaled(bright[1]) is Some && scaled(bright[2]) is Some);
    assert(dim[0] == dim[0] && dim[1] == dim[1] && dim[2] == dim[2]);
}

/// Nothing else is a reply that is read: one that is read opens and closes as a
/// reply does, and holds three components of one to four hexadecimal digits,
/// with a slash between each two.
#[verifier::spinoff_prover]
#[verifier::rlimit(40)]
pub proof fn law_nothing_else_is_a_reply(reply: Seq<char>) -> (parts: Seq<Seq<char>>)
    requires
        reply_mode(reply) is Some,
    ensures
        parts.len() == 3,
        forall|i: int|
            0 <= i < 3 ==> 1 <= (#[trigger] parts[i]).len() <= 4 && text::digits_value(
                parts[i],
                16,
            ) is Some,
        ({
            let said = "\u{1b}]11;rgb:"@ + parts[0] + "/"@ + parts[1] + "/"@ + parts[2];
            reply == said + "\u{1b}\\"@ || reply == said + "\u{7}"@
        }),
{
    reveal_strlit("\u{1b}]11;rgb:");
    reveal_strlit("/");
    reveal_strlit("\u{1b}\\");
    reveal_strlit("\u{7}");
    let opened = "\u{1b}]11;rgb:"@;
    let rest = reply.skip(opened.len() as int);
    let body = reply_body(reply)->0;
    let parts = text::split_on(body, '/');
    lemma_parts_again(body, '/');
    lemma_three_listed(parts);
    let said = opened + parts[0] + "/"@ + parts[1] + "/"@ + parts[2];
    assert(reply.subrange(0, opened.len() as int) =~= opened);
    assert(reply =~= opened + rest);
    if text::stands_at(rest, seq!['\u{1b}', '\\'], rest.len() - 2) {
        assert(rest =~= body + rest.subrange(rest.len() - 2, rest.len() as int));
        assert(reply =~= said + "\u{1b}\\"@);
    } else {
        assert(rest =~= body + rest.subrange(rest.len() - 1, rest.len() as int));
        assert(reply =~= said + "\u{7}"@);
    }
    parts
}

/// Three parts with a slash between each two.
proof fn lemma_three_listed(parts: Seq<Seq<char>>)
    requires
        parts.len() == 3,
    ensures
        text::listed(parts, seq!['/']) == parts[0] + "/"@ + parts[1] + "/"@ + parts[2],
{
    reveal_strlit("/");
    let two = parts.drop_last();
    let one = two.drop_last();
    assert(text::listed(one, seq!['/']) == one[0]);
    assert(text::listed(two, seq!['/']) == one[0] + seq!['/'] + two[1]);
    assert("/"@ =~= seq!['/']);
}

/// The parts of a text with the marks between them again are the text.
proof fn lemma_parts_again(text: Seq<char>, mark: char)
    ensures
        text::split_on(text, mark).len() > 0,
        text::listed(text::split_on(text, mark), seq![mark]) == text,
    decreases text.len(),
{
    if text.len() > 0 {
        let less = text.drop_last();
        lemma_parts_again(less, mark);
        let before = text::split_on(less, mark);
        let all = text::split_on(text, mark);
        if text.last() == mark {
            assert(all.drop_last() =~= before);
            assert(text::listed(all, seq![mark]) =~= text);
        } else {
            assert(all.drop_last() =~= before.drop_last());
            assert(text::listed(all, seq![mark]) =~= text::listed(before, seq![mark]).push(
                text.last(),
            ));
        }
    } else {
        assert(text::split_on(text, mark) =~= seq![Seq::empty()]);
        assert(text =~= Seq::empty());
    }
}

/// A list of numbers says the background by its last, however many stand in
/// front of it: one from zero to seven is dark, one from eight to 255 light, and
/// a larger one is no answer. One number alone is none either.
pub proof fn law_the_last_number_is_the_background(front: Seq<nat>, index: nat)
    requires
        front.len() > 0,
    ensures
        ({
            let fields = front.map_values(|value: nat| text::decimal(value));
            let value = text::listed(fields.push(text::decimal(index)), ";"@);
            indices_mode(value) == (if index < 8 {
                Some(Mode::Dark)
            } else if index <= 255 {
                Some(Mode::Light)
            } else {
                None
            })
        }),
        indices_mode(text::decimal(index)) is None,
{
    reveal_strlit(";");
    let fields = front.map_values(|value: nat| text::decimal(value)).push(text::decimal(index));
    assert(";"@ =~= seq![';']);
    assert forall|i: int| 0 <= i < fields.len() implies !(#[trigger] fields[i]).contains(';')
        && text::number(fields[i], 10) is Some by {
        let value = if i < front.len() {
            front[i]
        } else {
            index
        };
        assert(fields[i] == text::decimal(value));
        text::law_a_number_reads_back(value);
    }
    lemma_fields_again(fields, ';');
    text::law_a_number_reads_back(index);
    assert(fields.last() == text::decimal(index));
    let one = text::decimal(index);
    assert(!one.contains(';')) by {
        assert(fields[fields.len() - 1] == one);
    }
    text::law_a_text_is_parted_at_its_marks(one, ';', Seq::empty());
}

/// Fields without a mark in them, with marks between them, are parted into those
/// fields again.
proof fn lemma_fields_again(fields: Seq<Seq<char>>, mark: char)
    requires
        fields.len() > 0,
        forall|i: int| 0 <= i < fields.len() ==> !(#[trigger] fields[i]).contains(mark),
    ensures
        text::split_on(text::listed(fields, seq![mark]), mark) == fields,
    decreases fields.len(),
{
    let first = fields[0];
    let rest = fields.skip(1);
    if fields.len() == 1 {
        text::law_a_text_is_parted_at_its_marks(first, mark, Seq::empty());
        assert(seq![first] =~= fields);
    } else {
        assert forall|i: int| 0 <= i < rest.len() implies !(#[trigger] rest[i]).contains(mark) by {
            assert(rest[i] == fields[i + 1]);
        }
        lemma_fields_again(rest, mark);
        assert(seq![first] + rest =~= fields);
        text::law_a_list_is_its_parts(first, seq![first], rest, seq![mark]);
        text::law_a_text_is_parted_at_its_marks(first, mark, text::listed(rest, seq![mark]));
        assert(first + seq![mark] + text::listed(rest, seq![mark]) =~= first.push(mark)
            + text::listed(rest, seq![mark]));
    }
}

/// A field that is no number makes the whole list no answer.
pub proof fn law_a_word_among_the_numbers_is_no_answer(fields: Seq<Seq<char>>, at: int)
    requires
        0 <= at < fields.len(),
        forall|i: int| 0 <= i < fields.len() ==> !(#[trigger] fields[i]).contains(';'),
        text::digits_value(fields[at], 10) is None,
        fields[at].len() == 0 || fields[at][0] != '+',
    ensures
        indices_mode(text::listed(fields, ";"@)) is None,
{
    reveal_strlit(";");
    assert(";"@ =~= seq![';']);
    lemma_fields_again(fields, ';');
    assert(text::number(fields[at], 10) is None);
}

/// The user's word is one of two, in any case, and stands against everything the
/// terminal says; where it is neither, the terminal's answer stands; and where
/// there is none, the variable's.
pub proof fn law_a_word_decides(
    word: &str,
    osc: Option<Mode>,
    colorfgbg: Option<&str>,
    mode: Mode,
    variable: &str,
)
    ensures
        text::same_letters(word@, "light"@) ==> outranked(Some(word), osc, colorfgbg)
            == Mode::Light,
        text::same_letters(word@, "dark"@) ==> outranked(Some(word), osc, colorfgbg) == Mode::Dark,
        !text::same_letters(word@, "light"@) && !text::same_letters(word@, "dark"@) ==> outranked(
            Some(word),
            Some(mode),
            colorfgbg,
        ) == mode,
        outranked(None, Some(mode), colorfgbg) == mode,
        outranked(None, None, Some(variable)) == (match indices_mode(variable@) {
            Some(mode) => mode,
            None => Mode::Dark,
        }),
{
    reveal_strlit("light");
    reveal_strlit("dark");
}

/// A terminal is asked for exact colours where it claims them in either of two
/// words, anywhere in what it claims; one program is never believed.
pub proof fn law_exact_colours_are_claimed(
    before: Seq<char>,
    after: Seq<char>,
    claim: &str,
    program: &str,
)
    ensures
        claim@ == before + "truecolor"@ + after ==> claims_truecolor(Some(claim), None),
        claim@ == before + "24bit"@ + after ==> claims_truecolor(Some(claim), None),
        program@ != "Apple_Terminal"@ ==> claims_truecolor(Some(claim), Some(program))
            == claims_truecolor(Some(claim), None),
        program@ == "Apple_Terminal"@ ==> !claims_truecolor(Some(claim), Some(program)),
        !claims_truecolor(None, Some(program)) && !claims_truecolor(None, None),
        !text::holds(claim@, "truecolor"@) && !text::holds(claim@, "24bit"@) ==> !claims_truecolor(
            Some(claim),
            None,
        ),
{
    text::law_what_holds_a_text_is_made_of_it(before, "truecolor"@, after, claim@);
    text::law_what_holds_a_text_is_made_of_it(before, "24bit"@, after, claim@);
}

/// The hint stands out most from the background and the divider least: on a dark
/// one the lighter the more, on a light one the darker. Every shade is on the
/// grey ramp.
pub proof fn law_the_hint_stands_out_most()
    ensures
        shade(Mode::Dark, DIVIDER as int) == 240 && shade(Mode::Light, DIVIDER as int) == 250,
        shade(Mode::Dark, HINT as int) == 255 && shade(Mode::Light, HINT as int) == 235,
        shade(Mode::Dark, NOTICE as int) == 250 && shade(Mode::Light, NOTICE as int) == 241,
        232 <= shade(Mode::Dark, DIVIDER as int) < shade(Mode::Dark, NOTICE as int) < shade(
            Mode::Dark,
            HINT as int,
        ) <= 255,
        232 <= shade(Mode::Light, HINT as int) < shade(Mode::Light, NOTICE as int) < shade(
            Mode::Light,
            DIVIDER as int,
        ) <= 255,
        shade(Mode::Light, HINT as int) < 244 <= shade(Mode::Dark, HINT as int),
        shade(Mode::Light, NOTICE as int) < 244 <= shade(Mode::Dark, NOTICE as int),
        shade(Mode::Dark, DIVIDER as int) < 244 <= shade(Mode::Light, DIVIDER as int),
{
}

} // verus!
