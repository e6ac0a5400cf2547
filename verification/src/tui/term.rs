//! The terminal a session borrows, and the shape in which it gives it back.
//!
//! The terminal is two descriptors. Raw mode is a property of the one input
//! arrives on; the mode sequences are screen state on the one output leaves by.
//! They differ in a redirected session, so a restore names both.

use vstd::prelude::*;

use crate::text;

verus! {

/// The modes a session turns on: modified keys, the keyboard push, bracketed
/// paste, no autowrap, and the push of the window title. Mouse reporting is not
/// among them: the wheel stays the terminal's own.
pub const MODE_SET: &'static str = "\x1b[>4;2m\x1b[>1u\x1b[?2004h\x1b[?7l\x1b[22;2t";

/// The same without the keyboard push, which breaks key input under tmux.
pub const MODE_SET_TMUX: &'static str = "\x1b[>4;2m\x1b[?2004h\x1b[?7l\x1b[22;2t";

/// What a planned exit writes. The main surface was never on the alternate
/// screen, so nothing here leaves one.
pub const RESTORE: &'static str = "\x1b[23;2t\x1b[>4;0m\x1b[<u\x1b[?2004l\x1b[?7h\x1b[?25h";

/// The same under tmux, which was never given the push to pop.
pub const RESTORE_TMUX: &'static str = "\x1b[23;2t\x1b[>4;0m\x1b[?2004l\x1b[?7h\x1b[?25h";

/// What any other exit writes. It leaves the alternate screen first: a crash
/// may have happened on one.
pub const ABNORMAL_RESTORE: &'static str =
    "\x1b[?1049l\x1b[23;2t\x1b[>4;0m\x1b[<u\x1b[?2004l\x1b[?7h\x1b[?25h";

/// The same under tmux.
pub const ABNORMAL_RESTORE_TMUX: &'static str =
    "\x1b[?1049l\x1b[23;2t\x1b[>4;0m\x1b[?2004l\x1b[?7h\x1b[?25h";

/// The height of a terminal that will not say.
pub const DEFAULT_ROWS: u16 = 24;

/// The width of a terminal that will not say.
pub const DEFAULT_COLS: u16 = 80;

/// Whether a variable is set, and to something.
pub open spec fn says_tmux(value: Option<&[u8]>) -> bool {
    value matches Some(bytes) && bytes@.len() > 0
}

/// Whether a session runs under tmux, from the variable that says so: set, and
/// to something.
pub fn under_tmux(value: Option<&[u8]>) -> (yes: bool)
    ensures
        yes == says_tmux(value),
        yes == (value matches Some(bytes) && bytes@.len() > 0),
{
    match value {
        Some(bytes) => bytes.len() > 0,
        None => false,
    }
}

/// The modes a session turns on.
pub open spec fn turned_on(tmux: bool) -> Seq<char> {
    if tmux {
        MODE_SET_TMUX@
    } else {
        MODE_SET@
    }
}

/// The modes a session turns on.
pub fn mode_set(tmux: bool) -> (bytes: &'static str)
    ensures
        bytes@ == turned_on(tmux),
        bytes@ == if tmux {
            MODE_SET_TMUX@
        } else {
            MODE_SET@
        },
{
    if tmux {
        MODE_SET_TMUX
    } else {
        MODE_SET
    }
}

/// The terminal words raw mode is about, and the one it leaves alone.
#[derive(Debug, Clone, Copy, PartialEq, Eq, Structural)]
pub struct Discipline {
    pub brkint: bool,
    pub icrnl: bool,
    pub inpck: bool,
    pub istrip: bool,
    pub ixon: bool,
    pub ixoff: bool,
    pub cs8: bool,
    pub echo: bool,
    pub icanon: bool,
    pub iexten: bool,
    pub isig: bool,
    pub vmin: u8,
    pub vtime: u8,
    /// Output processing, which is not a session's to take.
    pub output: u32,
}

/// A terminal in raw mode, but for the words raw mode does not touch.
pub open spec fn raw(saved: Discipline) -> Discipline {
    Discipline {
        brkint: false,
        icrnl: false,
        inpck: false,
        istrip: false,
        ixon: false,
        ixoff: false,
        cs8: true,
        echo: false,
        icanon: false,
        iexten: false,
        isig: false,
        vmin: 1,
        vtime: 0,
        output: saved.output,
    }
}

/// Raw mode, as a change to the attributes a terminal has.
pub fn raw_from(saved: &Discipline) -> (attributes: Discipline)
    ensures
        attributes == raw(*saved),
{
    let mut attributes: Discipline = *saved;
    attributes.brkint = false;
    attributes.icrnl = false;
    attributes.inpck = false;
    attributes.istrip = false;
    attributes.ixon = false;
    attributes.ixoff = false;
    attributes.cs8 = true;
    attributes.echo = false;
    attributes.icanon = false;
    attributes.iexten = false;
    attributes.isig = false;
    attributes.vmin = 1;
    attributes.vtime = 0;
    attributes
}

/// Entering raw mode a second time, as a session that was stopped does, changes
/// nothing more.
pub proof fn law_raw_mode_is_entered_once(saved: Discipline)
    ensures
        raw(raw(saved)) == raw(saved),
        raw(saved).output == saved.output,
{
}

/// What a session took when it took the terminal.
#[derive(Debug, Clone, Copy, PartialEq, Eq, Structural)]
pub struct Owned {
    /// The attributes from before raw mode.
    pub attributes: Discipline,
    /// The descriptor they were read from, and the only one they go back to.
    pub input: i32,
    /// The descriptor the mode sequences were written to.
    pub output: i32,
}

/// One step of giving a terminal back.
#[derive(Debug, Clone, PartialEq, Eq)]
pub enum Step {
    /// Write these bytes to a descriptor.
    Write { to: i32, bytes: String },
    /// Install these attributes on a descriptor.
    Install { on: i32, attributes: Discipline },
}

/// [`Step`] in mathematical terms.
pub enum Move {
    Write { to: i32, bytes: Seq<char> },
    Install { on: i32, attributes: Discipline },
}

impl View for Step {
    type V = Move;

    open spec fn view(&self) -> Move {
        match *self {
            Step::Write { to, bytes } => Move::Write { to, bytes: bytes@ },
            Step::Install { on, attributes } => Move::Install { on, attributes },
        }
    }
}

/// What a plan does.
pub open spec fn moves(plan: Seq<Step>) -> Seq<Move> {
    plan.map_values(|step: Step| step@)
}

/// What a session that painted a band leaves of it: the cursor at the band's
/// top, everything from there down erased, and the cursor shown.
pub open spec fn sweep(top: u16) -> Seq<char> {
    "\x1b["@ + text::decimal(top as nat) + ";1H\x1b[J\x1b[?25h\n"@
}

/// What a planned exit does, in order.
pub open spec fn planned_exit(owned: Option<Owned>, tmux: bool, band_top: Option<u16>) -> Seq<
    Move,
> {
    match owned {
        None => Seq::empty(),
        Some(terminal) => {
            let restore = seq![
                Move::Write {
                    to: terminal.output,
                    bytes: if tmux {
                        RESTORE_TMUX@
                    } else {
                        RESTORE@
                    },
                },
                Move::Install { on: terminal.input, attributes: terminal.attributes },
            ];
            match band_top {
                Some(top) => restore.push(Move::Write { to: terminal.output, bytes: sweep(top) }),
                None => restore,
            }
        },
    }
}

/// What a planned exit does: the restore sequence, the attributes from before
/// raw mode, and then the band erased from its top down. A session that drew no
/// band erases nothing, and one that never took the terminal does nothing.
///
/// Every step is carried out whatever became of the one before it: see
/// [`first_failure`].
pub fn shutdown(owned: Option<Owned>, tmux: bool, band_top: Option<u16>) -> (plan: Vec<Step>)
    ensures
        moves(plan@) == planned_exit(owned, tmux, band_top),
{
    let mut plan: Vec<Step> = Vec::new();
    match owned {
        None => {},
        Some(terminal) => {
            let restore: &'static str = if tmux {
                RESTORE_TMUX
            } else {
                RESTORE
            };
            plan.push(Step::Write { to: terminal.output, bytes: restore.to_owned() });
            plan.push(Step::Install { on: terminal.input, attributes: terminal.attributes });
            match band_top {
                Some(top) => {
                    let mut bytes: String = "\x1b[".to_owned();
                    bytes.append(text::decimal_text(top as u64).as_str());
                    bytes.append(";1H\x1b[J\x1b[?25h\n");
                    plan.push(Step::Write { to: terminal.output, bytes });
                },
                None => {},
            }
        },
    }
    proof {
        assert(moves(plan@) =~= planned_exit(owned, tmux, band_top));
    }
    plan
}

/// What an exit that was not planned does, in order.
pub open spec fn sudden_exit(owned: Option<Owned>, tmux: bool) -> Seq<Move> {
    match owned {
        None => Seq::empty(),
        Some(terminal) => seq![
            Move::Write {
                to: terminal.output,
                bytes: if tmux {
                    ABNORMAL_RESTORE_TMUX@
                } else {
                    ABNORMAL_RESTORE@
                },
            },
            Move::Install { on: terminal.input, attributes: terminal.attributes },
        ],
    }
}

/// The bytes an exit that was not planned writes. They are constants, so a
/// signal handler allocates nothing to have them.
pub fn abnormal_restore(tmux: bool) -> (bytes: &'static str)
    ensures
        bytes@ == if tmux {
            ABNORMAL_RESTORE_TMUX@
        } else {
            ABNORMAL_RESTORE@
        },
{
    if tmux {
        ABNORMAL_RESTORE_TMUX
    } else {
        ABNORMAL_RESTORE
    }
}

/// What an exit that was not planned does: the screen state back on the output
/// descriptor, and the line discipline back on the input descriptor.
pub fn restore_pair(owned: Option<Owned>, tmux: bool) -> (plan: Vec<Step>)
    ensures
        moves(plan@) == sudden_exit(owned, tmux),
{
    let mut plan: Vec<Step> = Vec::new();
    match owned {
        None => {},
        Some(terminal) => {
            plan.push(
                Step::Write { to: terminal.output, bytes: abnormal_restore(tmux).to_owned() },
            );
            plan.push(Step::Install { on: terminal.input, attributes: terminal.attributes });
        },
    }
    proof {
        assert(moves(plan@) =~= sudden_exit(owned, tmux));
    }
    plan
}

/// However a session ends, the attributes from before raw mode go back onto the
/// descriptor they came from and onto no other, once, and every byte goes to
/// the descriptor the modes were set on.
pub proof fn law_every_exit_gives_the_terminal_back(
    terminal: Owned,
    tmux: bool,
    band_top: Option<u16>,
)
    ensures
        ({
            let planned = planned_exit(Some(terminal), tmux, band_top);
            let sudden = sudden_exit(Some(terminal), tmux);
            let back = Move::Install { on: terminal.input, attributes: terminal.attributes };
            &&& planned[1] == back
            &&& sudden[1] == back
            &&& forall|i: int|
                0 <= i < planned.len() && i != 1 ==> (#[trigger] planned[i] matches Move::Write {
                    to,
                    ..
                } && to == terminal.output)
            &&& sudden.len() == 2
            &&& sudden[0] matches Move::Write { to, .. } && to == terminal.output
        }),
{
}

/// The first of three results that is a failure, or the last.
pub open spec fn first_of<E>(
    screen: Result<(), E>,
    attributes: Result<(), E>,
    cleanup: Result<(), E>,
) -> Result<(), E> {
    if screen is Err {
        screen
    } else if attributes is Err {
        attributes
    } else {
        cleanup
    }
}

/// What an exit reports when its steps went like this: the first failure, in
/// the order the steps were made in.
pub fn first_failure<E>(
    screen: Result<(), E>,
    attributes: Result<(), E>,
    cleanup: Result<(), E>,
) -> (reported: Result<(), E>)
    ensures
        reported == first_of(screen, attributes, cleanup),
        reported == (if screen is Err {
            screen
        } else if attributes is Err {
            attributes
        } else {
            cleanup
        }),
{
    match screen {
        Err(problem) => Err(problem),
        Ok(_) => match attributes {
            Err(problem) => Err(problem),
            Ok(_) => cleanup,
        },
    }
}

/// What a terminal answered about its size.
#[derive(Debug, Clone, Copy, PartialEq, Eq, Structural)]
pub struct Winsize {
    pub ws_row: u16,
    pub ws_col: u16,
}

/// The rows and columns an answer means.
pub open spec fn size_meant(size: Option<Winsize>) -> (u16, u16) {
    match size {
        Some(answer) => if answer.ws_row > 0 && answer.ws_col > 0 {
            (answer.ws_row, answer.ws_col)
        } else {
            (DEFAULT_ROWS, DEFAULT_COLS)
        },
        None => (DEFAULT_ROWS, DEFAULT_COLS),
    }
}

/// The rows and columns an answer means, where `None` is a refusal. A zero is
/// one too: a terminal whose size was never set answers zero by zero.
pub fn size_or_default(size: Option<Winsize>) -> (rows_cols: (u16, u16))
    ensures
        rows_cols == size_meant(size),
        rows_cols == (match size {
            Some(answer) => if answer.ws_row > 0 && answer.ws_col > 0 {
                (answer.ws_row, answer.ws_col)
            } else {
                (DEFAULT_ROWS, DEFAULT_COLS)
            },
            None => (DEFAULT_ROWS, DEFAULT_COLS),
        }),
{
    match size {
        Some(answer) => if answer.ws_row > 0 && answer.ws_col > 0 {
            (answer.ws_row, answer.ws_col)
        } else {
            (DEFAULT_ROWS, DEFAULT_COLS)
        },
        None => (DEFAULT_ROWS, DEFAULT_COLS),
    }
}

/// In raw mode every key arrives at once and as it is: nothing is echoed, nothing
/// is gathered into lines, no key is a signal, none is translated or stripped, and
/// a read waits for one byte and no clock. What is written is left to the terminal.
pub proof fn law_raw_mode_hands_over_every_key(saved: Discipline)
    ensures
        ({
            let now = raw(saved);
            &&& !now.echo && !now.icanon && !now.isig && !now.iexten
            &&& !now.brkint && !now.icrnl && !now.inpck && !now.istrip && !now.ixon && !now.ixoff
            &&& now.cs8
            &&& now.vmin == 1 && now.vtime == 0
            &&& now.output == saved.output
        }),
{
}

/// What an exit writes: nothing for a session that never took the terminal. A
/// planned one writes what turns its modes off, and then, where a band was
/// painted, sweeps it from its top row on; one that was not planned leaves the
/// alternate screen first and then turns the same modes off. Under tmux the
/// keyboard is not popped, for it was not pushed.
pub proof fn law_an_exit_undoes_what_was_turned_on(terminal: Owned, top: u16, tmux: bool)
    ensures
        planned_exit(None, tmux, Some(top)).len() == 0,
        sudden_exit(None, tmux).len() == 0,
        planned_exit(Some(terminal), tmux, None).len() == 2,
        planned_exit(Some(terminal), tmux, Some(top)).len() == 3,
        ({
            let off = if tmux {
                "\x1b[23;2t\x1b[>4;0m\x1b[?2004l\x1b[?7h\x1b[?25h"@
            } else {
                "\x1b[23;2t\x1b[>4;0m\x1b[<u\x1b[?2004l\x1b[?7h\x1b[?25h"@
            };
            &&& planned_exit(Some(terminal), tmux, None)[0] == (Move::Write {
                to: terminal.output,
                bytes: off,
            })
            &&& planned_exit(Some(terminal), tmux, Some(top))[0] == (Move::Write {
                to: terminal.output,
                bytes: off,
            })
            &&& sudden_exit(Some(terminal), tmux)[0] == (Move::Write {
                to: terminal.output,
                bytes: "\x1b[?1049l"@ + off,
            })
        }),
        planned_exit(Some(terminal), tmux, Some(top))[2] == (Move::Write {
            to: terminal.output,
            bytes: "\x1b["@ + text::decimal(top as nat) + ";1H"@ + "\x1b[J"@ + "\x1b[?25h"@ + "\n"@,
        }),
{
    reveal_strlit("\x1b[?1049l");
    reveal_strlit("\x1b[23;2t\x1b[>4;0m\x1b[?2004l\x1b[?7h\x1b[?25h");
    reveal_strlit("\x1b[23;2t\x1b[>4;0m\x1b[<u\x1b[?2004l\x1b[?7h\x1b[?25h");
    reveal_strlit("\x1b[?1049l\x1b[23;2t\x1b[>4;0m\x1b[<u\x1b[?2004l\x1b[?7h\x1b[?25h");
    reveal_strlit("\x1b[?1049l\x1b[23;2t\x1b[>4;0m\x1b[?2004l\x1b[?7h\x1b[?25h");
    reveal_strlit(";1H\x1b[J\x1b[?25h\n");
    reveal_strlit(";1H");
    reveal_strlit("\x1b[J");
    reveal_strlit("\x1b[?25h");
    reveal_strlit("\n");
    assert(ABNORMAL_RESTORE@ =~= "\x1b[?1049l"@
        + "\x1b[23;2t\x1b[>4;0m\x1b[<u\x1b[?2004l\x1b[?7h\x1b[?25h"@);
    assert(ABNORMAL_RESTORE_TMUX@ =~= "\x1b[?1049l"@
        + "\x1b[23;2t\x1b[>4;0m\x1b[?2004l\x1b[?7h\x1b[?25h"@);
    assert(sweep(top) =~= "\x1b["@ + text::decimal(top as nat) + ";1H"@ + "\x1b[J"@ + "\x1b[?25h"@
        + "\n"@);
}

/// A terminal that says its size has that size; one that will not, or that says
/// that one of the two is nothing, is taken as twenty-four rows of eighty columns.
/// No size is ever nothing.
pub proof fn law_a_size_is_never_nothing(rows: u16, cols: u16)
    ensures
        rows > 0 && cols > 0 ==> size_meant(Some(Winsize { ws_row: rows, ws_col: cols })) == (
            rows,
            cols,
        ),
        rows == 0 || cols == 0 ==> size_meant(Some(Winsize { ws_row: rows, ws_col: cols })) == (
            24u16,
            80u16,
        ),
        size_meant(None) == (24u16, 80u16),
{
}

/// The failure that is reported is the first in the order of the steps, whatever
/// the later ones came to; where every step went well, none is.
pub proof fn law_the_first_failure_is_reported<E>(
    screen: E,
    attributes: E,
    later: Result<(), E>,
    last: Result<(), E>,
)
    ensures
        first_of(Err(screen), later, last) == Err::<(), E>(screen),
        first_of(Ok(()), Err(attributes), last) == Err::<(), E>(attributes),
        first_of(Ok(()), Ok(()), last) == last,
{
}

/// The modes that are turned on are the same under tmux but for the push of the
/// keyboard, which is not among them there.
pub proof fn law_tmux_is_not_given_the_push()
    ensures
        turned_on(false) == "\x1b[>4;2m"@ + "\x1b[>1u"@ + "\x1b[?2004h\x1b[?7l\x1b[22;2t"@,
        turned_on(true) == "\x1b[>4;2m"@ + "\x1b[?2004h\x1b[?7l\x1b[22;2t"@,
{
    reveal_strlit("\x1b[>4;2m");
    reveal_strlit("\x1b[>1u");
    reveal_strlit("\x1b[?2004h\x1b[?7l\x1b[22;2t");
    reveal_strlit("\x1b[>4;2m\x1b[>1u\x1b[?2004h\x1b[?7l\x1b[22;2t");
    reveal_strlit("\x1b[>4;2m\x1b[?2004h\x1b[?7l\x1b[22;2t");
    assert(MODE_SET@ =~= "\x1b[>4;2m"@ + "\x1b[>1u"@ + "\x1b[?2004h\x1b[?7l\x1b[22;2t"@);
    assert(MODE_SET_TMUX@ =~= "\x1b[>4;2m"@ + "\x1b[?2004h\x1b[?7l\x1b[22;2t"@);
}

/// A session is under tmux where the variable says something, and not where it is
/// empty or not there.
pub proof fn law_an_empty_variable_says_nothing(value: &[u8])
    ensures
        says_tmux(Some(value)) <==> value@ != Seq::<u8>::empty(),
        !says_tmux(None),
{
    if value@.len() == 0 {
        assert(value@ =~= Seq::empty());
    }
}

} // verus!
