//! One owner per signal.
//!
//! A handler gives the terminal back and lets the signal do its work, or it
//! sets a flag. The signals whose default would damage a raw terminal are
//! blocked while the terminal is taken and the handlers are put in place. The
//! stop signal stays blocked longer: it is let in only inside a wait, which is
//! where a resumed session can take the terminal again.

use vstd::prelude::*;

verus! {

/// A signal a session answers for.
#[derive(Debug, Clone, Copy, PartialEq, Eq, Structural)]
pub enum Signal {
    Int,
    Term,
    Hup,
    Tstp,
    Cont,
    Winch,
}

/// Every signal a session takes, and hands back at its end.
pub const OWNED: [Signal; 6] = [
    Signal::Int,
    Signal::Term,
    Signal::Hup,
    Signal::Tstp,
    Signal::Cont,
    Signal::Winch,
];

/// The signals whose default would leave a raw terminal behind: three that end
/// the process and one that stops it.
pub const OWNED_DEATHS: [Signal; 4] = [Signal::Int, Signal::Term, Signal::Hup, Signal::Tstp];

/// What a handler does.
#[derive(Debug, Clone, Copy, PartialEq, Eq, Structural)]
pub enum Handler {
    /// Give the terminal back, and die of the signal.
    RestoreAndReraise,
    /// Give the terminal back, and stop.
    StopForJobControl,
    /// Note that the process was continued.
    FlagResumed,
    /// Note that the window changed size.
    FlagWinch,
}

/// What is done about a signal.
pub open spec fn handler_for(signal: Signal) -> Handler {
    match signal {
        Signal::Int => Handler::RestoreAndReraise,
        Signal::Term => Handler::RestoreAndReraise,
        Signal::Hup => Handler::RestoreAndReraise,
        Signal::Tstp => Handler::StopForJobControl,
        Signal::Cont => Handler::FlagResumed,
        Signal::Winch => Handler::FlagWinch,
    }
}

/// What is done about a signal.
pub fn handler(signal: Signal) -> (handler: Handler)
    ensures
        handler == handler_for(signal),
{
    match signal {
        Signal::Int => Handler::RestoreAndReraise,
        Signal::Term => Handler::RestoreAndReraise,
        Signal::Hup => Handler::RestoreAndReraise,
        Signal::Tstp => Handler::StopForJobControl,
        Signal::Cont => Handler::FlagResumed,
        Signal::Winch => Handler::FlagWinch,
    }
}

/// The signals that are blocked while the terminal is taken are those whose
/// handler gives the terminal back.
pub proof fn law_what_is_blocked_is_what_restores(signal: Signal)
    ensures
        OWNED@.contains(signal),
        OWNED_DEATHS@.contains(signal) <==> (handler_for(signal) == Handler::RestoreAndReraise
            || handler_for(signal) == Handler::StopForJobControl),
{
    match signal {
        Signal::Int => {
            assert(OWNED@[0] == signal);
            assert(OWNED_DEATHS@[0] == signal);
        },
        Signal::Term => {
            assert(OWNED@[1] == signal);
            assert(OWNED_DEATHS@[1] == signal);
        },
        Signal::Hup => {
            assert(OWNED@[2] == signal);
            assert(OWNED_DEATHS@[2] == signal);
        },
        Signal::Tstp => {
            assert(OWNED@[3] == signal);
            assert(OWNED_DEATHS@[3] == signal);
        },
        Signal::Cont => {
            assert(OWNED@[4] == signal);
        },
        Signal::Winch => {
            assert(OWNED@[5] == signal);
        },
    }
}

/// Which of the signals that could damage a raw terminal a thread blocks.
#[derive(Debug, Clone, Copy, PartialEq, Eq, Structural)]
pub struct Mask {
    pub int: bool,
    pub term: bool,
    pub hup: bool,
    pub tstp: bool,
}

/// The mask that holds all of them.
pub open spec fn whole() -> Mask {
    Mask { int: true, term: true, hup: true, tstp: true }
}

/// The mask a thread runs under while it takes the terminal: every signal that
/// could damage a raw terminal is held.
pub fn block_owned() -> (mask: Mask)
    ensures
        mask == whole(),
{
    Mask { int: true, term: true, hup: true, tstp: true }
}

/// A mask with the stop held besides.
pub open spec fn stop_held(previous: Mask) -> Mask {
    Mask { tstp: true, ..previous }
}

/// The mask a session runs under between two waits: the one it arrived with,
/// and the stop.
pub fn lift_deaths_keeping_the_stop(previous: Mask) -> (mask: Mask)
    ensures
        mask == stop_held(previous),
{
    Mask { tstp: true, ..previous }
}

/// A session and the terminal it is taking, holding or giving back.
#[derive(Debug, Clone, Copy, PartialEq, Eq, Structural)]
pub struct Hold {
    /// The mask the thread arrived with.
    pub previous: Mask,
    /// The mask it runs under now.
    pub mask: Mask,
    /// Whether every handler is in place.
    pub installed: bool,
    /// Whether the terminal is raw.
    pub raw: bool,
    /// Whether the thread is inside a wait.
    pub waiting: bool,
    /// Whether the session has given the stop back: it waits no more.
    pub over: bool,
}

/// What happens to a session's hold on the terminal.
#[derive(Debug, Clone, Copy, PartialEq, Eq, Structural)]
pub enum Stage {
    /// The signals are blocked.
    Block,
    /// Raw mode is entered.
    EnterRaw,
    /// The handlers are put in place.
    Install,
    /// Every signal but the stop is let in.
    Lift,
    /// A wait begins.
    Wait,
    /// A wait ends.
    Wake,
    /// The stop is given back, into its handler: the session is over.
    LetGo,
    /// The terminal is given back.
    Restore,
    /// The mask is put back by a session that never began.
    Abandon,
    /// The handlers are taken away.
    Release,
}

impl Hold {
    /// A session that has taken nothing.
    pub open spec fn before(previous: Mask) -> Hold {
        Hold {
            previous,
            mask: previous,
            installed: false,
            raw: false,
            waiting: false,
            over: false,
        }
    }

    /// Whether a stage may come next.
    pub open spec fn allows(self, stage: Stage) -> bool {
        match stage {
            Stage::Block => !self.raw && !self.installed,
            Stage::EnterRaw => !self.waiting && !self.over && self.mask.tstp && (self.mask
                == whole() || self.installed),
            Stage::Install => self.mask == whole() && !self.installed,
            Stage::Lift => self.mask == whole() && self.installed,
            Stage::Wait => self.installed && !self.waiting && !self.over,
            Stage::Wake => self.waiting,
            Stage::LetGo => self.installed && !self.waiting,
            Stage::Restore => true,
            Stage::Abandon => !self.raw && !self.installed,
            Stage::Release => !self.raw && !self.waiting,
        }
    }

    /// The hold once a stage is past.
    pub open spec fn then_at(self, stage: Stage) -> Hold {
        match stage {
            Stage::Block => Hold { mask: whole(), ..self },
            Stage::EnterRaw => Hold { raw: true, ..self },
            Stage::Install => Hold { installed: true, ..self },
            Stage::Lift => Hold { mask: stop_held(self.previous), ..self },
            Stage::Wait => Hold { waiting: true, mask: self.previous, ..self },
            Stage::Wake => Hold { waiting: false, mask: stop_held(self.previous), ..self },
            Stage::LetGo => Hold { over: true, mask: self.previous, ..self },
            Stage::Restore => Hold { raw: false, ..self },
            Stage::Abandon => Hold { mask: self.previous, ..self },
            Stage::Release => Hold { installed: false, ..self },
        }
    }

    /// While the terminal is raw, a signal that would damage it is blocked or
    /// has its handler; and until the session is over, the stop is blocked or
    /// the thread is in a wait.
    pub open spec fn safe(self) -> bool {
        &&& self.raw ==> self.mask == whole() || self.installed
        &&& self.raw && !self.over ==> self.mask.tstp || self.waiting
        &&& self.waiting ==> self.installed && !self.over
    }

    /// A session that has taken nothing.
    pub fn new(previous: Mask) -> (hold: Self)
        ensures
            hold == Hold::before(previous),
            hold.safe(),
    {
        Hold {
            previous,
            mask: previous,
            installed: false,
            raw: false,
            waiting: false,
            over: false,
        }
    }

    /// Whether a stage may come next.
    pub fn may(&self, stage: Stage) -> (yes: bool)
        ensures
            yes == self.allows(stage),
    {
        let full: bool = self.mask.int && self.mask.term && self.mask.hup && self.mask.tstp;
        match stage {
            Stage::Block => !self.raw && !self.installed,
            Stage::EnterRaw => !self.waiting && !self.over && self.mask.tstp && (full
                || self.installed),
            Stage::Install => full && !self.installed,
            Stage::Lift => full && self.installed,
            Stage::Wait => self.installed && !self.waiting && !self.over,
            Stage::Wake => self.waiting,
            Stage::LetGo => self.installed && !self.waiting,
            Stage::Restore => true,
            Stage::Abandon => !self.raw && !self.installed,
            Stage::Release => !self.raw && !self.waiting,
        }
    }

    /// Passes a stage, and says whether it might come next. One that might not
    /// changes nothing.
    pub fn pass(&mut self, stage: Stage) -> (passed: bool)
        requires
            old(self).safe(),
        ensures
            passed == old(self).allows(stage),
            *final(self) == if passed {
                old(self).then_at(stage)
            } else {
                *old(self)
            },
            final(self).safe(),
    {
        if !self.may(stage) {
            return false;
        }
        match stage {
            Stage::Block => {
                self.mask = block_owned();
            },
            Stage::EnterRaw => {
                self.raw = true;
            },
            Stage::Install => {
                self.installed = true;
            },
            Stage::Lift => {
                self.mask = lift_deaths_keeping_the_stop(self.previous);
            },
            Stage::Wait => {
                self.waiting = true;
                self.mask = self.previous;
            },
            Stage::Wake => {
                self.waiting = false;
                self.mask = lift_deaths_keeping_the_stop(self.previous);
            },
            Stage::LetGo => {
                self.over = true;
                self.mask = self.previous;
            },
            Stage::Restore => {
                self.raw = false;
            },
            Stage::Abandon => {
                self.mask = self.previous;
            },
            Stage::Release => {
                self.installed = false;
            },
        }
        true
    }
}

/// Whether each stage may come where it does.
pub open spec fn in_order(start: Hold, stages: Seq<Stage>) -> bool
    decreases stages.len(),
{
    stages.len() == 0 || (in_order(start, stages.drop_last()) && passed_through(
        start,
        stages.drop_last(),
    ).allows(stages.last()))
}

/// The hold after every stage is past.
pub open spec fn passed_through(start: Hold, stages: Seq<Stage>) -> Hold
    decreases stages.len(),
{
    if stages.len() == 0 {
        start
    } else {
        passed_through(start, stages.drop_last()).then_at(stages.last())
    }
}

/// Whatever a session goes through, in any order that is allowed: while the
/// terminal is raw and the session not over, the stop signal is blocked or the
/// thread is inside a wait; and every signal that would damage a raw terminal
/// is blocked or has its handler, until the terminal has been given back. The
/// mask a thread arrived with is the mask it is given back.
pub proof fn law_a_raw_terminal_is_never_left_to_a_default(previous: Mask, stages: Seq<Stage>)
    requires
        in_order(Hold::before(previous), stages),
    ensures
        passed_through(Hold::before(previous), stages).safe(),
        stages.len() > 0 && (stages.last() == Stage::LetGo || stages.last() == Stage::Abandon)
            ==> passed_through(Hold::before(previous), stages).mask == previous,
    decreases stages.len(),
{
    lemma_previous(previous, stages);
    if stages.len() > 0 {
        law_a_raw_terminal_is_never_left_to_a_default(previous, stages.drop_last());
    }
}

proof fn lemma_previous(previous: Mask, stages: Seq<Stage>)
    ensures
        passed_through(Hold::before(previous), stages).previous == previous,
    decreases stages.len(),
{
    if stages.len() > 0 {
        lemma_previous(previous, stages.drop_last());
    }
}

/// What an installation that went like this still has to do.
#[derive(Debug, Clone, Copy, PartialEq, Eq, Structural)]
pub enum Installed {
    /// Note whether the process was continued meanwhile, and hold the stop.
    Held,
    /// Give the terminal back, then put the mask back, then fail.
    RestoreThenUnblock,
    /// Give the terminal back, leave the mask whole, and fail.
    RestoreOnly,
}

/// What an installation that went like this still has to do.
pub open spec fn left_to_do(handlers: bool, lifted: bool) -> Installed {
    if !handlers {
        Installed::RestoreThenUnblock
    } else if !lifted {
        Installed::RestoreOnly
    } else {
        Installed::Held
    }
}

/// What an installation still has to do. Where it failed, the terminal is given
/// back before any mask is: a signal that was let in first could end the
/// process on a raw terminal.
pub fn install(handlers: bool, lifted: bool) -> (installed: Installed)
    ensures
        installed == left_to_do(handlers, lifted),
        installed == (if !handlers {
            Installed::RestoreThenUnblock
        } else if !lifted {
            Installed::RestoreOnly
        } else {
            Installed::Held
        }),
{
    if !handlers {
        Installed::RestoreThenUnblock
    } else if !lifted {
        Installed::RestoreOnly
    } else {
        Installed::Held
    }
}

/// Why a wait cannot be made.
#[derive(Debug, Clone, Copy, PartialEq, Eq, Structural)]
pub enum WaitRefusal {
    /// A descriptor is out of range for the set it would be put into.
    OutOfRange,
    /// There is no descriptor, so the wait would never end.
    NoDescriptors,
}

impl WaitRefusal {
    /// Why the wait cannot be made, in words.
    pub fn message(self) -> (words: &'static str)
        ensures
            words@ == (match self {
                WaitRefusal::OutOfRange => "the descriptor is out of range for pselect"@,
                WaitRefusal::NoDescriptors => "a wait on no descriptors would never end"@,
            }),
    {
        match self {
            WaitRefusal::OutOfRange => "the descriptor is out of range for pselect",
            WaitRefusal::NoDescriptors => "a wait on no descriptors would never end",
        }
    }
}

/// A length of time, as a caller says it.
#[derive(Debug, Clone, Copy, PartialEq, Eq, Structural)]
pub struct Timeout {
    pub seconds: u64,
    pub nanos: u32,
}

/// A length of time, as the system takes it.
#[derive(Debug, Clone, Copy, PartialEq, Eq, Structural)]
pub struct Timespec {
    pub seconds: i64,
    pub nanos: i64,
}

/// What a wait is made with.
#[derive(Debug, Clone, Copy, PartialEq, Eq, Structural)]
pub struct WaitPlan {
    /// One more than the highest descriptor.
    pub count: i32,
    /// When it gives up; never, where there is none.
    pub deadline: Option<Timespec>,
}

/// Whether a descriptor may be put into a set of `limit` places.
pub open spec fn in_range(fd: i32, limit: u16) -> bool {
    0 <= fd < limit
}

/// Whether `highest` is the highest of `fds`.
pub open spec fn highest_of(fds: Seq<i32>, highest: int) -> bool {
    &&& exists|i: int| 0 <= i < fds.len() && #[trigger] fds[i] == highest
    &&& forall|i: int| 0 <= i < fds.len() ==> #[trigger] fds[i] <= highest
}

/// A length of time as the system takes it. Seconds beyond what it can count
/// become the most it can.
pub open spec fn timespec(timeout: Timeout) -> Timespec {
    Timespec {
        seconds: if timeout.seconds > i64::MAX {
            i64::MAX
        } else {
            timeout.seconds as i64
        },
        nanos: timeout.nanos as i64,
    }
}

/// What a wait on `fds` is made with, or why it cannot be made. `limit` is how
/// many places the set of descriptors has.
pub fn wait_for_input(fds: &[i32], timeout: Option<Timeout>, limit: u16) -> (plan: Result<
    WaitPlan,
    WaitRefusal,
>)
    ensures
        match plan {
            Ok(wait) => {
                &&& fds@.len() > 0
                &&& forall|i: int| 0 <= i < fds@.len() ==> in_range(#[trigger] fds@[i], limit)
                &&& highest_of(fds@, wait.count - 1)
                &&& wait.deadline == (match timeout {
                    Some(time) => Some(timespec(time)),
                    None => None,
                })
            },
            Err(WaitRefusal::OutOfRange) => exists|i: int|
                0 <= i < fds@.len() && !in_range(#[trigger] fds@[i], limit),
            Err(WaitRefusal::NoDescriptors) => fds@.len() == 0,
        },
{
    let mut highest: i32 = -1;
    let mut at: usize = 0;
    while at < fds.len()
        invariant
            at <= fds@.len(),
            forall|i: int| 0 <= i < at ==> in_range(#[trigger] fds@[i], limit),
            forall|i: int| 0 <= i < at ==> #[trigger] fds@[i] <= highest,
            at == 0 ==> highest == -1,
            at > 0 ==> 0 <= highest < limit && exists|i: int|
                0 <= i < at && #[trigger] fds@[i] == highest,
        decreases fds@.len() - at,
    {
        let fd: i32 = fds[at];
        if fd < 0 || fd >= limit as i32 {
            proof {
                assert(!in_range(fds@[at as int], limit));
            }
            return Err(WaitRefusal::OutOfRange);
        }
        proof {
            assert(in_range(fds@[at as int], limit));
        }
        if fd > highest {
            highest = fd;
        }
        at = at + 1;
        proof {
            if highest == fd {
                assert(fds@[at - 1] == highest);
            }
        }
    }
    if highest < 0 {
        return Err(WaitRefusal::NoDescriptors);
    }
    let deadline: Option<Timespec> = match timeout {
        Some(time) => {
            let seconds: i64 = if time.seconds > i64::MAX as u64 {
                i64::MAX
            } else {
                time.seconds as i64
            };
            Some(Timespec { seconds, nanos: time.nanos as i64 })
        },
        None => None,
    };
    Ok(WaitPlan { count: highest + 1, deadline })
}

/// Whether an answer to a wait says that there is something to read.
pub open spec fn says_readable(answer: i32) -> Option<bool> {
    if answer < 0 {
        None
    } else {
        Some(answer > 0)
    }
}

/// What the system's answer to a wait means: whether there is something to
/// read, or `None` where the wait failed.
pub fn waited(answer: i32) -> (readable: Option<bool>)
    ensures
        readable == says_readable(answer),
        readable == (if answer < 0 {
            None
        } else {
            Some(answer > 0)
        }),
{
    if answer < 0 {
        None
    } else {
        Some(answer > 0)
    }
}

/// Whether a wakeup byte is written.
pub open spec fn wakes(was_set: bool, fd: i32) -> bool {
    !was_set && fd >= 0
}

/// Whether a handler that set a flag writes its wakeup byte: only where the flag
/// was not set already, and only to a descriptor that is there.
pub fn pokes(was_set: bool, fd: i32) -> (poke: bool)
    ensures
        poke == wakes(was_set, fd),
        poke == (!was_set && fd >= 0),
{
    !was_set && fd >= 0
}

/// A signal does what its name asks: the stop stops, the continue and the change
/// of size are noted, and every other ends the process with the terminal given
/// back.
pub proof fn law_a_signal_does_what_it_asks(signal: Signal)
    ensures
        handler_for(signal) == Handler::StopForJobControl <==> signal == Signal::Tstp,
        handler_for(signal) == Handler::FlagResumed <==> signal == Signal::Cont,
        handler_for(signal) == Handler::FlagWinch <==> signal == Signal::Winch,
        handler_for(signal) == Handler::RestoreAndReraise <==> signal == Signal::Int || signal
            == Signal::Term || signal == Signal::Hup,
{
}

/// The whole mask holds all four signals; holding the stop leaves the others as
/// they were.
pub proof fn law_holding_the_stop_holds_nothing_else(previous: Mask)
    ensures
        whole().int && whole().term && whole().hup && whole().tstp,
        stop_held(previous).tstp,
        stop_held(previous).int == previous.int,
        stop_held(previous).term == previous.term,
        stop_held(previous).hup == previous.hup,
{
}

/// A session can be run from its beginning to its end, whatever the mask it came
/// with: it blocks, enters raw mode, installs its handlers, lets the signals in
/// but the stop, waits under its own mask and wakes under that and the stop, lets
/// the stop go, gives the terminal back, and takes its handlers away; and it has
/// then the mask it came with, no handler and no raw terminal. One that never
/// began can be given up, and one that was stopped can enter raw mode again.
pub proof fn law_a_session_runs_to_its_end(previous: Mask)
    ensures
        ({
            let start = Hold::before(previous);
            let blocked = start.then_at(Stage::Block);
            let raw = blocked.then_at(Stage::EnterRaw);
            let installed = raw.then_at(Stage::Install);
            let lifted = installed.then_at(Stage::Lift);
            let waiting = lifted.then_at(Stage::Wait);
            let woken = waiting.then_at(Stage::Wake);
            let let_go = woken.then_at(Stage::LetGo);
            let restored = let_go.then_at(Stage::Restore);
            let released = restored.then_at(Stage::Release);
            &&& start.mask == previous && !start.raw && !start.installed
            &&& start.allows(Stage::Block) && blocked.mask == whole()
            &&& blocked.allows(Stage::EnterRaw) && raw.raw && raw.mask == whole()
            &&& raw.allows(Stage::Install) && installed.installed
            &&& installed.allows(Stage::Lift) && lifted.mask == stop_held(previous)
            &&& lifted.allows(Stage::Wait) && waiting.waiting && waiting.mask == previous
            &&& waiting.allows(Stage::Wake) && !woken.waiting && woken.mask == stop_held(previous)
            &&& woken.allows(Stage::Wait) && woken.allows(Stage::LetGo)
            &&& let_go.over && let_go.mask == previous && !let_go.allows(Stage::Wait)
            &&& let_go.allows(Stage::Restore) && !restored.raw && restored.mask == previous
            &&& restored.allows(Stage::Release) && !released.installed && released.mask == previous
            &&& blocked.allows(Stage::Abandon) && blocked.then_at(Stage::Abandon).mask == previous
            &&& woken.then_at(Stage::Restore).allows(Stage::EnterRaw)
        }),
{
}

/// What a session may not do: enter raw mode with a signal still open and no
/// handler for it, wait or wake out of turn, let signals in before its handlers
/// are there, or take its handlers away from a raw terminal.
pub proof fn law_a_session_may_not_skip_a_stage(hold: Hold)
    ensures
        !hold.mask.tstp ==> !hold.allows(Stage::EnterRaw),
        hold.mask != whole() && !hold.installed ==> !hold.allows(Stage::EnterRaw),
        hold.over || hold.waiting ==> !hold.allows(Stage::EnterRaw) && !hold.allows(Stage::Wait),
        !hold.installed ==> !hold.allows(Stage::Wait) && !hold.allows(Stage::Lift) && !hold.allows(
            Stage::LetGo,
        ),
        hold.mask != whole() ==> !hold.allows(Stage::Install) && !hold.allows(Stage::Lift),
        hold.installed ==> !hold.allows(Stage::Install) && !hold.allows(Stage::Block)
            && !hold.allows(Stage::Abandon),
        !hold.waiting ==> !hold.allows(Stage::Wake),
        hold.waiting ==> !hold.allows(Stage::LetGo) && !hold.allows(Stage::Release),
        hold.raw ==> !hold.allows(Stage::Release) && !hold.allows(Stage::Block) && !hold.allows(
            Stage::Abandon,
        ),
        hold.allows(Stage::Restore),
{
}

/// A stage touches what it is about: only entering raw mode and giving the
/// terminal back change whether it is raw, only installing and releasing whether
/// the handlers are there, and nothing changes the mask a session came with.
pub proof fn law_a_stage_touches_what_it_is_about(hold: Hold, stage: Stage)
    ensures
        hold.then_at(stage).previous == hold.previous,
        hold.then_at(stage).raw == (if stage == Stage::EnterRaw {
            true
        } else if stage == Stage::Restore {
            false
        } else {
            hold.raw
        }),
        hold.then_at(stage).installed == (if stage == Stage::Install {
            true
        } else if stage == Stage::Release {
            false
        } else {
            hold.installed
        }),
        hold.then_at(stage).waiting == (if stage == Stage::Wait {
            true
        } else if stage == Stage::Wake {
            false
        } else {
            hold.waiting
        }),
        hold.then_at(stage).over == (stage == Stage::LetGo || hold.over),
        stage == Stage::EnterRaw || stage == Stage::Install || stage == Stage::Restore || stage
            == Stage::Release ==> hold.then_at(stage).mask == hold.mask,
{
}

/// A length of time is taken as it is, as far as the system can count: no shorter
/// and no longer, and one past that is the longest there is.
pub proof fn law_a_timeout_is_not_cut_short(timeout: Timeout)
    ensures
        timeout.seconds <= i64::MAX ==> timespec(timeout).seconds == timeout.seconds,
        timeout.seconds > i64::MAX ==> timespec(timeout).seconds == i64::MAX,
        timespec(timeout).nanos == timeout.nanos,
{
}

/// An installation that failed gives the terminal back, and puts the mask back
/// only where no handler is in place; one that went well does neither.
pub proof fn law_a_failed_installation_gives_the_terminal_back(handlers: bool, lifted: bool)
    ensures
        left_to_do(handlers, lifted) == Installed::Held <==> handlers && lifted,
        left_to_do(handlers, lifted) == Installed::RestoreThenUnblock <==> !handlers,
        left_to_do(handlers, lifted) == Installed::RestoreOnly <==> handlers && !lifted,
{
}

/// An answer below zero is a failure, zero says that nothing is there, and any
/// other that something is. A wakeup byte is written once, and only to a
/// descriptor that is there.
pub proof fn law_an_answer_says_what_is_there(answer: i32, was_set: bool, fd: i32)
    ensures
        says_readable(answer) is None <==> answer < 0,
        says_readable(answer) == Some(false) <==> answer == 0,
        says_readable(answer) == Some(true) <==> answer > 0,
        !wakes(true, fd),
        fd < 0 ==> !wakes(was_set, fd),
        fd >= 0 ==> wakes(false, fd),
{
}

/// A wait is made with one more than its highest descriptor, and a descriptor is
/// in range from zero up to the places there are.
pub proof fn law_the_highest_descriptor_is_among_them(
    fds: Seq<i32>,
    a: int,
    b: int,
    fd: i32,
    limit: u16,
)
    requires
        highest_of(fds, a),
        highest_of(fds, b),
    ensures
        a == b,
        fds.len() > 0,
        fd < 0 ==> !in_range(fd, limit),
        fd >= limit ==> !in_range(fd, limit),
        in_range(fd, limit) || fd < 0 || fd >= limit,
{
    let i = choose|i: int| 0 <= i < fds.len() && #[trigger] fds[i] == a;
    let j = choose|j: int| 0 <= j < fds.len() && #[trigger] fds[j] == b;
    assert(fds[i] <= b && fds[j] <= a);
}

} // verus!
