//! What the band is a picture of, and what a keystroke, an event or a moment
//! does to it.
//!
//! Everything between the bytes a session reads and the frames it writes is a
//! question about a value, and the value is here. Nothing in this module reads
//! a terminal or a clock, waits, or writes a byte. What its neighbours know
//! comes in as an argument: what a gesture means now, how the composer wraps,
//! which bands a screen holds. What they have to do goes out as [`Chore`]s, in
//! the order they are to be done in.

use vstd::prelude::*;

use crate::text;
use crate::tui::band::{self, Geometry};
use crate::tui::bridge::{
    ApprovalAnswer, ApprovalSurface, CatalogEntry, Errand, ProviderId, TurnControl, TurnWork,
    UiEvent,
};
use crate::tui::document::{self, Document, Mark, Note, Paper, Script};
use crate::tui::theme::{self, Palette};
use crate::tui::transaction::{EditTransaction, LastTransaction, Span};
use crate::tui::transcript::{Append, Owed, Unfinished};
use crate::tui::worker::{self, Backlog, Rejected};

verus! {

/// How much of a refused tool's own words a notice quotes back.
pub const TOOL_DETAIL_BYTES: usize = 120;

/// What the hint row says of a submission the queue had no room for.
pub const QUEUE_REJECTED: &'static str = "one prompt is already queued; this one was not sent";

/// What the document says when an interrupt takes a waiting prompt with it.
pub const QUEUE_DROPPED: &'static str = "xfx: dropping what was queued behind it as well.";

/// What the hint row says while a second Escape would clear the composer.
pub const ESCAPE_ARMED: &'static str = "esc again to clear";

/// What the document says of a question the screen cannot hold.
pub const PANEL_TOO_SMALL: &'static str =
    "xfx: this screen is too small to ask for permission, so the change was refused";

/// What the document says when nobody is there to take a submission.
pub const GONE_NOTICE: &'static str = "xfx: the runtime is gone; that line was not sent";

/// What the hint row says of a paste past the byte budget.
pub const PASTE_REFUSED: &'static str = "that paste is larger than 8 MiB; nothing was taken";

/// What the hint row says of a paste there is no number left for.
pub const PASTE_UNNUMBERED: &'static str =
    "this session has no paste numbers left; nothing was taken";

/// What the hint row says of a recalled line whose blocks could not be numbered.
pub const RECALL_UNNUMBERED: &'static str =
    "no paste numbers left; the recalled blocks are words now";

/// What clearing the screen leaves behind.
pub const CLEARED_NOTICE: &'static str = "xfx: cleared the screen; the conversation is kept";

/// What starting a fresh conversation says.
pub const NEW_SESSION_NOTICE: &'static str =
    "[shell] new session; the next prompt starts a fresh conversation";

/// Erases the screen and its scrollback, and puts the cursor home.
pub const CLEAR_SCREEN: &'static str = "\u{1b}[H\u{1b}[2J\u{1b}[3J";

/// What a session that was interrupted exits with.
pub const INTERRUPTED_EXIT_CODE: u8 = 130;

/// What a screen that changed size did to the band.
#[derive(Debug, Clone, Copy, PartialEq, Eq, Structural)]
pub enum Resize {
    /// The screen is the size it was, or would not say.
    Unchanged,
    /// The band was solved again.
    Repaint(Geometry),
    /// No band fits on this screen.
    TooSmall,
}

/// Which plane the session composes frames for.
#[derive(Debug, Clone, Copy, PartialEq, Eq, Structural)]
pub enum ScreenOwner {
    /// The user's document, with the band at the bottom.
    Primary,
    /// A question with a screen of its own.
    Approval,
}

/// What is in the band's elastic rows.
#[derive(Debug, Clone, Copy, PartialEq, Eq, Structural)]
pub enum Slot {
    /// A question the turn waits on. It has the focus.
    Question,
    /// A completion menu. It has nothing but rows.
    Menu,
}

/// How a session ends.
#[derive(Debug, Clone, Copy, PartialEq, Eq, Structural)]
pub enum Leaving {
    Quit,
    Interrupted,
}

/// A refusal the hint row shows.
#[derive(Debug, Clone, Copy, PartialEq, Eq, Structural)]
pub enum Refusal {
    Queue,
    PasteSize,
    PasteNumber,
    RecallNumber,
}

impl Refusal {
    /// What a refusal says.
    pub open spec fn words(self) -> Seq<char> {
        match self {
            Refusal::Queue => QUEUE_REJECTED@,
            Refusal::PasteSize => PASTE_REFUSED@,
            Refusal::PasteNumber => PASTE_UNNUMBERED@,
            Refusal::RecallNumber => RECALL_UNNUMBERED@,
        }
    }

    /// What the refusal says.
    pub fn text(self) -> (text: &'static str)
        ensures
            text@ == self.words(),
    {
        match self {
            Refusal::Queue => QUEUE_REJECTED,
            Refusal::PasteSize => PASTE_REFUSED,
            Refusal::PasteNumber => PASTE_UNNUMBERED,
            Refusal::RecallNumber => RECALL_UNNUMBERED,
        }
    }
}

/// Why a frame is asked for.
#[derive(Debug, Clone, Copy, PartialEq, Eq, Structural)]
pub enum Reason {
    FirstFrame,
    Footer,
    Modal,
    Animation,
    Resize,
    ExternalDamage,
}

/// The reasons a frame has been asked for.
#[derive(Debug, Clone, Copy, PartialEq, Eq, Structural)]
pub struct Asked {
    pub first_frame: bool,
    pub footer: bool,
    pub modal: bool,
    pub animation: bool,
    pub resize: bool,
    pub external_damage: bool,
}

impl Asked {
    /// No reason at all.
    pub open spec fn none() -> Asked {
        Asked {
            first_frame: false,
            footer: false,
            modal: false,
            animation: false,
            resize: false,
            external_damage: false,
        }
    }

    /// The reasons with one more.
    pub open spec fn with(self, reason: Reason) -> Asked {
        match reason {
            Reason::FirstFrame => Asked { first_frame: true, ..self },
            Reason::Footer => Asked { footer: true, ..self },
            Reason::Modal => Asked { modal: true, ..self },
            Reason::Animation => Asked { animation: true, ..self },
            Reason::Resize => Asked { resize: true, ..self },
            Reason::ExternalDamage => Asked { external_damage: true, ..self },
        }
    }

    /// The reasons with one more.
    pub fn and(self, reason: Reason) -> (asked: Asked)
        ensures
            asked == self.with(reason),
    {
        match reason {
            Reason::FirstFrame => Asked { first_frame: true, ..self },
            Reason::Footer => Asked { footer: true, ..self },
            Reason::Modal => Asked { modal: true, ..self },
            Reason::Animation => Asked { animation: true, ..self },
            Reason::Resize => Asked { resize: true, ..self },
            Reason::ExternalDamage => Asked { external_damage: true, ..self },
        }
    }
}

/// A step back or forth through what was submitted.
#[derive(Debug, Clone, Copy, PartialEq, Eq, Structural)]
pub enum HistoryStep {
    Previous,
    Next,
}

/// What a key means.
#[derive(Debug, Clone, Copy, PartialEq, Eq, Structural)]
pub enum Action {
    Left,
    Right,
    Home,
    End,
    WordLeft,
    WordRight,
    Backspace,
    Delete,
    DeleteWordLeft,
    KillToEnd,
    KillToStart,
    Up,
    Down,
    InsertNewline,
    Submit,
    Cancel,
    Escape,
    Eof,
    Redraw,
    PasteStart,
    PasteEnd,
    HistoryPrevious,
    HistoryNext,
    Tab,
    Ignore,
}

/// One thing the keyboard sent.
#[derive(Debug, Clone, Copy, PartialEq, Eq, Structural)]
pub enum Input {
    Text(char),
    Action(Action),
    PasteByte(u8),
}

/// A key a question binds.
#[derive(Debug, Clone, Copy, PartialEq, Eq, Structural)]
pub enum PanelKey {
    Text(char),
    Up,
    Down,
    Tab,
    Submit,
    Escape,
    Cancel,
}

/// Something one of the shell's neighbours has to do.
#[derive(Debug, Clone, Copy, PartialEq, Eq, Structural)]
pub enum Chore {
    /// The turn is thinking.
    Think,
    /// The turn runs the tool that was just named.
    NameTool,
    /// The turn is over.
    Rest,
    /// The activity row's clock starts.
    BeginClock,
    /// It stops while a person is asked.
    FreezeClock,
    /// It goes on.
    ThawClock,
    /// Hand the text that just arrived to the pacer.
    Enqueue,
    /// The answer is complete.
    FinishPacing,
    /// Drop the text that waits.
    ForgetPacing,
    /// Release what this moment is worth.
    Pace,
    /// What the last interrupt was about is over.
    TurnEnded,
    /// Something was submitted.
    Submitted,
    /// Tell the other thread.
    Send(TurnControl),
    /// Solve the band again.
    Refit,
    /// Settle what menu the draft asks for.
    ReconcileMenu,
    /// Remember that the menu was closed.
    RememberDismissal,
    /// Put the marked name into the composer.
    InsertCompletion,
    /// Empty the composer.
    TakeDraft,
    /// End the walk through what was submitted.
    LeaveWalk,
    /// Write the line down among what was submitted.
    RecordLine,
    /// Hand a key to the composer.
    Apply(Action),
    /// Hand a vertical move to the composer, and then ask what it came to.
    Climb(HistoryStep),
    /// Type a character.
    Type(char),
    /// Submit the draft.
    Submit,
    /// Answer a Ctrl-C.
    Interrupt,
    /// Answer an Escape.
    Escape,
    /// Take a step through what was submitted.
    Recall(HistoryStep),
    /// A paste begins.
    BeginPaste,
    /// A paste ends.
    FinishPaste,
    /// Run the command the line names.
    RunCommand,
    /// Settle the rows only time changes.
    SettleBand,
    /// Settle the row that says what the turn is doing.
    TickActivity,
}

/// The UI's state: what the band shows, and what it owes the screen.
pub struct Shell {
    geometry: Geometry,
    screen: (u16, u16),
    palette: Palette,
    model: String,
    mode: String,
    missing_credential: bool,
    provider: ProviderId,
    catalog: Vec<CatalogEntry>,
    context_used: Option<u64>,
    transaction: LastTransaction,
    document: Document,
    notice: Option<Refusal>,
    escape_armed: bool,
    queued: usize,
    phase: u8,
    panel: bool,
    alternate: bool,
    owner: ScreenOwner,
    menu: bool,
    activity_row: Option<String>,
    clearing: bool,
    fatal: Option<String>,
    leaving: Option<Leaving>,
    asked: Asked,
}

/// [`Shell`] in mathematical terms.
pub struct Session {
    /// Where everything in the band is.
    pub geometry: Geometry,
    /// The screen's size as the terminal last reported it.
    pub screen: (u16, u16),
    pub palette: Palette,
    /// The model a turn talks to.
    pub model: Seq<char>,
    /// How much authority a turn has before it has to ask.
    pub mode: Seq<char>,
    /// Whether the provider has nothing to authenticate with.
    pub missing_credential: bool,
    pub provider: ProviderId,
    /// What the last load of the provider's list produced.
    pub catalog: Seq<CatalogEntry>,
    /// How many tokens the last completed turn was given.
    pub context_used: Option<u64>,
    /// What the last change to the composer's text was.
    pub transaction: Option<EditTransaction>,
    /// What is written above the band, and what is still ahead of it.
    pub script: Script,
    /// The refusal the hint row shows.
    pub notice: Option<Refusal>,
    /// Whether a second Escape would clear the composer.
    pub escape_armed: bool,
    /// How many submissions wait.
    pub queued: usize,
    /// Which phase of its blink the activity row is on.
    pub phase: u8,
    /// Whether a question is up in the band.
    pub panel: bool,
    /// Whether a question is up on a screen of its own.
    pub alternate: bool,
    pub owner: ScreenOwner,
    /// Whether a completion menu is open.
    pub menu: bool,
    /// What the turn is doing.
    pub activity_row: Option<Seq<char>>,
    /// Whether the screen owes an erasure.
    pub clearing: bool,
    /// Why the session ends, where no turn can run any more.
    pub fatal: Option<Seq<char>>,
    /// How the session ends, once it does.
    pub leaving: Option<Leaving>,
    /// Why a frame is asked for.
    pub asked: Asked,
}

/// What an optional string says.
pub open spec fn said(text: Option<String>) -> Option<Seq<char>> {
    match text {
        Some(words) => Some(words@),
        None => None,
    }
}

impl View for Shell {
    type V = Session;

    closed spec fn view(&self) -> Session {
        Session {
            geometry: self.geometry,
            screen: self.screen,
            palette: self.palette,
            model: self.model@,
            mode: self.mode@,
            missing_credential: self.missing_credential,
            provider: self.provider,
            catalog: self.catalog@,
            context_used: self.context_used,
            transaction: self.transaction@,
            script: self.document@,
            notice: self.notice,
            escape_armed: self.escape_armed,
            queued: self.queued,
            phase: self.phase,
            panel: self.panel,
            alternate: self.alternate,
            owner: self.owner,
            menu: self.menu,
            activity_row: said(self.activity_row),
            clearing: self.clearing,
            fatal: said(self.fatal),
            leaving: self.leaving,
            asked: self.asked,
        }
    }
}

impl Session {
    /// Whether a question is in front of the user, on either plane.
    pub open spec fn asking(self) -> bool {
        self.panel || self.alternate
    }

    /// One question is up on one plane, the plane is the one frames are
    /// composed for, and no menu stands behind it.
    pub open spec fn settled(self) -> bool {
        &&& !(self.panel && self.alternate)
        &&& self.owner == ScreenOwner::Approval <==> self.alternate
        &&& self.asking() ==> !self.menu
    }

    /// The session once a frame has been asked for.
    pub open spec fn asks(self, reason: Reason) -> Session {
        Session { asked: self.asked.with(reason), ..self }
    }

    /// The session once a line of its own has been said.
    pub open spec fn says(self, line: Seq<char>) -> Session {
        Session { script: self.script.said(line), ..self }
    }

    /// The session once each of `lines` has been said.
    pub open spec fn says_all(self, lines: Seq<Seq<char>>) -> Session
        decreases lines.len(),
    {
        if lines.len() == 0 {
            self
        } else {
            self.says_all(lines.drop_last()).says(lines.last())
        }
    }

    /// The session once a line has been written at once.
    pub open spec fn interjects(self, line: Seq<char>) -> Session {
        Session { script: self.script.interjected(line), ..self }
    }

    /// The session once it has been given a reason to leave. The first one is
    /// kept.
    pub open spec fn leaves(self, why: Leaving) -> Session {
        Session {
            leaving: match self.leaving {
                Some(first) => Some(first),
                None => Some(why),
            },
            ..self
        }
    }

    /// The session once anything has touched the composer.
    pub open spec fn moves(self) -> Session {
        self.asks(Reason::Footer)
    }

    /// The session once the composer's text has changed.
    pub open spec fn edits(self) -> Session {
        Session { transaction: Some(EditTransaction::Other), ..self }.moves()
    }

    /// The session once its menu has been closed, where it had one.
    pub open spec fn dismisses(self) -> Session {
        if self.menu {
            Session { menu: false, ..self }.asks(Reason::Modal)
        } else {
            self
        }
    }

    /// The session once the question is answered: it is gone from either plane,
    /// and the plane is given back.
    pub open spec fn answered(self) -> Session {
        Session { panel: false, alternate: false, owner: ScreenOwner::Primary, ..self }
    }

    /// The session once a submission was not taken.
    pub open spec fn refuses(self, rejected: Rejected) -> Session {
        match rejected {
            Rejected::Busy => Session { notice: Some(Refusal::Queue), ..self }.asks(Reason::Footer),
            Rejected::Gone => self.says(GONE_NOTICE@),
        }
    }

    /// What is in the band's elastic rows: a question outranks a menu.
    pub open spec fn slot(self) -> Option<Slot> {
        if self.panel {
            Some(Slot::Question)
        } else if self.menu {
            Some(Slot::Menu)
        } else {
            None
        }
    }
}

/// What any touch of the composer owes its neighbours.
pub open spec fn moved_chores() -> Seq<Chore> {
    seq![Chore::ReconcileMenu, Chore::Refit]
}

/// What a change of the composer's text owes that the user made.
pub open spec fn amended_chores() -> Seq<Chore> {
    seq![Chore::LeaveWalk] + moved_chores()
}

/// What closing the menu owes, where there is one.
pub open spec fn dismissed_chores(menu: bool) -> Seq<Chore> {
    if menu {
        seq![Chore::RememberDismissal, Chore::Refit]
    } else {
        Seq::empty()
    }
}

impl Shell {
    /// A session whose document and whose planes are in order.
    pub closed spec fn well_formed(&self) -> bool {
        &&& self.document.well_formed()
        &&& self@.settled()
    }

    /// A session that has drawn nothing. It owes a frame.
    pub fn new(
        model: String,
        mode: String,
        provider: ProviderId,
        missing_credential: bool,
        geometry: Geometry,
        palette: Palette,
    ) -> (shell: Self)
        ensures
            shell.well_formed(),
            shell@ == (Session {
                geometry,
                screen: (geometry.rows, geometry.cols),
                palette,
                model: model@,
                mode: mode@,
                missing_credential,
                provider,
                catalog: Seq::empty(),
                context_used: None,
                transaction: None,
                script: Script {
                    paper: Paper {
                        unfinished: Unfinished {
                            cols: geometry.cols,
                            tail: Seq::empty(),
                            painted: 0,
                            split_crlf: false,
                        },
                        owed: Seq::empty(),
                        frame: false,
                    },
                    held: Seq::empty(),
                    tail: Seq::empty(),
                    enqueued: 0,
                },
                notice: None,
                escape_armed: false,
                queued: 0,
                phase: 0,
                panel: false,
                alternate: false,
                owner: ScreenOwner::Primary,
                menu: false,
                activity_row: None,
                clearing: false,
                fatal: None,
                leaving: None,
                asked: Asked::none().with(Reason::FirstFrame),
            }),
    {
        Shell {
            geometry,
            screen: (geometry.rows, geometry.cols),
            palette,
            model,
            mode,
            missing_credential,
            provider,
            catalog: Vec::new(),
            context_used: None,
            transaction: LastTransaction::new(),
            document: Document::new(geometry.cols),
            notice: None,
            escape_armed: false,
            queued: 0,
            phase: 0,
            panel: false,
            alternate: false,
            owner: ScreenOwner::Primary,
            menu: false,
            activity_row: None,
            clearing: false,
            fatal: None,
            leaving: None,
            asked: Asked {
                first_frame: true,
                footer: false,
                modal: false,
                animation: false,
                resize: false,
                external_damage: false,
            },
        }
    }

    /// Asks for a frame.
    fn request(&mut self, reason: Reason)
        ensures
            final(self)@ == old(self)@.asks(reason),
            old(self).well_formed() ==> final(self).well_formed(),
            final(self).document == old(self).document,
    {
        self.asked = self.asked.and(reason);
    }

    /// Why frames have been asked for since this was last taken, and whether
    /// the document owes one.
    pub fn take_asked(&mut self) -> (asked: (Asked, bool))
        requires
            old(self).well_formed(),
        ensures
            asked == (old(self)@.asked, old(self)@.script.paper.frame),
            final(self)@ == (Session {
                asked: Asked::none(),
                script: Script {
                    paper: Paper { frame: false, ..old(self)@.script.paper },
                    ..old(self)@.script
                },
                ..old(self)@
            }),
            final(self).well_formed(),
    {
        let asked: Asked = self.asked;
        let frame: bool = self.document.take_frame();
        self.asked = Asked {
            first_frame: false,
            footer: false,
            modal: false,
            animation: false,
            resize: false,
            external_damage: false,
        };
        (asked, frame)
    }

    /// Says one of the session's own lines, in the place the stream has
    /// reached.
    pub fn say(&mut self, line: &str)
        requires
            old(self).well_formed(),
        ensures
            final(self)@ == old(self)@.says(line@),
            final(self).well_formed(),
    {
        self.document.say(line);
    }

    /// Writes a line at once, wherever the stream is.
    fn interject(&mut self, line: &str)
        requires
            old(self).well_formed(),
        ensures
            final(self)@ == old(self)@.interjects(line@),
            final(self).well_formed(),
    {
        self.document.write_document_line(line);
    }

    /// Says each of `lines`.
    fn say_all(&mut self, lines: &[String])
        requires
            old(self).well_formed(),
        ensures
            final(self)@ == old(self)@.says_all(text::texts(lines@)),
            final(self).well_formed(),
    {
        let ghost all = text::texts(lines@);
        let ghost before = self@;
        let mut at: usize = 0;
        proof {
            assert(all.take(0) =~= Seq::empty());
        }
        while at < lines.len()
            invariant
                at <= lines@.len(),
                all == text::texts(lines@),
                self.well_formed(),
                self@ == before.says_all(all.take(at as int)),
            decreases lines@.len() - at,
        {
            self.say(lines[at].as_str());
            proof {
                let next = all.take(at + 1);
                assert(next.drop_last() =~= all.take(at as int));
                assert(next.last() == lines@[at as int]@);
            }
            at = at + 1;
        }
        proof {
            assert(all.take(at as int) =~= all);
        }
    }

    /// Ends the session, keeping the first reason it was given.
    fn leave_by(&mut self, why: Leaving)
        ensures
            final(self)@ == old(self)@.leaves(why),
            old(self).well_formed() ==> final(self).well_formed(),
    {
        if self.leaving.is_none() {
            self.leaving = Some(why);
        }
    }

    /// Ends the session.
    pub fn leave(&mut self)
        requires
            old(self).well_formed(),
        ensures
            final(self)@ == old(self)@.leaves(Leaving::Quit),
            final(self).well_formed(),
    {
        self.leave_by(Leaving::Quit);
    }

    /// Whether the session is on its way out.
    pub fn leaving(&self) -> (yes: bool)
        ensures
            yes == self@.leaving is Some,
    {
        self.leaving.is_some()
    }

    /// What the process exits with.
    pub fn exit_code(&self) -> (code: u8)
        ensures
            code == exit_code_of(self@.leaving),
            code == (if self@.leaving == Some(Leaving::Interrupted) {
                INTERRUPTED_EXIT_CODE
            } else {
                0
            }),
    {
        match self.leaving {
            Some(Leaving::Interrupted) => INTERRUPTED_EXIT_CODE,
            _ => 0,
        }
    }

    /// Why the session ends, where no turn can run any more.
    pub fn fatal(&self) -> (message: Option<&str>)
        ensures
            match message {
                Some(words) => self@.fatal == Some(words@),
                None => self@.fatal is None,
            },
    {
        match &self.fatal {
            Some(message) => Some(message.as_str()),
            None => None,
        }
    }

    /// Whether the screen owes an erasure, taken so that it is made once.
    pub fn take_clearing(&mut self) -> (clearing: bool)
        requires
            old(self).well_formed(),
        ensures
            clearing == old(self)@.clearing,
            final(self)@ == (Session { clearing: false, ..old(self)@ }),
            final(self).well_formed(),
    {
        let clearing: bool = self.clearing;
        self.clearing = false;
        clearing
    }
}

/// The first reason a session was given to leave is the one it leaves by.
pub proof fn law_the_first_reason_is_kept(session: Session, first: Leaving, second: Leaving)
    requires
        session.leaving is None,
    ensures
        session.leaves(first).leaving == Some(first),
        session.leaves(first).leaves(second) == session.leaves(first),
{
}

/// Whether a model's name is an entry's: its id, or one of its aliases.
pub open spec fn names(entry: CatalogEntry, model: Seq<char>) -> bool {
    entry.id@ == model || exists|i: int|
        0 <= i < entry.aliases@.len() && (#[trigger] entry.aliases@[i])@ == model
}

/// The window of the first entry that a model's name is.
pub open spec fn window_of(catalog: Seq<CatalogEntry>, model: Seq<char>) -> Option<u64>
    decreases catalog.len(),
{
    if catalog.len() == 0 {
        None
    } else if names(catalog[0], model) {
        catalog[0].max_context
    } else {
        window_of(catalog.skip(1), model)
    }
}

/// One row of the list of models.
pub open spec fn catalog_row(entry: CatalogEntry) -> Seq<char> {
    let context = match entry.max_context {
        Some(window) => text::decimal(window as nat),
        None => "unknown"@,
    };
    let efforts = if entry.efforts@.len() == 0 {
        "none"@
    } else {
        text::listed(text::texts(entry.efforts@), ","@)
    };
    "[shell]   "@ + entry.preferred@ + " context="@ + context + " efforts="@ + efforts
}

/// The list of models, row by row.
pub open spec fn catalog_lines(catalog: Seq<CatalogEntry>) -> Seq<Seq<char>> {
    catalog.map_values(|entry: CatalogEntry| catalog_row(entry))
}

fn named(entry: &CatalogEntry, model: &str) -> (yes: bool)
    ensures
        yes == names(*entry, model@),
{
    if text::same(entry.id.as_str(), model) {
        return true;
    }
    let mut at: usize = 0;
    while at < entry.aliases.len()
        invariant
            at <= entry.aliases@.len(),
            entry.id@ != model@,
            forall|i: int| 0 <= i < at ==> (#[trigger] entry.aliases@[i])@ != model@,
        decreases entry.aliases@.len() - at,
    {
        if text::same(entry.aliases[at].as_str(), model) {
            return true;
        }
        at = at + 1;
    }
    false
}

fn catalog_text(entry: &CatalogEntry) -> (row: String)
    ensures
        row@ == catalog_row(*entry),
{
    let mut row: String = "[shell]   ".to_owned();
    row.append(entry.preferred.as_str());
    row.append(" context=");
    match entry.max_context {
        Some(window) => row.append(text::decimal_text(window).as_str()),
        None => row.append("unknown"),
    }
    row.append(" efforts=");
    if entry.efforts.len() == 0 {
        row.append("none");
    } else {
        row.append(text::list(entry.efforts.as_slice(), ",").as_str());
    }
    row
}

impl Session {
    /// The two numbers of the context meter: what the last turn was given, and
    /// what the model's window holds. Both, or neither.
    pub open spec fn meter(self) -> Option<(u64, u64)> {
        match (self.context_used, window_of(self.catalog, self.model)) {
            (Some(used), Some(total)) => Some((used, total)),
            _ => None,
        }
    }

    /// Whether a question can be put on a plane: none is up that it would stand
    /// beside.
    pub open spec fn may_be_asked(self, surface: ApprovalSurface) -> bool {
        &&& !self.alternate
        &&& surface == ApprovalSurface::Alternate ==> !self.panel
    }

    /// The session once a question has been put to the user, or refused on
    /// their behalf where the screen cannot hold it.
    pub open spec fn asked_about(self, surface: ApprovalSurface, fits: bool) -> Session {
        if !fits {
            self.says(PANEL_TOO_SMALL@)
        } else {
            let alone = self.dismisses();
            (match surface {
                ApprovalSurface::Inline => Session {
                    panel: true,
                    owner: ScreenOwner::Primary,
                    ..alone
                },
                ApprovalSurface::Alternate => Session {
                    alternate: true,
                    owner: ScreenOwner::Approval,
                    ..alone
                },
            }).asks(Reason::Modal)
        }
    }

    /// The session once it has switched provider: the old provider's list and
    /// the old conversation's count go with it.
    pub open spec fn selects(
        self,
        provider: ProviderId,
        model: Seq<char>,
        missing_credential: bool,
    ) -> Session {
        Session {
            provider,
            model,
            missing_credential,
            catalog: Seq::empty(),
            context_used: None,
            ..self
        }.says(provider_line(provider, model)).asks(Reason::Footer)
    }

    /// The session once a list of models has been loaded: it is the list, and
    /// every row of it is said.
    #[verifier::opaque]
    pub open spec fn lists(self, provider: ProviderId, entries: Seq<CatalogEntry>) -> Session {
        Session { catalog: entries, provider, ..self }.says(
            "[shell] catalog="@ + text::decimal(entries.len()) + " shown"@,
        ).says_all(catalog_lines(entries)).asks(Reason::Footer)
    }

    /// The session once an event of the other thread has been shown.
    pub open spec fn applied(self, event: UiEvent, quoted: Seq<char>, fits: bool) -> Session {
        match event {
            UiEvent::TurnStarted => self,
            UiEvent::Delta(words) => Session { script: self.script.streamed(words@), ..self },
            UiEvent::ToolStart { tool } => self.says("[tool] "@ + tool@ + " running"@),
            UiEvent::ToolResult { tool, ok, detail } => self.says(tool_line(tool@, ok, quoted)),
            UiEvent::Notice(words) => self.says(words@),
            UiEvent::ProviderSelected { provider, model, missing_credential } => self.selects(
                provider,
                model@,
                missing_credential,
            ),
            UiEvent::CatalogLoaded { provider, entries } => self.lists(provider, entries@),
            UiEvent::Usage { input, output } => Session { context_used: input, ..self }.asks(
                Reason::Footer,
            ),
            UiEvent::Approval(surface) => self.asked_about(surface, fits),
            UiEvent::TurnEnded { failure } => match failure {
                Some(words) => self.says(words@),
                None => Session { script: self.script.marked(Note::EndOfLine), ..self },
            },
            UiEvent::Fatal(message) => Session {
                script: self.script.marked(Note::EndOfLine),
                fatal: Some(message@),
                ..self
            }.leaves(Leaving::Quit),
        }
    }

    /// What asking a question owes.
    pub open spec fn ask_chores(self, surface: ApprovalSurface, fits: bool) -> Seq<Chore> {
        if !fits {
            seq![Chore::Send(TurnControl::Answer(ApprovalAnswer::Deny))]
        } else {
            dismissed_chores(self.menu).push(Chore::Refit)
        }
    }

    /// What showing an event owes.
    pub open spec fn event_chores(self, event: UiEvent, fits: bool) -> Seq<Chore> {
        match event {
            UiEvent::TurnStarted => seq![Chore::Think],
            UiEvent::Delta(_) => seq![Chore::Enqueue],
            UiEvent::ToolStart { .. } => seq![Chore::NameTool],
            UiEvent::ToolResult { .. } => seq![Chore::Think],
            UiEvent::Approval(surface) => self.ask_chores(surface, fits),
            UiEvent::TurnEnded { .. } => seq![Chore::Rest, Chore::FinishPacing, Chore::TurnEnded],
            _ => Seq::empty(),
        }
    }
}

/// What the document says of a tool that has ended.
pub open spec fn tool_line(tool: Seq<char>, ok: bool, quoted: Seq<char>) -> Seq<char> {
    if ok {
        "[tool] "@ + tool + " ok"@
    } else {
        "[tool] "@ + tool + " refused: "@ + quoted
    }
}

/// What the document says of a session that has switched provider.
pub open spec fn provider_line(provider: ProviderId, model: Seq<char>) -> Seq<char> {
    "[shell] provider="@ + provider.name() + " model="@ + model
        + "; the next prompt starts a fresh conversation"@
}

impl Shell {
    /// The two numbers of the context meter, or nothing at all: a row that
    /// filled in a missing half would report a measurement nobody took.
    pub fn context_meter(&self) -> (meter: Option<(u64, u64)>)
        ensures
            meter == self@.meter(),
    {
        let used: u64 = match self.context_used {
            Some(used) => used,
            None => {
                return None;
            },
        };
        let mut at: usize = 0;
        proof {
            assert(self.catalog@.skip(0) =~= self.catalog@);
        }
        while at < self.catalog.len()
            invariant
                at <= self.catalog@.len(),
                window_of(self.catalog@, self.model@) == window_of(
                    self.catalog@.skip(at as int),
                    self.model@,
                ),
                self.context_used == Some(used),
            decreases self.catalog@.len() - at,
        {
            proof {
                assert(self.catalog@.skip(at as int).skip(1) =~= self.catalog@.skip(at + 1));
                assert(self.catalog@.skip(at as int)[0] == self.catalog@[at as int]);
            }
            if named(&self.catalog[at], self.model.as_str()) {
                return match self.catalog[at].max_context {
                    Some(total) => Some((used, total)),
                    None => None,
                };
            }
            at = at + 1;
        }
        None
    }

    /// One document row per model, in the order the provider published them.
    pub fn catalog_rows(&self) -> (rows: Vec<String>)
        ensures
            text::texts(rows@) == catalog_lines(self@.catalog),
    {
        let mut rows: Vec<String> = Vec::new();
        let mut at: usize = 0;
        while at < self.catalog.len()
            invariant
                at <= self.catalog@.len(),
                rows@.len() == at,
                forall|i: int|
                    0 <= i < at ==> (#[trigger] rows@[i])@ == catalog_row(self.catalog@[i]),
            decreases self.catalog@.len() - at,
        {
            let row: String = catalog_text(&self.catalog[at]);
            rows.push(row);
            at = at + 1;
        }
        proof {
            assert(text::texts(rows@) =~= catalog_lines(self.catalog@));
        }
        rows
    }

    /// Closes the menu and remembers that it was closed, where there is one.
    pub fn dismiss_picker(&mut self) -> (chores: Vec<Chore>)
        requires
            old(self).well_formed(),
        ensures
            final(self)@ == old(self)@.dismisses(),
            chores@ == dismissed_chores(old(self)@.menu),
            final(self).well_formed(),
    {
        let mut chores: Vec<Chore> = Vec::new();
        if self.menu {
            self.menu = false;
            chores.push(Chore::RememberDismissal);
            chores.push(Chore::Refit);
            self.request(Reason::Modal);
        }
        proof {
            assert(chores@ =~= dismissed_chores(old(self)@.menu));
        }
        chores
    }

    /// Puts a question in front of the user, or refuses it on their behalf
    /// where the screen cannot hold it: a decision that was never given is a
    /// refusal.
    ///
    /// The menu goes before the question comes, and the question goes onto one
    /// plane and not two. A turn asks one question at a time, so no question
    /// comes while one is up on a plane of its own, and none is given such a
    /// plane while one is up in the band.
    pub fn ask(&mut self, surface: ApprovalSurface, fits: bool) -> (chores: Vec<Chore>)
        requires
            old(self).well_formed(),
            fits ==> old(self)@.may_be_asked(surface),
        ensures
            final(self)@ == old(self)@.asked_about(surface, fits),
            chores@ == old(self)@.ask_chores(surface, fits),
            final(self).well_formed(),
    {
        if !fits {
            self.say(PANEL_TOO_SMALL);
            let mut chores: Vec<Chore> = Vec::new();
            chores.push(Chore::Send(TurnControl::Answer(ApprovalAnswer::Deny)));
            return chores;
        }
        let mut chores: Vec<Chore> = self.dismiss_picker();
        match surface {
            ApprovalSurface::Inline => {
                self.panel = true;
                self.owner = ScreenOwner::Primary;
            },
            ApprovalSurface::Alternate => {
                self.alternate = true;
                self.owner = ScreenOwner::Approval;
            },
        }
        chores.push(Chore::Refit);
        self.request(Reason::Modal);
        chores
    }

    fn apply_tool(&mut self, tool: &str, ok: bool, quoted: &str)
        requires
            old(self).well_formed(),
        ensures
            final(self)@ == old(self)@.says(tool_line(tool@, ok, quoted@)),
            final(self).well_formed(),
    {
        let mut line: String = "[tool] ".to_owned();
        line.append(tool);
        if ok {
            line.append(" ok");
        } else {
            line.append(" refused: ");
            line.append(quoted);
        }
        self.say(line.as_str());
    }

    fn apply_tool_start(&mut self, tool: &str)
        requires
            old(self).well_formed(),
        ensures
            final(self)@ == old(self)@.says("[tool] "@ + tool@ + " running"@),
            final(self).well_formed(),
    {
        let mut line: String = "[tool] ".to_owned();
        line.append(tool);
        line.append(" running");
        self.say(line.as_str());
    }

    fn apply_provider(&mut self, provider: ProviderId, model: String, missing_credential: bool)
        requires
            old(self).well_formed(),
        ensures
            final(self)@ == old(self)@.selects(provider, model@, missing_credential),
            final(self).well_formed(),
    {
        self.provider = provider;
        self.model = model;
        self.missing_credential = missing_credential;
        self.catalog = Vec::new();
        self.context_used = None;
        let mut line: String = "[shell] provider=".to_owned();
        line.append(provider.label());
        line.append(" model=");
        line.append(self.model.as_str());
        line.append("; the next prompt starts a fresh conversation");
        self.say(line.as_str());
        self.request(Reason::Footer);
    }

    fn apply_catalog(&mut self, provider: ProviderId, entries: Vec<CatalogEntry>)
        requires
            old(self).well_formed(),
        ensures
            final(self)@ == old(self)@.lists(provider, entries@),
            final(self).well_formed(),
    {
        proof {
            reveal(Session::lists);
        }
        self.catalog = entries;
        self.provider = provider;
        let mut line: String = "[shell] catalog=".to_owned();
        line.append(text::decimal_text(self.catalog.len() as u64).as_str());
        line.append(" shown");
        self.say(line.as_str());
        let rows: Vec<String> = self.catalog_rows();
        self.say_all(rows.as_slice());
        self.request(Reason::Footer);
    }

    fn apply_delta(&mut self, words: &str)
        requires
            old(self).well_formed(),
            old(self)@.script.enqueued + document::bytes(words@) <= usize::MAX,
        ensures
            final(self)@ == (Session {
                script: old(self)@.script.streamed(words@),
                ..old(self)@
            }),
            final(self).well_formed(),
    {
        self.document.stream(words);
    }

    fn apply_usage(&mut self, input: Option<u64>)
        requires
            old(self).well_formed(),
        ensures
            final(self)@ == (Session { context_used: input, ..old(self)@ }).asks(Reason::Footer),
            final(self).well_formed(),
    {
        self.context_used = input;
        self.request(Reason::Footer);
    }

    fn apply_conclusion(&mut self, failure: Option<String>)
        requires
            old(self).well_formed(),
        ensures
            final(self)@ == (match failure {
                Some(words) => old(self)@.says(words@),
                None => Session {
                    script: old(self)@.script.marked(Note::EndOfLine),
                    ..old(self)@
                },
            }),
            final(self).well_formed(),
    {
        match failure {
            Some(words) => self.say(words.as_str()),
            None => self.document.mark(Mark::EndOfLine),
        }
    }

    fn apply_fatal(&mut self, message: String)
        requires
            old(self).well_formed(),
        ensures
            final(self)@ == (Session {
                script: old(self)@.script.marked(Note::EndOfLine),
                fatal: Some(message@),
                ..old(self)@
            }).leaves(Leaving::Quit),
            final(self).well_formed(),
    {
        self.document.mark(Mark::EndOfLine);
        self.fatal = Some(message);
        self.leave_by(Leaving::Quit);
    }

    /// Shows what the other thread just did.
    ///
    /// `quoted` is a refused tool's detail on one safe line of at most
    /// [`TOOL_DETAIL_BYTES`], and `fits` says whether the screen holds the
    /// question that an event asks.
    pub fn apply(&mut self, event: UiEvent, quoted: &str, fits: bool) -> (chores: Vec<Chore>)
        requires
            old(self).well_formed(),
            event matches UiEvent::Delta(words) ==> old(self)@.script.enqueued + document::bytes(
                words@,
            ) <= usize::MAX,
            event matches UiEvent::Approval(surface) ==> fits ==> old(self)@.may_be_asked(surface),
        ensures
            final(self)@ == old(self)@.applied(event, quoted@, fits),
            chores@ == old(self)@.event_chores(event, fits),
            final(self).well_formed(),
    {
        if let UiEvent::Approval(surface) = event {
            return self.ask(surface, fits);
        }
        let chores: Vec<Chore> = chores_of(&event);
        match event {
            UiEvent::TurnStarted => {},
            UiEvent::Delta(words) => self.apply_delta(words.as_str()),
            UiEvent::ToolStart { tool } => self.apply_tool_start(tool.as_str()),
            UiEvent::ToolResult { tool, ok, detail: _ } => self.apply_tool(
                tool.as_str(),
                ok,
                quoted,
            ),
            UiEvent::Notice(words) => self.say(words.as_str()),
            UiEvent::ProviderSelected { provider, model, missing_credential } => {
                self.apply_provider(provider, model, missing_credential)
            },
            UiEvent::CatalogLoaded { provider, entries } => self.apply_catalog(provider, entries),
            UiEvent::Usage { input, output: _ } => self.apply_usage(input),
            UiEvent::Approval(_) => {},
            UiEvent::TurnEnded { failure } => self.apply_conclusion(failure),
            UiEvent::Fatal(message) => self.apply_fatal(message),
        }
        chores
    }
}

/// What showing an event owes that asks no question.
fn chores_of(event: &UiEvent) -> (chores: Vec<Chore>)
    requires
        !(event is Approval),
    ensures
        forall|session: Session, fits: bool|
            chores@ == #[trigger] session.event_chores(*event, fits),
{
    let mut chores: Vec<Chore> = Vec::new();
    match event {
        UiEvent::TurnStarted => chores.push(Chore::Think),
        UiEvent::Delta(_) => chores.push(Chore::Enqueue),
        UiEvent::ToolStart { .. } => chores.push(Chore::NameTool),
        UiEvent::ToolResult { .. } => chores.push(Chore::Think),
        UiEvent::TurnEnded { .. } => {
            chores.push(Chore::Rest);
            chores.push(Chore::FinishPacing);
            chores.push(Chore::TurnEnded);
        },
        _ => {},
    }
    proof {
        assert forall|session: Session, fits: bool|
            chores@ == #[trigger] session.event_chores(*event, fits) by {
            assert(chores@ =~= session.event_chores(*event, fits));
        }
    }
    chores
}

/// A question that is asked is up on one plane and one only, it owns the screen
/// exactly where that plane is its own, and no menu stands behind it.
pub proof fn law_a_question_is_on_one_plane(session: Session, surface: ApprovalSurface)
    requires
        session.settled(),
        session.may_be_asked(surface),
    ensures
        ({
            let after = session.asked_about(surface, true);
            &&& after.settled()
            &&& after.asking()
            &&& after.panel == (surface == ApprovalSurface::Inline)
            &&& after.alternate == (surface == ApprovalSurface::Alternate)
            &&& after.owner == ScreenOwner::Approval <==> surface == ApprovalSurface::Alternate
            &&& after.slot() != Some(Slot::Menu)
        }),
{
}

/// A question the screen cannot hold moves nothing but the document, and is
/// answered with a refusal.
pub proof fn law_a_question_that_does_not_fit_is_refused(
    session: Session,
    surface: ApprovalSurface,
)
    ensures
        session.asked_about(surface, false) == session.says(PANEL_TOO_SMALL@),
        session.ask_chores(surface, false) == seq![
            Chore::Send(TurnControl::Answer(ApprovalAnswer::Deny)),
        ],
{
}

/// A switch of provider takes the old provider's list and the old
/// conversation's count with it, so the meter says nothing until both are
/// measured again.
pub proof fn law_a_switch_empties_the_meter(
    session: Session,
    provider: ProviderId,
    model: Seq<char>,
    missing_credential: bool,
)
    ensures
        ({
            let after = session.selects(provider, model, missing_credential);
            &&& after.meter() is None
            &&& after.provider == provider
            &&& after.model == model
            &&& after.missing_credential == missing_credential
        }),
{
}

/// Whether a key moves the caret along the draft and changes no text.
pub open spec fn is_move(action: Action) -> bool {
    match action {
        Action::Left | Action::Right | Action::Home | Action::End | Action::WordLeft
        | Action::WordRight => true,
        _ => false,
    }
}

/// Whether a key takes text away.
pub open spec fn is_edit(action: Action) -> bool {
    match action {
        Action::Backspace | Action::Delete | Action::DeleteWordLeft | Action::KillToEnd
        | Action::KillToStart => true,
        _ => false,
    }
}

/// Whether a menu binds a key.
pub open spec fn menu_binds(action: Action) -> bool {
    action == Action::Up || action == Action::Down || action == Action::Tab || action
        == Action::Submit || action == Action::Escape
}

/// Who a key is for.
#[derive(Debug, Clone, Copy, PartialEq, Eq, Structural)]
pub enum Route {
    /// The question that is up.
    Question,
    /// The menu first, and then whoever it would have gone to.
    Menu(Action),
    /// The composer: a character.
    Type(char),
    /// The session: a key.
    Act(Action),
    /// The paste that is arriving.
    Paste(u8),
}

/// What a question makes of a key.
#[derive(Debug, Clone, Copy, PartialEq, Eq, Structural)]
pub enum Asks {
    /// Nothing: it is swallowed.
    Nothing,
    /// The change is scrolled back, or forth.
    Scroll { back: bool },
    /// The question is given this key.
    Key(PanelKey),
}

/// What a question makes of a key. The two keys that scroll are bound only where
/// there is something to scroll.
pub open spec fn question_key(input: Input, alternate: bool) -> Asks {
    match input {
        Input::Text(c) => Asks::Key(PanelKey::Text(c)),
        Input::Action(Action::HistoryPrevious) => if alternate {
            Asks::Scroll { back: true }
        } else {
            Asks::Nothing
        },
        Input::Action(Action::HistoryNext) => if alternate {
            Asks::Scroll { back: false }
        } else {
            Asks::Nothing
        },
        Input::Action(Action::Up) => Asks::Key(PanelKey::Up),
        Input::Action(Action::Down) => Asks::Key(PanelKey::Down),
        Input::Action(Action::Tab) => Asks::Key(PanelKey::Tab),
        Input::Action(Action::Submit) => Asks::Key(PanelKey::Submit),
        Input::Action(Action::Escape) => Asks::Key(PanelKey::Escape),
        Input::Action(Action::Cancel) => Asks::Key(PanelKey::Cancel),
        _ => Asks::Nothing,
    }
}

/// What a menu made of a key it binds.
#[derive(Debug, Clone, Copy, PartialEq, Eq, Structural)]
pub enum PickerOutcome {
    /// The mark moved.
    Changed,
    /// A name was taken.
    Complete,
    /// The menu is to be closed.
    Dismiss,
}

/// What a Ctrl-C means now.
#[derive(Debug, Clone, Copy, PartialEq, Eq, Structural)]
pub enum Interrupt {
    /// Stop the turn.
    Cancel,
    /// Clear the composer.
    Clear,
    /// End the session.
    Leave,
}

/// What an Escape means now.
#[derive(Debug, Clone, Copy, PartialEq, Eq, Structural)]
pub enum Escape {
    /// A second one would clear the composer.
    Armed,
    /// Clear the composer.
    Clear,
}

/// What a step through what was submitted came to.
#[derive(Debug, Clone, Copy, PartialEq, Eq, Structural)]
pub enum Recall {
    /// There was nothing to step to.
    Nothing,
    /// The composer would not take the line. `short` says that a block of it
    /// could not be numbered.
    Kept { short: bool },
    /// The composer holds the line now.
    Taken { short: bool },
}

/// What a paste came to.
#[derive(Debug, PartialEq, Eq)]
pub enum Pasted {
    /// Nothing was taken: it was past the budget, or there was no number for it.
    Refused(Refusal),
    /// Its text was offered to the composer, which took it or did not.
    Inline { empty: bool, inserted: bool },
    /// A block was offered to the composer: the draft on either side of it, and
    /// where it stands, where the composer took it.
    Collapsed { before: String, after: String, entity: Option<Span> },
}

impl Session {
    /// Who a key is for: a question has the focus, a menu has the keys it
    /// binds, and everything else is the composer's and the session's.
    pub open spec fn routes(self, input: Input) -> Route {
        if self.asking() {
            Route::Question
        } else {
            match input {
                Input::Text(c) => Route::Type(c),
                Input::PasteByte(byte) => Route::Paste(byte),
                Input::Action(action) => if self.menu && menu_binds(action) {
                    Route::Menu(action)
                } else {
                    Route::Act(action)
                },
            }
        }
    }

    /// The session once a question has been given a key.
    pub open spec fn keyed(self, input: Input) -> Session {
        if question_key(input, self.alternate) is Scroll {
            self.asks(Reason::Modal)
        } else if input == Input::Action(Action::Redraw) {
            self.asks(Reason::ExternalDamage)
        } else {
            self
        }
    }

    /// The session once the question that is up has said what a key came to.
    pub open spec fn decided(self, answered: Option<ApprovalAnswer>) -> Session {
        if !self.asking() {
            self
        } else {
            (match answered {
                None => self,
                Some(_) => self.answered(),
            }).asks(Reason::Modal)
        }
    }

    /// What that owes.
    pub open spec fn decision_chores(
        self,
        key: PanelKey,
        answered: Option<ApprovalAnswer>,
    ) -> Seq<Chore> {
        match answered {
            Some(answer) => if self.asking() {
                seq![
                    if key == PanelKey::Cancel {
                        Chore::Interrupt
                    } else {
                        Chore::Send(TurnControl::Answer(answer))
                    },
                    Chore::Refit,
                ]
            } else {
                Seq::empty()
            },
            None => Seq::empty(),
        }
    }

    /// The session once a menu has made something of a key.
    pub open spec fn picked(self, outcome: PickerOutcome) -> Session {
        match outcome {
            PickerOutcome::Changed => self.asks(Reason::Modal),
            PickerOutcome::Complete => self.edits(),
            PickerOutcome::Dismiss => self.dismisses(),
        }
    }

    /// The session once the draft has been thrown away, where there was one.
    pub open spec fn clears(self, empty: bool) -> Session {
        if empty {
            self
        } else {
            self.edits()
        }
    }

    /// The session once a Ctrl-C has been answered.
    pub open spec fn interrupted(
        self,
        meaning: Interrupt,
        notice: Seq<char>,
        queued: nat,
        empty: bool,
    ) -> Session {
        match meaning {
            Interrupt::Cancel => if queued > 0 {
                self.interjects(notice).interjects(QUEUE_DROPPED@)
            } else {
                self.interjects(notice)
            },
            Interrupt::Clear => self.clears(empty),
            Interrupt::Leave => self.leaves(Leaving::Interrupted),
        }
    }

    /// The session once a key that is its own has been answered.
    pub open spec fn acts(self, action: Action, empty: bool) -> Session {
        match action {
            Action::Eof => if empty {
                self.leaves(Leaving::Quit)
            } else {
                self.edits()
            },
            Action::Redraw => self.asks(Reason::ExternalDamage),
            _ => if is_move(action) {
                self.moves()
            } else if is_edit(action) {
                self.edits()
            } else {
                self
            },
        }
    }

    /// The session once a step through what was submitted has come to this.
    pub open spec fn recalls(self, recall: Recall) -> Session {
        match recall {
            Recall::Nothing => self,
            Recall::Kept { short } => self.noted(short),
            Recall::Taken { short } => self.noted(short).edits(),
        }
    }

    /// The session once it has been noted that a block could not be numbered.
    pub open spec fn noted(self, short: bool) -> Session {
        if short {
            Session { notice: Some(Refusal::RecallNumber), ..self }
        } else {
            self
        }
    }
}

/// What throwing the draft away owes, where there is one.
pub open spec fn clear_chores(empty: bool) -> Seq<Chore> {
    if empty {
        Seq::empty()
    } else {
        seq![Chore::TakeDraft] + amended_chores()
    }
}

/// What a Ctrl-C owes. A cancellation quotes how many submissions there have
/// been, so that it does not reach past the key.
pub open spec fn interrupt_chores(meaning: Interrupt, accepted: usize, empty: bool) -> Seq<Chore> {
    (match meaning {
        Interrupt::Cancel => seq![Chore::Send(TurnControl::Cancel { through: accepted })],
        Interrupt::Clear => clear_chores(empty),
        Interrupt::Leave => Seq::empty(),
    }).push(Chore::SettleBand)
}

/// What a key that is the session's own owes.
pub open spec fn act_chores(action: Action, empty: bool) -> Seq<Chore> {
    match action {
        Action::Up => seq![Chore::Apply(action), Chore::Climb(HistoryStep::Previous)],
        Action::Down => seq![Chore::Apply(action), Chore::Climb(HistoryStep::Next)],
        Action::InsertNewline => seq![Chore::Type('\n')],
        Action::Submit => seq![Chore::Submit],
        Action::Cancel => seq![Chore::Interrupt],
        Action::Escape => seq![Chore::Escape],
        Action::Eof => if empty {
            Seq::empty()
        } else {
            seq![Chore::Apply(Action::Delete)] + amended_chores()
        },
        Action::PasteStart => seq![Chore::BeginPaste],
        Action::PasteEnd => seq![Chore::FinishPaste],
        Action::HistoryPrevious => seq![Chore::Recall(HistoryStep::Previous)],
        Action::HistoryNext => seq![Chore::Recall(HistoryStep::Next)],
        _ => if is_move(action) {
            seq![Chore::Apply(action)] + moved_chores()
        } else if is_edit(action) {
            seq![Chore::Apply(action)] + amended_chores()
        } else {
            Seq::empty()
        },
    }
}

/// What a step through what was submitted owes.
pub open spec fn recall_chores(recall: Recall) -> Seq<Chore> {
    match recall {
        Recall::Nothing => Seq::empty(),
        Recall::Kept { .. } => seq![Chore::LeaveWalk],
        Recall::Taken { .. } => moved_chores(),
    }
}

impl Session {
    /// The session once a paste has come to this.
    pub open spec fn pastes(self, pasted: Pasted) -> Session {
        match pasted {
            Pasted::Refused(refusal) => Session { notice: Some(refusal), ..self }.asks(
                Reason::Footer,
            ),
            Pasted::Inline { empty, inserted } => self.types(!empty && inserted),
            Pasted::Collapsed { before, after, entity } => match entity {
                Some(span) => Session {
                    transaction: Some(EditTransaction::InsertPaste { before, after, entity: span }),
                    ..self.edits()
                },
                None => self,
            },
        }
    }

    /// The session once a character was typed, where the composer took it.
    pub open spec fn types(self, taken: bool) -> Session {
        if taken {
            self.edits()
        } else {
            self
        }
    }

    /// The session once an Escape has been answered.
    pub open spec fn escapes(self, meaning: Escape, empty: bool) -> Session {
        match meaning {
            Escape::Armed => self,
            Escape::Clear => self.clears(empty),
        }
    }

    /// The session once a vertical move has come to this.
    pub open spec fn climbs(self, row_changed: bool, recall: Recall) -> Session {
        if row_changed {
            self.moves()
        } else if recall is Taken {
            self.recalls(recall)
        } else {
            self.recalls(recall).moves()
        }
    }
}

/// What a paste owes.
pub open spec fn paste_chores(pasted: Pasted) -> Seq<Chore> {
    match pasted {
        Pasted::Refused(_) => Seq::empty(),
        Pasted::Inline { empty, inserted } => type_chores(!empty && inserted),
        Pasted::Collapsed { before, after, entity } => type_chores(entity is Some),
    }
}

/// What a typed character owes.
pub open spec fn type_chores(taken: bool) -> Seq<Chore> {
    if taken {
        amended_chores()
    } else {
        Seq::empty()
    }
}

/// What an Escape owes.
pub open spec fn escape_chores(meaning: Escape, empty: bool) -> Seq<Chore> {
    (match meaning {
        Escape::Armed => Seq::empty(),
        Escape::Clear => clear_chores(empty),
    }).push(Chore::SettleBand)
}

/// What a vertical move owes.
pub open spec fn climb_chores(row_changed: bool, recall: Recall) -> Seq<Chore> {
    if row_changed {
        moved_chores()
    } else if recall is Taken {
        recall_chores(recall)
    } else {
        recall_chores(recall) + moved_chores()
    }
}

/// Whether a key that the menu was offered goes no further.
pub open spec fn picker_keeps(action: Action, outcome: PickerOutcome) -> bool {
    outcome != PickerOutcome::Dismiss || action == Action::Escape
}

/// What a key that the menu was offered owes.
pub open spec fn picker_chores(outcome: PickerOutcome) -> Seq<Chore> {
    match outcome {
        PickerOutcome::Changed => Seq::empty(),
        PickerOutcome::Complete => seq![
            Chore::TakeDraft,
            Chore::InsertCompletion,
            Chore::RememberDismissal,
        ] + amended_chores(),
        PickerOutcome::Dismiss => dismissed_chores(true),
    }
}

/// Whether a menu is open once the draft has been looked at.
pub open spec fn menu_after(menu: bool, allowed: bool, same: bool, opens: bool) -> bool {
    allowed && if menu && same {
        true
    } else {
        opens
    }
}

/// The phase of the blink once the animation turned, or did not.
pub open spec fn next_phase(phase: u8, turned: bool, phases: u8) -> u8 {
    if turned {
        ((phase + 1) % (phases as int)) as u8
    } else {
        phase
    }
}

/// What the activity row's clock is told.
pub open spec fn clock_chores(working: bool, started: bool, asking: bool) -> Seq<Chore> {
    (if working && !started {
        seq![Chore::BeginClock]
    } else {
        Seq::empty()
    }).push(
        if asking {
            Chore::FreezeClock
        } else {
            Chore::ThawClock
        },
    )
}

/// What a process exits with.
pub open spec fn exit_code_of(leaving: Option<Leaving>) -> u8 {
    if leaving == Some(Leaving::Interrupted) {
        INTERRUPTED_EXIT_CODE
    } else {
        0
    }
}

impl Shell {
    /// Whether a question is in front of the user, on either plane.
    pub fn asking(&self) -> (yes: bool)
        ensures
            yes == self@.asking(),
    {
        self.panel || self.alternate
    }

    /// Which plane the session composes frames for.
    pub fn screen_owner(&self) -> (owner: ScreenOwner)
        ensures
            owner == self@.owner,
    {
        self.owner
    }

    /// What is in the band's elastic rows, if anything.
    pub fn slot(&self) -> (slot: Option<Slot>)
        ensures
            slot == self@.slot(),
    {
        if self.panel {
            Some(Slot::Question)
        } else if self.menu {
            Some(Slot::Menu)
        } else {
            None
        }
    }

    /// Gives the plane back without answering the question on it, for a session
    /// that comes down with a question up.
    pub fn release_screen(&mut self)
        requires
            old(self).well_formed(),
        ensures
            final(self)@ == (Session {
                alternate: false,
                owner: ScreenOwner::Primary,
                ..old(self)@
            }),
            final(self).well_formed(),
    {
        self.alternate = false;
        self.owner = ScreenOwner::Primary;
    }

    /// Who a key is for.
    pub fn consume(&self, input: Input) -> (route: Route)
        ensures
            route == self@.routes(input),
    {
        if self.asking() {
            return Route::Question;
        }
        match input {
            Input::Text(c) => Route::Type(c),
            Input::PasteByte(byte) => Route::Paste(byte),
            Input::Action(action) => {
                let bound: bool = match action {
                    Action::Up | Action::Down | Action::Tab | Action::Submit | Action::Escape => {
                        true
                    },
                    _ => false,
                };
                if self.menu && bound {
                    Route::Menu(action)
                } else {
                    Route::Act(action)
                }
            },
        }
    }

    /// What the question that is up makes of a key. Every key is its own: one
    /// it does not bind is swallowed.
    pub fn put_to_question(&mut self, input: Input) -> (asks: Asks)
        requires
            old(self).well_formed(),
        ensures
            asks == question_key(input, old(self)@.alternate),
            final(self)@ == old(self)@.keyed(input),
            final(self).well_formed(),
    {
        let asks: Asks = match input {
            Input::Text(c) => Asks::Key(PanelKey::Text(c)),
            Input::PasteByte(_) => Asks::Nothing,
            Input::Action(action) => match action {
                Action::HistoryPrevious => if self.alternate {
                    Asks::Scroll { back: true }
                } else {
                    Asks::Nothing
                },
                Action::HistoryNext => if self.alternate {
                    Asks::Scroll { back: false }
                } else {
                    Asks::Nothing
                },
                Action::Up => Asks::Key(PanelKey::Up),
                Action::Down => Asks::Key(PanelKey::Down),
                Action::Tab => Asks::Key(PanelKey::Tab),
                Action::Submit => Asks::Key(PanelKey::Submit),
                Action::Escape => Asks::Key(PanelKey::Escape),
                Action::Cancel => Asks::Key(PanelKey::Cancel),
                _ => Asks::Nothing,
            },
        };
        match asks {
            Asks::Scroll { .. } => self.request(Reason::Modal),
            _ => {
                if input == Input::Action(Action::Redraw) {
                    self.request(Reason::ExternalDamage);
                }
            },
        }
        asks
    }

    /// What follows from the question's own word on a key: an answer, or none
    /// yet.
    ///
    /// With an answer the question is gone before anything is sent, and the
    /// plane goes back with it, however it was answered. A Ctrl-C stops the
    /// turn, which refuses the question on its way; every other answer is about
    /// this question and nothing more. Where no question is up there is nothing
    /// to answer.
    pub fn decide(&mut self, key: PanelKey, answered: Option<ApprovalAnswer>) -> (chores: Vec<
        Chore,
    >)
        requires
            old(self).well_formed(),
        ensures
            final(self)@ == old(self)@.decided(answered),
            chores@ == old(self)@.decision_chores(key, answered),
            final(self).well_formed(),
    {
        let mut chores: Vec<Chore> = Vec::new();
        if !self.asking() {
            proof {
                assert(chores@ =~= old(self)@.decision_chores(key, answered));
            }
            return chores;
        }
        match answered {
            None => {},
            Some(answer) => {
                self.panel = false;
                self.alternate = false;
                self.owner = ScreenOwner::Primary;
                if key == PanelKey::Cancel {
                    chores.push(Chore::Interrupt);
                } else {
                    chores.push(Chore::Send(TurnControl::Answer(answer)));
                }
                chores.push(Chore::Refit);
            },
        }
        self.request(Reason::Modal);
        proof {
            assert(chores@ =~= old(self)@.decision_chores(key, answered));
        }
        chores
    }

    /// What any touch of the composer owes: a frame, the menu the draft asks
    /// for, and a band the right height, in that order.
    pub fn moved(&mut self) -> (chores: Vec<Chore>)
        requires
            old(self).well_formed(),
        ensures
            final(self)@ == old(self)@.moves(),
            chores@ == moved_chores(),
            final(self).well_formed(),
    {
        let mut chores: Vec<Chore> = Vec::new();
        chores.push(Chore::ReconcileMenu);
        chores.push(Chore::Refit);
        self.request(Reason::Footer);
        proof {
            assert(chores@ =~= moved_chores());
        }
        chores
    }

    /// What a change of the composer's text owes besides: the boundary an undo
    /// would stop at.
    pub fn edited(&mut self) -> (chores: Vec<Chore>)
        requires
            old(self).well_formed(),
        ensures
            final(self)@ == old(self)@.edits(),
            chores@ == moved_chores(),
            final(self).well_formed(),
    {
        self.transaction.record(EditTransaction::Other);
        self.moved()
    }

    /// What a change of the composer's text owes that the user made: it ends
    /// the walk through what was submitted.
    pub fn amended(&mut self) -> (chores: Vec<Chore>)
        requires
            old(self).well_formed(),
        ensures
            final(self)@ == old(self)@.edits(),
            chores@ == amended_chores(),
            final(self).well_formed(),
    {
        let mut chores: Vec<Chore> = Vec::new();
        chores.push(Chore::LeaveWalk);
        let mut more: Vec<Chore> = self.edited();
        chores.append(&mut more);
        proof {
            assert(chores@ =~= amended_chores());
        }
        chores
    }

    /// What a key came to that the open menu was offered: whether the menu took
    /// it, and what that owes. Return closes the menu and goes on to mean what
    /// it means everywhere else.
    pub fn offer_to_picker(&mut self, action: Action, outcome: PickerOutcome) -> (offered: (
        bool,
        Vec<Chore>,
    ))
        requires
            old(self).well_formed(),
            old(self)@.menu,
            menu_binds(action),
        ensures
            offered.0 == picker_keeps(action, outcome),
            offered.1@ == picker_chores(outcome),
            final(self)@ == old(self)@.picked(outcome),
            offered.0 == (outcome != PickerOutcome::Dismiss || action == Action::Escape),
            offered.1@ == (match outcome {
                PickerOutcome::Changed => Seq::empty(),
                PickerOutcome::Complete => seq![
                    Chore::TakeDraft,
                    Chore::InsertCompletion,
                    Chore::RememberDismissal,
                ] + amended_chores(),
                PickerOutcome::Dismiss => dismissed_chores(true),
            }),
            final(self).well_formed(),
    {
        match outcome {
            PickerOutcome::Changed => {
                self.request(Reason::Modal);
                (true, Vec::new())
            },
            PickerOutcome::Complete => {
                let mut chores: Vec<Chore> = Vec::new();
                chores.push(Chore::TakeDraft);
                chores.push(Chore::InsertCompletion);
                chores.push(Chore::RememberDismissal);
                let mut more: Vec<Chore> = self.amended();
                chores.append(&mut more);
                proof {
                    assert(chores@ =~= seq![
                        Chore::TakeDraft,
                        Chore::InsertCompletion,
                        Chore::RememberDismissal,
                    ] + amended_chores());
                }
                (true, chores)
            },
            PickerOutcome::Dismiss => {
                let chores: Vec<Chore> = self.dismiss_picker();
                (action == Action::Escape, chores)
            },
        }
    }

    /// Settles what menu the draft asks for. One the user closed stays closed
    /// while its trigger stands; one whose query did not change is left as it
    /// is, mark and all; any other is opened where the draft has one.
    pub fn reconcile_picker(&mut self, allowed: bool, same: bool, opens: bool)
        requires
            old(self).well_formed(),
            !old(self)@.asking(),
        ensures
            final(self)@.menu == menu_after(old(self)@.menu, allowed, same, opens),
            final(self)@ == (Session {
                menu: allowed && if old(self)@.menu && same {
                    true
                } else {
                    opens
                },
                ..old(self)@
            }),
            final(self).well_formed(),
    {
        if !allowed {
            self.menu = false;
        } else if !(self.menu && same) {
            self.menu = opens;
        }
    }

    /// Throws the draft away, if there is one.
    pub fn clear_composer(&mut self, empty: bool) -> (chores: Vec<Chore>)
        requires
            old(self).well_formed(),
        ensures
            final(self)@ == old(self)@.clears(empty),
            chores@ == clear_chores(empty),
            final(self).well_formed(),
    {
        let mut chores: Vec<Chore> = Vec::new();
        if !empty {
            chores.push(Chore::TakeDraft);
            let mut more: Vec<Chore> = self.amended();
            chores.append(&mut more);
        }
        proof {
            assert(chores@ =~= clear_chores(empty));
        }
        chores
    }

    fn announce(&mut self, notice: &str, dropped: bool)
        requires
            old(self).well_formed(),
        ensures
            final(self)@ == (if dropped {
                old(self)@.interjects(notice@).interjects(QUEUE_DROPPED@)
            } else {
                old(self)@.interjects(notice@)
            }),
            final(self).well_formed(),
    {
        self.interject(notice);
        if dropped {
            self.interject(QUEUE_DROPPED);
        }
    }

    /// Answers a Ctrl-C. `notice` is what the document says of a turn that is
    /// being stopped; it, and the word on what was queued, are written at once,
    /// because they answer the key rather than the turn.
    pub fn interrupt(
        &mut self,
        meaning: Interrupt,
        notice: &str,
        work: &Backlog,
        empty: bool,
    ) -> (chores: Vec<Chore>)
        requires
            old(self).well_formed(),
        ensures
            final(self)@ == old(self)@.interrupted(meaning, notice@, work@.queued(), empty),
            chores@ == interrupt_chores(meaning, work@.accepted as usize, empty),
            final(self).well_formed(),
    {
        let mut chores: Vec<Chore> = Vec::new();
        match meaning {
            Interrupt::Cancel => {
                chores.push(Chore::Send(TurnControl::Cancel { through: work.accepted() }));
                self.announce(notice, work.queued() > 0);
            },
            Interrupt::Clear => {
                chores = self.clear_composer(empty);
            },
            Interrupt::Leave => self.leave_by(Leaving::Interrupted),
        }
        chores.push(Chore::SettleBand);
        proof {
            assert(chores@ =~= interrupt_chores(meaning, work@.accepted as usize, empty));
        }
        chores
    }

    /// Answers an Escape: a lone one changes nothing but the warning about the
    /// second, which clears the composer.
    pub fn escape(&mut self, meaning: Escape, empty: bool) -> (chores: Vec<Chore>)
        requires
            old(self).well_formed(),
        ensures
            final(self)@ == old(self)@.escapes(meaning, empty),
            chores@ == escape_chores(meaning, empty),
            final(self)@ == (match meaning {
                Escape::Armed => old(self)@,
                Escape::Clear => old(self)@.clears(empty),
            }),
            chores@ == (match meaning {
                Escape::Armed => Seq::empty(),
                Escape::Clear => clear_chores(empty),
            }).push(Chore::SettleBand),
            final(self).well_formed(),
    {
        let mut chores: Vec<Chore> = match meaning {
            Escape::Armed => Vec::new(),
            Escape::Clear => self.clear_composer(empty),
        };
        chores.push(Chore::SettleBand);
        chores
    }

    fn applies(&mut self, action: Action, edit: bool) -> (chores: Vec<Chore>)
        requires
            old(self).well_formed(),
        ensures
            final(self)@ == (if edit {
                old(self)@.edits()
            } else {
                old(self)@.moves()
            }),
            chores@ == seq![Chore::Apply(action)] + if edit {
                amended_chores()
            } else {
                moved_chores()
            },
            final(self).well_formed(),
    {
        let mut chores: Vec<Chore> = Vec::new();
        chores.push(Chore::Apply(action));
        let mut more: Vec<Chore> = if edit {
            self.amended()
        } else {
            self.moved()
        };
        chores.append(&mut more);
        proof {
            assert(chores@ =~= seq![Chore::Apply(action)] + if edit {
                amended_chores()
            } else {
                moved_chores()
            });
        }
        chores
    }

    /// Answers a key that is the session's own. `empty` says whether the
    /// composer holds nothing: Ctrl-D leaves only then, and is a forward delete
    /// over text.
    pub fn act(&mut self, action: Action, empty: bool) -> (chores: Vec<Chore>)
        requires
            old(self).well_formed(),
        ensures
            final(self)@ == old(self)@.acts(action, empty),
            chores@ == act_chores(action, empty),
            final(self).well_formed(),
    {
        match action {
            Action::Left | Action::Right | Action::Home | Action::End | Action::WordLeft
            | Action::WordRight => self.applies(action, false),
            Action::Backspace | Action::Delete | Action::DeleteWordLeft | Action::KillToEnd
            | Action::KillToStart => self.applies(action, true),
            Action::Eof => {
                if empty {
                    self.leave_by(Leaving::Quit);
                    Vec::new()
                } else {
                    self.applies(Action::Delete, true)
                }
            },
            Action::Redraw => {
                self.request(Reason::ExternalDamage);
                Vec::new()
            },
            _ => handed_on(action),
        }
    }

    /// What a step through what was submitted came to, and whether the composer
    /// holds another line because of it.
    #[verifier::spinoff_prover]
    pub fn recall(&mut self, recall: Recall) -> (recalled: (bool, Vec<Chore>))
        requires
            old(self).well_formed(),
        ensures
            final(self)@ == old(self)@.recalls(recall),
            recalled.0 == recall is Taken,
            recalled.1@ == recall_chores(recall),
            final(self).well_formed(),
    {
        match recall {
            Recall::Nothing => (false, Vec::new()),
            Recall::Kept { short } => (false, self.recall_kept(short)),
            Recall::Taken { short } => (true, self.recall_taken(short)),
        }
    }

    /// A step that kept the draft leaves the walk.
    fn recall_kept(&mut self, short: bool) -> (chores: Vec<Chore>)
        requires
            old(self).well_formed(),
        ensures
            final(self)@ == old(self)@.noted(short),
            chores@ == seq![Chore::LeaveWalk],
            final(self).well_formed(),
    {
        self.note_numbers(short);
        let mut chores: Vec<Chore> = Vec::new();
        chores.push(Chore::LeaveWalk);
        assert(chores@ =~= seq![Chore::LeaveWalk]);
        chores
    }

    /// A step that put another line into the composer is an edit of it.
    fn recall_taken(&mut self, short: bool) -> (chores: Vec<Chore>)
        requires
            old(self).well_formed(),
        ensures
            final(self)@ == old(self)@.noted(short).edits(),
            chores@ == moved_chores(),
            final(self).well_formed(),
    {
        self.note_numbers(short);
        self.edited()
    }

    fn note_numbers(&mut self, short: bool)
        requires
            old(self).well_formed(),
        ensures
            final(self)@ == old(self)@.noted(short),
            final(self).well_formed(),
    {
        if short {
            self.notice = Some(Refusal::RecallNumber);
        }
    }

    /// What a vertical move came to. A caret that changed rows has moved; one
    /// that had nowhere to go is a step through what was submitted; and one that
    /// stepped nowhere still owes a frame, because the key was applied.
    pub fn climbed(&mut self, row_changed: bool, recall: Recall) -> (chores: Vec<Chore>)
        requires
            old(self).well_formed(),
        ensures
            final(self)@ == old(self)@.climbs(row_changed, recall),
            chores@ == climb_chores(row_changed, recall),
            final(self)@ == (if row_changed {
                old(self)@.moves()
            } else if recall is Taken {
                old(self)@.recalls(recall)
            } else {
                old(self)@.recalls(recall).moves()
            }),
            chores@ == (if row_changed {
                moved_chores()
            } else if recall is Taken {
                recall_chores(recall)
            } else {
                recall_chores(recall) + moved_chores()
            }),
            final(self).well_formed(),
    {
        if row_changed {
            return self.moved();
        }
        let (recalled, mut chores) = self.recall(recall);
        if !recalled {
            let mut more: Vec<Chore> = self.moved();
            chores.append(&mut more);
            proof {
                assert(chores@ =~= recall_chores(recall) + moved_chores());
            }
        }
        chores
    }

    /// What a typed character came to: `fits` says whether the prompt's budget
    /// had room for it, and `inserted` whether the composer took it. One that
    /// was refused changes nothing and says nothing.
    pub fn type_character(&mut self, fits: bool, inserted: bool) -> (chores: Vec<Chore>)
        requires
            old(self).well_formed(),
        ensures
            final(self)@ == old(self)@.types(fits && inserted),
            chores@ == type_chores(fits && inserted),
            final(self)@ == (if fits && inserted {
                old(self)@.edits()
            } else {
                old(self)@
            }),
            chores@ == (if fits && inserted {
                amended_chores()
            } else {
                Seq::empty()
            }),
            final(self).well_formed(),
    {
        if fits && inserted {
            self.amended()
        } else {
            Vec::new()
        }
    }

    /// What a paste came to. One that was refused leaves the composer alone and
    /// says why on the hint row; one that collapsed into a block is one
    /// transaction, whatever it weighed.
    pub fn pasted(&mut self, pasted: Pasted) -> (chores: Vec<Chore>)
        requires
            old(self).well_formed(),
        ensures
            final(self)@ == old(self)@.pastes(pasted),
            chores@ == paste_chores(pasted),
            match pasted {
                Pasted::Refused(refusal) => {
                    &&& final(self)@ == (Session {
                        notice: Some(refusal),
                        ..old(self)@
                    }).asks(Reason::Footer)
                    &&& chores@ == Seq::<Chore>::empty()
                },
                Pasted::Inline { empty, inserted } => if !empty && inserted {
                    &&& final(self)@ == old(self)@.edits()
                    &&& chores@ == amended_chores()
                } else {
                    &&& final(self)@ == old(self)@
                    &&& chores@ == Seq::<Chore>::empty()
                },
                Pasted::Collapsed { before, after, entity } => match entity {
                    Some(span) => {
                        &&& final(self)@ == (Session {
                            transaction: Some(
                                EditTransaction::InsertPaste { before, after, entity: span },
                            ),
                            ..old(self)@.edits()
                        })
                        &&& chores@ == amended_chores()
                    },
                    None => {
                        &&& final(self)@ == old(self)@
                        &&& chores@ == Seq::<Chore>::empty()
                    },
                },
            },
            final(self).well_formed(),
    {
        match pasted {
            Pasted::Refused(refusal) => {
                self.notice = Some(refusal);
                self.request(Reason::Footer);
                Vec::new()
            },
            Pasted::Inline { empty, inserted } => {
                if !empty && inserted {
                    self.amended()
                } else {
                    Vec::new()
                }
            },
            Pasted::Collapsed { before, after, entity } => match entity {
                Some(span) => {
                    let chores: Vec<Chore> = self.amended();
                    // Behind the edit, which records an ordinary one.
                    self.transaction.record(
                        EditTransaction::InsertPaste { before, after, entity: span },
                    );
                    chores
                },
                None => Vec::new(),
            },
        }
    }
}

/// What a key owes that the session hands on without a change of its own.
fn handed_on(action: Action) -> (chores: Vec<Chore>)
    requires
        !is_move(action),
        !is_edit(action),
        action != Action::Eof,
    ensures
        chores@ == act_chores(action, true),
        chores@ == act_chores(action, false),
{
    let mut chores: Vec<Chore> = Vec::new();
    match action {
        Action::Up => {
            chores.push(Chore::Apply(action));
            chores.push(Chore::Climb(HistoryStep::Previous));
        },
        Action::Down => {
            chores.push(Chore::Apply(action));
            chores.push(Chore::Climb(HistoryStep::Next));
        },
        Action::InsertNewline => chores.push(Chore::Type('\n')),
        Action::Submit => chores.push(Chore::Submit),
        Action::Cancel => chores.push(Chore::Interrupt),
        Action::Escape => chores.push(Chore::Escape),
        Action::PasteStart => chores.push(Chore::BeginPaste),
        Action::PasteEnd => chores.push(Chore::FinishPaste),
        Action::HistoryPrevious => chores.push(Chore::Recall(HistoryStep::Previous)),
        Action::HistoryNext => chores.push(Chore::Recall(HistoryStep::Next)),
        _ => {},
    }
    proof {
        assert(chores@ =~= act_chores(action, true));
        assert(chores@ =~= act_chores(action, false));
    }
    chores
}

/// However a question is answered, it is gone and its plane is given back; and
/// while it is not, it stands where it stood.
pub proof fn law_an_answer_gives_the_plane_back(session: Session, answer: ApprovalAnswer)
    requires
        session.settled(),
        session.asking(),
    ensures
        ({
            let after = session.decided(Some(answer));
            &&& !after.asking()
            &&& after.owner == ScreenOwner::Primary
            &&& after.settled()
        }),
        session.decided(None).panel == session.panel,
        session.decided(None).alternate == session.alternate,
        session.decided(None).owner == session.owner,
{
}

/// While a question is up, no key reaches the composer or the session.
pub proof fn law_a_question_has_the_focus(session: Session, input: Input)
    requires
        session.asking(),
    ensures
        session.routes(input) == Route::Question,
        session.keyed(input).leaving == session.leaving,
        session.keyed(input).transaction == session.transaction,
{
}

/// A caret move leaves the boundary of the last edit where it was; every change
/// of the text overwrites it.
pub proof fn law_a_move_is_not_an_edit(session: Session)
    ensures
        session.moves().transaction == session.transaction,
        session.edits().transaction == Some(EditTransaction::Other),
{
}

/// What a submitted line is.
#[derive(Debug, Clone, PartialEq, Eq)]
pub enum Submitted {
    /// Whitespace and nothing else.
    Blank,
    /// A command.
    Command,
    /// A line that begins like a command and names none, and what is said of
    /// it.
    UnknownCommand { refusal: String },
    /// A prompt, without the whitespace around it.
    Prompt(String),
}

/// How many characters of whitespace a text begins with.
pub open spec fn lead(text: Seq<char>) -> nat {
    (text.len() - text::trimmed_front(text).len()) as nat
}

/// How many characters of whitespace a text ends with.
pub open spec fn trail(text: Seq<char>) -> nat {
    (text.len() - text::trimmed_back(text).len()) as nat
}

/// Whether `whole` is the draft `text` with its blocks put back: what it has
/// around the first and the last character that is not blank is the same.
pub open spec fn expands(text: Seq<char>, whole: Seq<char>) -> bool {
    &&& lead(text) + trail(text) <= whole.len()
    &&& whole.take(lead(text) as int) == text.take(lead(text) as int)
    &&& whole.skip(whole.len() - trail(text)) == text.skip(text.len() - trail(text))
}

/// The prompt a draft really sends: what the classifier made of the line, or
/// the whole draft with its blocks put back, cut as the classifier cut the
/// line.
pub open spec fn prompt_of(
    text: Seq<char>,
    classified: Seq<char>,
    expanded: Option<Seq<char>>,
) -> Seq<char> {
    match expanded {
        None => classified,
        Some(whole) => whole.subrange(lead(text) as int, whole.len() - trail(text)),
    }
}

/// What an optional text says.
pub open spec fn told(text: Option<&str>) -> Option<Seq<char>> {
    match text {
        Some(words) => Some(words@),
        None => None,
    }
}

proof fn lemma_trims(text: Seq<char>)
    ensures
        text::trimmed_front(text).len() <= text.len(),
        text::trimmed_back(text).len() <= text.len(),
    decreases text.len(),
{
    if text.len() > 0 {
        lemma_trims(text.skip(1));
        lemma_trims(text.drop_last());
    }
}

fn leading(chars: &[char]) -> (count: usize)
    ensures
        count == lead(chars@),
        count <= chars@.len(),
{
    let mut at: usize = 0;
    proof {
        assert(chars@.skip(0) =~= chars@);
    }
    while at < chars.len() && text::white(chars[at])
        invariant
            at <= chars@.len(),
            text::trimmed_front(chars@) == text::trimmed_front(chars@.skip(at as int)),
        decreases chars@.len() - at,
    {
        proof {
            assert(chars@.skip(at as int).skip(1) =~= chars@.skip(at + 1));
            assert(chars@.skip(at as int)[0] == chars@[at as int]);
        }
        at = at + 1;
    }
    proof {
        let rest = chars@.skip(at as int);
        if at < chars@.len() {
            assert(rest[0] == chars@[at as int]);
        }
        assert(text::trimmed_front(rest) == rest);
    }
    at
}

fn trailing(chars: &[char]) -> (count: usize)
    ensures
        count == trail(chars@),
        count <= chars@.len(),
{
    let mut kept: usize = chars.len();
    proof {
        assert(chars@.take(kept as int) =~= chars@);
    }
    while kept > 0 && text::white(chars[kept - 1])
        invariant
            kept <= chars@.len(),
            text::trimmed_back(chars@) == text::trimmed_back(chars@.take(kept as int)),
        decreases kept,
    {
        proof {
            assert(chars@.take(kept as int).drop_last() =~= chars@.take(kept - 1));
            assert(chars@.take(kept as int).last() == chars@[kept - 1]);
        }
        kept = kept - 1;
    }
    proof {
        let rest = chars@.take(kept as int);
        if kept > 0 {
            assert(rest.last() == chars@[kept - 1]);
        }
        assert(text::trimmed_back(rest) == rest);
    }
    chars.len() - kept
}

/// Whether `whole` can be the draft `text` with its blocks put back.
pub fn is_expansion(text: &str, whole: &str) -> (yes: bool)
    ensures
        yes == expands(text@, whole@),
{
    let chars: Vec<char> = text::characters(text);
    let all: Vec<char> = text::characters(whole);
    let first: usize = leading(chars.as_slice());
    let last: usize = trailing(chars.as_slice());
    if all.len() < first || all.len() - first < last {
        return false;
    }
    let from: usize = all.len() - last;
    let tail: usize = chars.len() - last;
    let mut at: usize = 0;
    while at < first
        invariant
            at <= first <= all@.len(),
            first <= chars@.len(),
            forall|i: int| 0 <= i < at ==> all@[i] == chars@[i],
            chars@ == text@,
            all@ == whole@,
            first == lead(text@),
        decreases first - at,
    {
        if all[at] != chars[at] {
            proof {
                assert(whole@.take(first as int)[at as int] != text@.take(first as int)[at as int]);
            }
            return false;
        }
        at = at + 1;
    }
    let mut back: usize = 0;
    while back < last
        invariant
            back <= last,
            from + last == all@.len() <= usize::MAX,
            tail + last == chars@.len() <= usize::MAX,
            forall|i: int|
                0 <= i < back ==> #[trigger] whole@.skip(from as int)[i] == text@.skip(
                    tail as int,
                )[i],
            chars@ == text@,
            all@ == whole@,
            last == trail(text@),
        decreases last - back,
    {
        if all[from + back] != chars[tail + back] {
            proof {
                assert(whole@.skip(from as int)[back as int] != text@.skip(
                    tail as int,
                )[back as int]);
            }
            return false;
        }
        back = back + 1;
    }
    proof {
        assert(whole@.take(first as int) =~= text@.take(first as int));
        assert(whole@.skip(from as int) =~= text@.skip(tail as int));
    }
    true
}

/// The prompt a draft really sends. `expanded` is the whole draft with its
/// blocks put back, where it holds any.
pub fn expanded_prompt(text: &str, classified: &str, expanded: Option<&str>) -> (prompt: String)
    requires
        expanded matches Some(whole) ==> expands(text@, whole@),
    ensures
        prompt@ == prompt_of(text@, classified@, told(expanded)),
{
    match expanded {
        None => classified.to_owned(),
        Some(whole) => {
            let chars: Vec<char> = text::characters(text);
            let all: Vec<char> = text::characters(whole);
            let first: usize = leading(chars.as_slice());
            let last: usize = all.len() - trailing(chars.as_slice());
            text::spell(vstd::slice::slice_subrange(all.as_slice(), first, last))
        },
    }
}

/// What a prompt sends is what was typed, without the whitespace around it,
/// where the draft holds no block: the expansion of such a draft is the draft.
pub proof fn law_a_draft_without_blocks_is_sent_as_it_is(text: Seq<char>)
    requires
        text::trimmed(text).len() > 0,
    ensures
        expands(text, text),
        prompt_of(text, text::trimmed(text), Some(text)) == text::trimmed(text),
{
    lemma_trims(text);
    lemma_trim_front(text);
    lemma_trim_both(text);
}

proof fn lemma_trim_front(text: Seq<char>)
    ensures
        text::trimmed_front(text) == text.skip(lead(text) as int),
        lead(text) <= text.len(),
        text::trimmed_back(text) == text.take(text.len() - trail(text)),
        trail(text) <= text.len(),
    decreases text.len(),
{
    lemma_trims(text);
    if text.len() > 0 {
        lemma_trim_front(text.skip(1));
        lemma_trim_front(text.drop_last());
        lemma_trims(text.skip(1));
        lemma_trims(text.drop_last());
        let rest = text.skip(1);
        let front = text.drop_last();
        if text::is_white(text[0]) {
            assert(rest.skip(lead(rest) as int) =~= text.skip(lead(text) as int));
        } else {
            assert(text.skip(0) =~= text);
        }
        if text::is_white(text.last()) {
            assert(front.take(front.len() - trail(front)) =~= text.take(
                text.len() - trail(text),
            ));
        } else {
            assert(text.take(text.len() as int) =~= text);
        }
    } else {
        assert(text.skip(0) =~= text);
        assert(text.take(0) =~= text);
    }
}

/// The whitespace at the end of what is left of a text is the whitespace at the
/// end of the text.
proof fn lemma_trail_of_rest(text: Seq<char>, from: int)
    requires
        0 <= from < text.len(),
        !text::is_white(text[from]),
    ensures
        trail(text.skip(from)) == trail(text),
        trail(text) < text.len() - from,
    decreases text.len(),
{
    lemma_trims(text);
    lemma_trims(text.skip(from));
    let rest = text.skip(from);
    assert(rest.last() == text.last());
    if text::is_white(text.last()) {
        assert(from < text.len() - 1);
        lemma_trail_of_rest(text.drop_last(), from);
        assert(rest.drop_last() =~= text.drop_last().skip(from));
        lemma_trims(text.drop_last());
        lemma_trims(rest.drop_last());
    }
}

proof fn lemma_first_dark(text: Seq<char>)
    requires
        text::trimmed_front(text).len() > 0,
    ensures
        lead(text) < text.len(),
        !text::is_white(text[lead(text) as int]),
    decreases text.len(),
{
    lemma_trims(text);
    if text.len() > 0 && text::is_white(text[0]) {
        lemma_first_dark(text.skip(1));
        lemma_trims(text.skip(1));
        assert(text[lead(text) as int] == text.skip(1)[lead(text.skip(1)) as int]);
    }
}

proof fn lemma_trim_both(text: Seq<char>)
    requires
        text::trimmed(text).len() > 0,
    ensures
        lead(text) + trail(text) < text.len(),
        text::trimmed(text) == text.subrange(lead(text) as int, text.len() - trail(text)),
{
    lemma_trims(text);
    lemma_trim_front(text);
    let front = text::trimmed_front(text);
    lemma_trim_front(front);
    lemma_trims(front);
    lemma_first_dark(text);
    lemma_trail_of_rest(text, lead(text) as int);
    assert(text::trimmed(text) =~= text.subrange(lead(text) as int, text.len() - trail(text)));
}

impl Session {
    /// The session once a prompt has been offered: the draft is gone and the
    /// line in the document, or the refusal is shown and the draft kept.
    pub open spec fn sends(self, refusal: Option<Rejected>, text: Seq<char>) -> Session {
        match refusal {
            None => self.edits().says(text),
            Some(why) => self.refuses(why),
        }
    }

    /// The session once the list of models has been asked for.
    pub open spec fn reports(self, refusal: Option<Rejected>) -> Session {
        let told = self.says(
            "[shell] model="@ + self.model + " provider="@ + self.provider.name(),
        );
        match refusal {
            None => told,
            Some(why) => told.refuses(why),
        }
    }

    /// The session once another model has been asked for.
    pub open spec fn changes_model(self, refusal: Option<Rejected>, model: Seq<char>) -> Session {
        match refusal {
            None => Session { model, ..self }.says("[shell] model="@ + model),
            Some(why) => self.refuses(why),
        }
    }

    /// The session once a fresh conversation has been asked for. The count of
    /// the old one goes with it; the model's window does not.
    pub open spec fn starts_afresh(self, refusal: Option<Rejected>) -> Session {
        match refusal {
            None => Session { context_used: None, ..self }.asks(Reason::Footer).says(
                NEW_SESSION_NOTICE@,
            ),
            Some(why) => self.refuses(why),
        }
    }

    /// The session once another provider has been asked for.
    pub open spec fn sets_up(self, refusal: Option<Rejected>, provider: ProviderId) -> Session {
        match refusal {
            None => self.says("[shell] setting up "@ + provider.name()),
            Some(why) => self.refuses(why),
        }
    }

    /// The session once the screen has been cleared: what was owed, what was
    /// ahead and the line that had begun are gone, and one line is left.
    pub open spec fn cleared(self) -> Session {
        Session {
            script: Script {
                paper: Paper {
                    unfinished: Unfinished {
                        cols: self.geometry.cols,
                        tail: Seq::empty(),
                        painted: 0,
                        split_crlf: false,
                    },
                    owed: Seq::empty(),
                    frame: self.script.paper.frame,
                },
                held: Seq::empty(),
                tail: Seq::empty(),
                enqueued: self.script.enqueued,
            },
            clearing: true,
            ..self
        }.asks(Reason::ExternalDamage).says(CLEARED_NOTICE@)
    }
}

/// What offering a prompt owes: the draft goes only where the prompt was taken.
pub open spec fn send_chores(refusal: Option<Rejected>) -> Seq<Chore> {
    match refusal {
        None => (seq![Chore::TakeDraft] + moved_chores()).push(Chore::Submitted),
        Some(_) => Seq::empty(),
    }
}

impl Session {
    /// The session once a line has been submitted.
    pub open spec fn submits(
        self,
        text: Seq<char>,
        submitted: Submitted,
        refusal: Option<Rejected>,
    ) -> Session {
        if text.len() == 0 {
            self
        } else {
            match submitted {
                Submitted::Blank => self.edits(),
                Submitted::Command => self.says(text).edits(),
                Submitted::UnknownCommand { refusal: words } => self.edits().says(text).says(
                    words@,
                ),
                Submitted::Prompt(_) => self.sends(refusal, text),
            }
        }
    }

    /// The session once the model has been asked about, or another asked for.
    pub open spec fn uses_model(
        self,
        argument: Seq<char>,
        problem: Option<Seq<char>>,
        refusal: Option<Rejected>,
    ) -> Session {
        if argument.len() == 0 {
            self.reports(refusal)
        } else if problem is Some {
            self.says("xfx: "@ + problem->0)
        } else if argument == self.model {
            self.says("[shell] model="@ + self.model + " unchanged"@)
        } else {
            self.changes_model(refusal, argument)
        }
    }

    /// What that leaves of the backlog.
    pub open spec fn model_work(
        self,
        held: worker::Held,
        argument: Seq<char>,
        problem: Option<Seq<char>>,
        gone: bool,
    ) -> worker::Held {
        if argument.len() == 0 {
            held.offered(Errand::Catalog, gone)
        } else if problem is Some || argument == self.model {
            held
        } else {
            held.offered(Errand::Model(argument), gone)
        }
    }

    /// The session once another provider has been named, or none.
    pub open spec fn uses_provider(
        self,
        named: Option<ProviderId>,
        usage: Seq<char>,
        refusal: Option<Rejected>,
    ) -> Session {
        match named {
            None => self.says(usage),
            Some(provider) => self.sets_up(refusal, provider),
        }
    }
}

/// What a submitted line owes.
pub open spec fn submit_chores(
    text: Seq<char>,
    submitted: Submitted,
    refusal: Option<Rejected>,
) -> Seq<Chore> {
    if text.len() == 0 {
        Seq::empty()
    } else {
        match submitted {
            Submitted::Blank => seq![Chore::LeaveWalk, Chore::TakeDraft] + moved_chores(),
            Submitted::Command => seq![Chore::RecordLine, Chore::TakeDraft] + moved_chores() + seq![
                Chore::Submitted,
                Chore::RunCommand,
            ],
            Submitted::UnknownCommand { .. } => seq![Chore::RecordLine, Chore::TakeDraft]
                + moved_chores(),
            Submitted::Prompt(_) => seq![Chore::RecordLine] + send_chores(refusal),
        }
    }
}

/// What a submitted line leaves of the backlog.
pub open spec fn submitted_work(
    held: worker::Held,
    text: Seq<char>,
    submitted: Submitted,
    expanded: Option<Seq<char>>,
    gone: bool,
) -> worker::Held {
    match submitted {
        Submitted::Prompt(prompt) => if text.len() == 0 {
            held
        } else {
            held.offered(Errand::Submit(prompt_of(text, prompt@, expanded)), gone)
        },
        _ => held,
    }
}

/// What naming a provider, or none, leaves of the backlog.
pub open spec fn provider_work(
    held: worker::Held,
    named: Option<ProviderId>,
    gone: bool,
) -> worker::Held {
    match named {
        None => held,
        Some(provider) => held.offered(Errand::Setup(provider), gone),
    }
}

impl Shell {
    /// What a submission costs that was not taken. A full queue is told on the
    /// hint row, beside the draft that was kept; a thread that is gone is told
    /// in the document.
    pub fn refused(&mut self, rejected: Rejected)
        requires
            old(self).well_formed(),
        ensures
            final(self)@ == old(self)@.refuses(rejected),
            final(self).well_formed(),
    {
        match rejected {
            Rejected::Busy => {
                self.notice = Some(Refusal::Queue);
                self.request(Reason::Footer);
            },
            Rejected::Gone => self.say(GONE_NOTICE),
        }
    }

    fn taken_draft(&mut self) -> (chores: Vec<Chore>)
        requires
            old(self).well_formed(),
        ensures
            final(self)@ == old(self)@.edits(),
            chores@ == seq![Chore::TakeDraft] + moved_chores(),
            final(self).well_formed(),
    {
        let mut chores: Vec<Chore> = Vec::new();
        chores.push(Chore::TakeDraft);
        let mut more: Vec<Chore> = self.edited();
        chores.append(&mut more);
        proof {
            assert(chores@ =~= seq![Chore::TakeDraft] + moved_chores());
        }
        chores
    }

    /// Offers a prompt to the other thread. The offer comes before the draft
    /// goes, so one that is refused throws nothing away.
    pub fn send(&mut self, prompt: String, text: &str, work: &mut Backlog, gone: bool) -> (chores:
        Vec<Chore>)
        requires
            old(self).well_formed(),
            old(work)@.well_formed(),
            old(work)@.accepted < usize::MAX,
        ensures
            final(self)@ == old(self)@.sends(old(work)@.refusal(gone), text@),
            chores@ == send_chores(old(work)@.refusal(gone)),
            final(work)@ == old(work)@.offered(Errand::Submit(prompt@), gone),
            final(work)@.well_formed(),
            final(self).well_formed(),
    {
        match work.submit(TurnWork::Submit(prompt), gone) {
            Ok(_) => {
                let mut chores: Vec<Chore> = self.taken_draft();
                self.say(text);
                chores.push(Chore::Submitted);
                chores
            },
            Err(rejected) => {
                self.refused(rejected);
                Vec::new()
            },
        }
    }

    /// What becomes of a submitted line. `text` is the draft, and `expanded`
    /// the draft with its blocks put back, where it holds any.
    ///
    /// Every line but a blank one is written down before it is consumed. A
    /// command and a line that names none are shown and consumed; neither
    /// becomes a prompt.
    pub fn submit(
        &mut self,
        text: &str,
        submitted: Submitted,
        expanded: Option<&str>,
        work: &mut Backlog,
        gone: bool,
    ) -> (chores: Vec<Chore>)
        requires
            old(self).well_formed(),
            old(work)@.well_formed(),
            old(work)@.accepted < usize::MAX,
            submitted is Prompt ==> (expanded matches Some(whole) ==> expands(text@, whole@)),
        ensures
            final(self).well_formed(),
            final(work)@.well_formed(),
            final(self)@ == old(self)@.submits(text@, submitted, old(work)@.refusal(gone)),
            chores@ == submit_chores(text@, submitted, old(work)@.refusal(gone)),
            final(work)@ == submitted_work(
                old(work)@,
                text@,
                submitted,
                told(expanded),
                gone,
            ),
            text@.len() == 0 ==> final(self)@ == old(self)@ && final(work)@ == old(work)@ && chores@
                == Seq::<Chore>::empty(),
            text@.len() > 0 ==> match submitted {
                Submitted::Blank => {
                    &&& final(self)@ == old(self)@.edits()
                    &&& final(work)@ == old(work)@
                    &&& chores@ == seq![Chore::LeaveWalk, Chore::TakeDraft] + moved_chores()
                },
                Submitted::Command => {
                    &&& final(self)@ == old(self)@.says(text@).edits()
                    &&& final(work)@ == old(work)@
                    &&& chores@ == seq![Chore::RecordLine, Chore::TakeDraft] + moved_chores() + seq![
                        Chore::Submitted,
                        Chore::RunCommand,
                    ]
                },
                Submitted::UnknownCommand { refusal } => {
                    &&& final(self)@ == old(self)@.edits().says(text@).says(refusal@)
                    &&& final(work)@ == old(work)@
                    &&& chores@ == seq![Chore::RecordLine, Chore::TakeDraft] + moved_chores()
                },
                Submitted::Prompt(prompt) => {
                    &&& final(self)@ == old(self)@.sends(old(work)@.refusal(gone), text@)
                    &&& final(work)@ == old(work)@.offered(
                        Errand::Submit(prompt_of(text@, prompt@, told(expanded))),
                        gone,
                    )
                    &&& chores@ == seq![Chore::RecordLine] + send_chores(old(work)@.refusal(gone))
                },
            },
    {
        let mut chores: Vec<Chore> = Vec::new();
        if text.is_empty() {
            return chores;
        }
        match submitted {
            Submitted::Blank => {
                chores.push(Chore::LeaveWalk);
                let mut more: Vec<Chore> = self.taken_draft();
                chores.append(&mut more);
                proof {
                    assert(chores@ =~= seq![Chore::LeaveWalk, Chore::TakeDraft] + moved_chores());
                }
            },
            Submitted::Command => {
                chores.push(Chore::RecordLine);
                self.say(text);
                let mut more: Vec<Chore> = self.taken_draft();
                chores.append(&mut more);
                chores.push(Chore::Submitted);
                chores.push(Chore::RunCommand);
                proof {
                    assert(chores@ =~= seq![Chore::RecordLine, Chore::TakeDraft] + moved_chores()
                        + seq![Chore::Submitted, Chore::RunCommand]);
                }
            },
            Submitted::UnknownCommand { refusal } => {
                chores.push(Chore::RecordLine);
                let mut more: Vec<Chore> = self.taken_draft();
                chores.append(&mut more);
                self.say(text);
                self.say(refusal.as_str());
                proof {
                    assert(chores@ =~= seq![Chore::RecordLine, Chore::TakeDraft] + moved_chores());
                }
            },
            Submitted::Prompt(prompt) => {
                chores.push(Chore::RecordLine);
                let whole: String = expanded_prompt(text, prompt.as_str(), expanded);
                let mut more: Vec<Chore> = self.send(whole, text, work, gone);
                chores.append(&mut more);
                proof {
                    assert(chores@ =~= seq![Chore::RecordLine] + send_chores(
                        old(work)@.refusal(gone),
                    ));
                }
            },
        }
        chores
    }

    /// Lists the commands.
    pub fn help(&mut self, lines: &[String])
        requires
            old(self).well_formed(),
        ensures
            final(self)@ == old(self)@.says_all(text::texts(lines@)),
            final(self).well_formed(),
    {
        self.say_all(lines);
    }

    /// Starts a fresh conversation with the next prompt. The count goes only
    /// once the offer was taken.
    pub fn new_session(&mut self, work: &mut Backlog, gone: bool)
        requires
            old(self).well_formed(),
            old(work)@.well_formed(),
            old(work)@.accepted < usize::MAX,
        ensures
            final(self)@ == old(self)@.starts_afresh(old(work)@.refusal(gone)),
            final(work)@ == old(work)@.offered(Errand::New, gone),
            final(work)@.well_formed(),
            final(self).well_formed(),
    {
        match work.submit(TurnWork::New, gone) {
            Err(rejected) => self.refused(rejected),
            Ok(_) => {
                self.context_used = None;
                self.request(Reason::Footer);
                self.say(NEW_SESSION_NOTICE);
            },
        }
    }

    /// Clears the screen, its scrollback, and what the session remembers of
    /// both. The conversation is kept.
    pub fn clear_screen(&mut self) -> (chores: Vec<Chore>)
        requires
            old(self).well_formed(),
        ensures
            final(self)@ == old(self)@.cleared(),
            chores@ == seq![Chore::ForgetPacing],
            final(self).well_formed(),
    {
        self.document.clear(self.geometry.cols);
        self.clearing = true;
        self.request(Reason::ExternalDamage);
        self.say(CLEARED_NOTICE);
        let mut chores: Vec<Chore> = Vec::new();
        chores.push(Chore::ForgetPacing);
        proof {
            assert(chores@ =~= seq![Chore::ForgetPacing]);
        }
        chores
    }

    fn say_model(&mut self, behind: &str)
        requires
            old(self).well_formed(),
        ensures
            final(self)@ == old(self)@.says("[shell] model="@ + old(self)@.model + behind@),
            final(self).well_formed(),
    {
        let mut line: String = "[shell] model=".to_owned();
        line.append(self.model.as_str());
        line.append(behind);
        self.say(line.as_str());
    }

    fn report_model(&mut self, work: &mut Backlog, gone: bool)
        requires
            old(self).well_formed(),
            old(work)@.well_formed(),
            old(work)@.accepted < usize::MAX,
        ensures
            final(self)@ == old(self)@.reports(old(work)@.refusal(gone)),
            final(work)@ == old(work)@.offered(Errand::Catalog, gone),
            final(work)@.well_formed(),
            final(self).well_formed(),
    {
        let mut behind: String = " provider=".to_owned();
        behind.append(self.provider.label());
        let ghost model = self@.model;
        let ghost name = self@.provider.name();
        self.say_model(behind.as_str());
        proof {
            assert("[shell] model="@ + model + (" provider="@ + name) =~= "[shell] model="@ + model
                + " provider="@ + name);
        }
        match work.submit(TurnWork::Catalog, gone) {
            Err(rejected) => self.refused(rejected),
            Ok(_) => {},
        }
    }

    fn change_model(&mut self, model: &str, work: &mut Backlog, gone: bool)
        requires
            old(self).well_formed(),
            old(work)@.well_formed(),
            old(work)@.accepted < usize::MAX,
        ensures
            final(self)@ == old(self)@.changes_model(old(work)@.refusal(gone), model@),
            final(work)@ == old(work)@.offered(Errand::Model(model@), gone),
            final(work)@.well_formed(),
            final(self).well_formed(),
    {
        match work.submit(TurnWork::Model(model.to_owned()), gone) {
            Err(rejected) => self.refused(rejected),
            Ok(_) => {
                self.model = model.to_owned();
                let mut line: String = "[shell] model=".to_owned();
                line.append(model);
                self.say(line.as_str());
            },
        }
    }

    /// Reports the model in force and asks for the list of models, or talks to
    /// another model from the next turn on. `problem` is what is wrong with the
    /// argument as a model's name; a name with a problem reaches nobody, and
    /// nothing of it is quoted back.
    pub fn use_model(
        &mut self,
        argument: &str,
        problem: Option<&str>,
        work: &mut Backlog,
        gone: bool,
    )
        requires
            old(self).well_formed(),
            old(work)@.well_formed(),
            old(work)@.accepted < usize::MAX,
        ensures
            final(self).well_formed(),
            final(work)@.well_formed(),
            final(self)@ == old(self)@.uses_model(
                argument@,
                told(problem),
                old(work)@.refusal(gone),
            ),
            final(work)@ == old(self)@.model_work(old(work)@, argument@, told(problem), gone),
            if argument@.len() == 0 {
                &&& final(self)@ == old(self)@.reports(old(work)@.refusal(gone))
                &&& final(work)@ == old(work)@.offered(Errand::Catalog, gone)
            } else if problem is Some {
                &&& final(self)@ == old(self)@.says("xfx: "@ + problem->0@)
                &&& final(work)@ == old(work)@
            } else if argument@ == old(self)@.model {
                &&& final(self)@ == old(self)@.says(
                    "[shell] model="@ + old(self)@.model + " unchanged"@,
                )
                &&& final(work)@ == old(work)@
            } else {
                &&& final(self)@ == old(self)@.changes_model(old(work)@.refusal(gone), argument@)
                &&& final(work)@ == old(work)@.offered(Errand::Model(argument@), gone)
            },
    {
        if argument.is_empty() {
            self.report_model(work, gone);
            return;
        }
        match problem {
            Some(words) => {
                let mut line: String = "xfx: ".to_owned();
                line.append(words);
                self.say(line.as_str());
            },
            None => {
                if text::same(argument, self.model.as_str()) {
                    self.say_model(" unchanged");
                } else {
                    self.change_model(argument, work, gone);
                }
            },
        }
    }

    /// Hands a switch of provider to the other thread, and predicts nothing of
    /// it. A name that is no provider's is answered with `usage`.
    pub fn use_provider(
        &mut self,
        named: Option<ProviderId>,
        usage: &str,
        work: &mut Backlog,
        gone: bool,
    )
        requires
            old(self).well_formed(),
            old(work)@.well_formed(),
            old(work)@.accepted < usize::MAX,
        ensures
            final(self).well_formed(),
            final(work)@.well_formed(),
            final(self)@ == old(self)@.uses_provider(named, usage@, old(work)@.refusal(gone)),
            final(work)@ == provider_work(old(work)@, named, gone),
            match named {
                None => {
                    &&& final(self)@ == old(self)@.says(usage@)
                    &&& final(work)@ == old(work)@
                },
                Some(provider) => {
                    &&& final(self)@ == old(self)@.sets_up(old(work)@.refusal(gone), provider)
                    &&& final(work)@ == old(work)@.offered(Errand::Setup(provider), gone)
                },
            },
    {
        match named {
            None => self.say(usage),
            Some(provider) => match work.submit(TurnWork::Setup(provider), gone) {
                Err(rejected) => self.refused(rejected),
                Ok(_) => {
                    let mut line: String = "[shell] setting up ".to_owned();
                    line.append(provider.label());
                    self.say(line.as_str());
                },
            },
        }
    }
}

/// A prompt that is not taken costs neither the draft nor the queue: the draft
/// stays in the composer, nothing is written into the document for a full
/// queue, and the backlog is as it was.
pub proof fn law_a_refused_prompt_is_kept(
    session: Session,
    held: worker::Held,
    prompt: Seq<char>,
    text: Seq<char>,
    gone: bool,
)
    requires
        held.refusal(gone) is Some,
    ensures
        !send_chores(held.refusal(gone)).contains(Chore::TakeDraft),
        held.offered(Errand::Submit(prompt), gone) == held,
        session.sends(held.refusal(gone), text).transaction == session.transaction,
        held.refusal(gone) == Some(Rejected::Busy) ==> session.sends(
            held.refusal(gone),
            text,
        ).script == session.script,
{
}

/// A fresh conversation that was refused leaves the old one's count standing,
/// and one that was taken leaves the list of models standing.
pub proof fn law_a_fresh_conversation_keeps_the_window(session: Session, refusal: Option<Rejected>)
    ensures
        refusal is Some ==> session.starts_afresh(refusal).meter() == session.meter(),
        session.starts_afresh(None).meter() is None,
        session.starts_afresh(refusal).catalog == session.catalog,
        session.starts_afresh(refusal).model == session.model,
{
}

/// A refusal on the hint row: what it says, what it is painted in, and what the
/// rest of the row is painted in again. The colours are apart from the text, so
/// that a row too narrow for the text cuts the text and not a colour's end.
#[derive(Debug, Clone, Copy, PartialEq, Eq)]
pub struct Notice {
    pub text: &'static str,
    pub style: &'static str,
    pub resume: &'static str,
}

/// What the hint row is made of.
#[derive(Debug, Clone, Copy, PartialEq, Eq)]
pub struct Hint<'a> {
    pub missing_credential: bool,
    pub queued: usize,
    pub mode: &'a str,
    pub model: &'a str,
    pub context_used: Option<(u64, u64)>,
    pub notice: Option<Notice>,
    /// The warning at the right: what a second Escape would do.
    pub right: Option<&'static str>,
}

impl Session {
    /// The session once the answers only time gives have been read: how much
    /// waits, and whether a second Escape would clear the composer.
    pub open spec fn settles(self, queued: usize, armed: bool) -> Session {
        let counted = if queued != self.queued {
            Session { queued, ..self }.asks(Reason::Footer)
        } else {
            self
        };
        if armed != self.escape_armed {
            Session { escape_armed: armed, ..counted }.asks(Reason::Footer)
        } else {
            counted
        }
    }

    /// The session once the activity row says `row`.
    pub open spec fn shows(self, row: Option<Seq<char>>) -> Session {
        if row == self.activity_row {
            self
        } else {
            Session { activity_row: row, ..self }.asks(Reason::Animation)
        }
    }

    /// The session once its band has been solved again.
    pub open spec fn refits(self, solved: Option<Geometry>) -> Session {
        match solved {
            Some(geometry) => if geometry == self.geometry {
                self
            } else {
                Session { geometry, ..self }.asks(Reason::Resize)
            },
            None => self,
        }
    }

    /// What a report of the screen's size comes to.
    pub open spec fn resize_answer(self, rows: u16, cols: u16, solved: Option<Geometry>) -> Resize {
        if rows == 0 || cols == 0 || (rows, cols) == self.screen {
            Resize::Unchanged
        } else {
            match solved {
                Some(geometry) => Resize::Repaint(geometry),
                None => Resize::TooSmall,
            }
        }
    }

    /// The session once the screen's size has been reported.
    pub open spec fn resizes(self, rows: u16, cols: u16, solved: Option<Geometry>) -> Session {
        match self.resize_answer(rows, cols, solved) {
            Resize::Unchanged => self,
            Resize::TooSmall => Session { screen: (rows, cols), ..self },
            Resize::Repaint(geometry) => Session {
                screen: (rows, cols),
                geometry,
                script: Script {
                    paper: Paper {
                        unfinished: self.script.paper.unfinished.rewrapped(cols),
                        ..self.script.paper
                    },
                    ..self.script
                },
                ..self
            }.asks(Reason::Resize),
        }
    }

    /// Whether the band is solved for a screen that may not exist: the terminal
    /// has said that it changed and not been asked, or its size is not the one
    /// the band was solved for.
    pub open spec fn blind(self, resize_pending: bool) -> bool {
        resize_pending || self.screen != (self.geometry.rows, self.geometry.cols)
    }

    /// The session once `count` characters of the answer have been released.
    pub open spec fn releases(self, reopen: Seq<char>, count: nat) -> Session {
        Session { script: self.script.released(reopen, count), ..self }
    }

    /// Where the caret goes.
    pub open spec fn caret(self, panel_row: u16, point: (usize, u16), first: usize) -> (u16, u16) {
        if self.geometry.panel > 0 && self.panel {
            (
                band::at_most(self.geometry.panel_first + panel_row, u16::MAX as int) as u16,
                0,
            )
        } else {
            band::composer_caret(self.geometry, point, first)
        }
    }
}

/// What settling the band owes: the activity row first, and then the stream.
pub open spec fn settle_chores() -> Seq<Chore> {
    seq![Chore::TickActivity, Chore::Pace]
}

/// What another activity row owes: a row that came or went moves the divider.
pub open spec fn activity_chores(before: Option<Seq<char>>, row: Option<Seq<char>>) -> Seq<Chore> {
    if row is Some != before is Some {
        seq![Chore::Refit]
    } else {
        Seq::empty()
    }
}

impl Session {
    /// The session once what the document is owed has been taken.
    pub open spec fn delivers(self) -> Session {
        Session {
            script: Script { paper: Paper { owed: Seq::empty(), ..self.script.paper }, ..self.script },
            ..self
        }
    }

    /// The session once writes that were taken and not made have been given back.
    pub open spec fn restores(self, untried: Seq<Owed>) -> Session {
        Session {
            script: Script {
                paper: Paper { owed: untried + self.script.paper.owed, ..self.script.paper },
                ..self.script
            },
            ..self
        }
    }

    /// Whether a hint row is made of what this session is.
    pub open spec fn hinted(self, hint: Hint) -> bool {
        &&& hint.missing_credential == self.missing_credential
        &&& hint.queued == self.queued
        &&& hint.mode@ == self.mode && hint.model@ == self.model
        &&& hint.context_used == self.meter()
        &&& hint.notice is Some == self.notice is Some
        &&& hint.notice matches Some(notice) ==> notice.text@ == self.notice->0.words()
        &&& hint.right is Some == self.escape_armed
    }
}

/// What a plane of its own shows: the rows of the question on it, or none.
pub open spec fn plane_rows(alternate: bool, rows: Seq<String>) -> Seq<String> {
    if alternate {
        rows
    } else {
        Seq::empty()
    }
}

/// Where the caret goes on it: where the question has it, or the corner.
pub open spec fn plane_caret(alternate: bool, caret: (u16, u16)) -> (u16, u16) {
    if alternate {
        caret
    } else {
        (1, 0)
    }
}

impl Shell {
    /// Reads the answers only time gives, and says what else is settled with
    /// them: the activity row first, because it moves the divider, and then the
    /// stream, measured against the band that is settled by then.
    pub fn settle_band(&mut self, queued: usize, armed: bool) -> (chores: Vec<Chore>)
        requires
            old(self).well_formed(),
        ensures
            chores@ == settle_chores(),
            final(self)@ == old(self)@.settles(queued, armed),
            chores@ == seq![Chore::TickActivity, Chore::Pace],
            final(self).well_formed(),
    {
        if queued != self.queued {
            self.queued = queued;
            self.request(Reason::Footer);
        }
        if armed != self.escape_armed {
            self.escape_armed = armed;
            self.request(Reason::Footer);
        }
        let mut chores: Vec<Chore> = Vec::new();
        chores.push(Chore::TickActivity);
        chores.push(Chore::Pace);
        proof {
            assert(chores@ =~= seq![Chore::TickActivity, Chore::Pace]);
        }
        chores
    }

    /// Settles the clock of the activity row: it starts where a turn is working
    /// and it has not, stands still while a person is asked, and its blink moves
    /// on by one of `phases` where the animation `turned`.
    pub fn tick_activity(&mut self, working: bool, started: bool, turned: bool, phases: u8) -> (chores:
        Vec<Chore>)
        requires
            old(self).well_formed(),
            phases > 0,
        ensures
            final(self)@.phase == next_phase(old(self)@.phase, turned, phases),
            chores@ == clock_chores(working, started, old(self)@.asking()),
            final(self)@ == (Session {
                phase: if turned {
                    ((old(self)@.phase + 1) % (phases as int)) as u8
                } else {
                    old(self)@.phase
                },
                ..old(self)@
            }),
            chores@ == (if working && !started {
                seq![Chore::BeginClock]
            } else {
                Seq::empty()
            }).push(
                if old(self)@.asking() {
                    Chore::FreezeClock
                } else {
                    Chore::ThawClock
                },
            ),
            final(self).well_formed(),
    {
        let mut chores: Vec<Chore> = Vec::new();
        if working && !started {
            chores.push(Chore::BeginClock);
        }
        proof {
            assert(chores@ =~= if working && !started {
                seq![Chore::BeginClock]
            } else {
                Seq::empty()
            });
        }
        if self.asking() {
            chores.push(Chore::FreezeClock);
        } else {
            chores.push(Chore::ThawClock);
        }
        if turned {
            let next: u16 = (self.phase as u16 + 1) % (phases as u16);
            self.phase = next as u8;
        }
        chores
    }

    /// How far the blink of the activity row has come.
    pub fn phase(&self) -> (phase: u8)
        ensures
            phase == self@.phase,
    {
        self.phase
    }

    /// Takes what the activity row says now. A row that appeared or went away
    /// moves the divider; one that says the same is not a frame.
    pub fn show_activity(&mut self, row: Option<String>) -> (chores: Vec<Chore>)
        requires
            old(self).well_formed(),
        ensures
            chores@ == activity_chores(old(self)@.activity_row, said(row)),
            final(self)@ == old(self)@.shows(said(row)),
            chores@ == (if said(row) is Some != old(self)@.activity_row is Some {
                seq![Chore::Refit]
            } else {
                Seq::empty()
            }),
            final(self).well_formed(),
    {
        let mut chores: Vec<Chore> = Vec::new();
        let same: bool = match (&row, &self.activity_row) {
            (Some(new), Some(shown)) => text::same(new.as_str(), shown.as_str()),
            (None, None) => true,
            _ => false,
        };
        if !same {
            if row.is_some() != self.activity_row.is_some() {
                chores.push(Chore::Refit);
            }
            self.activity_row = row;
            self.request(Reason::Animation);
        }
        proof {
            assert(chores@ =~= if said(row) is Some != old(self)@.activity_row is Some {
                seq![Chore::Refit]
            } else {
                Seq::empty()
            });
        }
        chores
    }

    /// Puts one emission of the answer into the document, stopping at every
    /// line of the session's own that it crosses.
    pub fn release(&mut self, chunk: &str, consumed: usize)
        requires
            old(self).well_formed(),
            document::emits(old(self)@.script, chunk@, consumed as nat),
        ensures
            final(self)@ == old(self)@.releases(
                chunk@.take(chunk@.len() - document::carried(chunk@, consumed as nat)),
                document::carried(chunk@, consumed as nat),
            ),
            final(self).well_formed(),
    {
        self.document.release(chunk, consumed);
    }

    /// Releases what a moment of the clock is worth, where it is worth
    /// anything.
    pub fn pace(&mut self, chunk: Option<&str>, consumed: usize)
        requires
            old(self).well_formed(),
            chunk matches Some(words) ==> document::emits(
                old(self)@.script,
                words@,
                consumed as nat,
            ),
        ensures
            final(self)@ == (match chunk {
                Some(words) => old(self)@.releases(
                    words@.take(words@.len() - document::carried(words@, consumed as nat)),
                    document::carried(words@, consumed as nat),
                ),
                None => old(self)@,
            }),
            final(self).well_formed(),
    {
        match chunk {
            Some(words) => self.release(words, consumed),
            None => {},
        }
    }

    /// Puts everything that is still ahead into the document at once, for a
    /// session that comes down. `chunk` is all of it, where there is any.
    pub fn flush_paced(&mut self, chunk: Option<&str>)
        requires
            old(self).well_formed(),
            match chunk {
                Some(words) => document::emits(
                    old(self)@.script,
                    words@,
                    document::bytes(old(self)@.script.ahead()),
                ),
                None => old(self)@.script.ahead().len() == 0,
            },
        ensures
            final(self)@ == (match chunk {
                Some(words) => {
                    let all = document::bytes(old(self)@.script.ahead());
                    old(self)@.releases(
                        words@.take(words@.len() - document::carried(words@, all)),
                        document::carried(words@, all),
                    )
                },
                None => old(self)@,
            }),
            final(self)@.script.held.len() == 0,
            final(self)@.script.tail.len() == 0,
            final(self).well_formed(),
    {
        match chunk {
            Some(words) => {
                let all: usize = self.paced_backlog();
                proof {
                    document::lemma_all_of_it(self@.script, words@);
                }
                self.release(words, all);
            },
            None => {
                proof {
                    document::lemma_nothing_ahead(&self.document);
                }
            },
        }
    }

    /// Writes text into the document's line, wherever the stream is.
    pub fn write_transcript(&mut self, text: &str)
        requires
            old(self).well_formed(),
        ensures
            final(self)@ == (Session {
                script: Script {
                    paper: old(self)@.script.paper.written(text@),
                    ..old(self)@.script
                },
                ..old(self)@
            }),
            final(self).well_formed(),
    {
        self.document.write_transcript(text);
    }

    /// Ends the document's line, leaving it there.
    pub fn end_transcript_line(&mut self)
        requires
            old(self).well_formed(),
        ensures
            final(self)@ == (Session {
                script: Script { paper: old(self)@.script.paper.ended(), ..old(self)@.script },
                ..old(self)@
            }),
            final(self).well_formed(),
    {
        self.document.end_transcript_line();
    }

    /// The model a turn talks to.
    pub fn model(&self) -> (model: &str)
        ensures
            model@ == self@.model,
    {
        self.model.as_str()
    }

    /// The provider a turn talks to.
    pub fn provider(&self) -> (provider: ProviderId)
        ensures
            provider == self@.provider,
    {
        self.provider
    }

    /// What the last change to the composer's text was.
    pub fn last_transaction(&self) -> (last: Option<&EditTransaction>)
        ensures
            match last {
                Some(transaction) => self@.transaction == Some(*transaction),
                None => self@.transaction is None,
            },
    {
        self.transaction.last()
    }

    /// How many bytes of the answer are still ahead.
    pub fn paced_backlog(&self) -> (count: usize)
        requires
            self.well_formed(),
        ensures
            count == document::bytes(self@.script.ahead()),
    {
        self.document.paced_backlog()
    }

    /// How many bytes of answer have ever been taken in.
    pub fn enqueued(&self) -> (count: usize)
        ensures
            count == self@.script.enqueued,
    {
        self.document.enqueued()
    }

    /// Takes the document writes this session owes, oldest first.
    pub fn take_pending(&mut self) -> (pending: Vec<Append>)
        requires
            old(self).well_formed(),
        ensures
            final(self)@ == old(self)@.delivers(),
            document::owings(pending@) == old(self)@.script.paper.owed,
            final(self)@ == (Session {
                script: Script {
                    paper: Paper { owed: Seq::empty(), ..old(self)@.script.paper },
                    ..old(self)@.script
                },
                ..old(self)@
            }),
            final(self).well_formed(),
    {
        self.document.take_pending()
    }

    /// Gives back writes that were taken and not made, ahead of anything owed
    /// since.
    pub fn restore_pending(&mut self, untried: Vec<Append>)
        requires
            old(self).well_formed(),
        ensures
            final(self)@ == old(self)@.restores(document::owings(untried@)),
            final(self)@ == (Session {
                script: Script {
                    paper: Paper {
                        owed: document::owings(untried@) + old(self)@.script.paper.owed,
                        ..old(self)@.script.paper
                    },
                    ..old(self)@.script
                },
                ..old(self)@
            }),
            final(self).well_formed(),
    {
        self.document.restore_pending(untried);
    }

    /// Where everything in the band is.
    pub fn geometry(&self) -> (geometry: Geometry)
        ensures
            geometry == self@.geometry,
    {
        self.geometry
    }

    /// What the hint row is made of.
    pub fn hint(&self) -> (hint: Hint<'_>)
        ensures
            self@.hinted(hint),
            hint.missing_credential == self@.missing_credential,
            hint.queued == self@.queued,
            hint.mode@ == self@.mode,
            hint.model@ == self@.model,
            hint.context_used == self@.meter(),
            match hint.notice {
                Some(notice) => self@.notice matches Some(refusal) && notice.text@
                    == refusal.words() && notice.style@ == theme::painted(
                    self@.palette,
                    theme::NOTICE as int,
                ) && notice.resume@ == theme::painted(self@.palette, theme::HINT as int),
                None => self@.notice is None,
            },
            match hint.right {
                Some(words) => self@.escape_armed && words@ == ESCAPE_ARMED@,
                None => !self@.escape_armed,
            },
    {
        Hint {
            missing_credential: self.missing_credential,
            queued: self.queued,
            mode: self.mode.as_str(),
            model: self.model.as_str(),
            context_used: self.context_meter(),
            notice: match self.notice {
                Some(refusal) => Some(
                    Notice {
                        text: refusal.text(),
                        style: self.palette.notice(),
                        resume: self.palette.hint(),
                    },
                ),
                None => None,
            },
            right: if self.escape_armed {
                Some(ESCAPE_ARMED)
            } else {
                None
            },
        }
    }

    /// The band's rows, top first. `block` is the rows of what is in the elastic
    /// slot, `composer` the composer's, of which those from `first` up to `last`
    /// are shown, and `hint` what the last row says.
    pub fn band_rows(
        &self,
        block: &[String],
        composer: &[String],
        first: usize,
        last: usize,
        hint: &str,
    ) -> (rows: Vec<String>)
        requires
            first <= last <= composer@.len(),
        ensures
            text::texts(rows@) == band::rows_of(
                self@.geometry,
                self@.palette,
                (band::Said {
                    activity: self@.activity_row,
                    block: text::texts(block@),
                    composer: text::texts(composer@),
                    first: first as int,
                    last: last as int,
                    hint: hint@,
                }),
            ),
    {
        let activity: Option<&str> = match &self.activity_row {
            Some(row) => Some(row.as_str()),
            None => None,
        };
        band::band_rows(
            &self.geometry,
            &self.palette,
            &band::Shown { activity, block, composer, first, last, hint },
        )
    }

    /// Where the caret goes: the terminal's row, and the cells to the left of
    /// it. A question that is up in the band has the caret on its marked
    /// choice, `panel_row` rows below its first; a menu never has it.
    pub fn cursor(&self, panel_row: u16, point: (usize, u16), first: usize) -> (caret: (u16, u16))
        ensures
            caret == self@.caret(panel_row, point, first),
    {
        if self.geometry.panel > 0 && self.panel {
            return (self.geometry.panel_first.saturating_add(panel_row), 0);
        }
        band::composer_cursor(&self.geometry, point, first)
    }

    /// The rows of the plane of its own: those of the question on it, or none
    /// where no question is.
    pub fn screen_rows(&self, rows: Vec<String>) -> (shown: Vec<String>)
        ensures
            shown@ == plane_rows(self@.alternate, rows@),
            shown@ == (if self@.alternate {
                rows@
            } else {
                Seq::empty()
            }),
    {
        if self.alternate {
            rows
        } else {
            Vec::new()
        }
    }

    /// Where the caret goes on that plane.
    pub fn screen_cursor(&self, caret: (u16, u16)) -> (shown: (u16, u16))
        ensures
            shown == plane_caret(self@.alternate, caret),
            shown == (if self@.alternate {
                caret
            } else {
                (1, 0)
            }),
    {
        if self.alternate {
            caret
        } else {
            (1, 0)
        }
    }

    /// Solves the band again. `wrapped` is how many rows the composer wraps
    /// onto, `limit` how many it may have, and `solved[k]` the band with `k + 1`
    /// of them on this screen, with the activity row and the elastic rows this
    /// session has, where there is one. A band that cannot be solved again stays
    /// as it was.
    pub fn refit(&mut self, wrapped: usize, limit: u16, solved: &[Option<Geometry>])
        requires
            old(self).well_formed(),
            1 <= limit <= solved@.len(),
        ensures
            final(self)@ == old(self)@.refits(
                band::best(solved@, band::wanted_rows(wrapped as nat, limit) as int),
            ),
            final(self).well_formed(),
    {
        match band::fit(wrapped, limit, solved) {
            Some(geometry) => {
                if geometry != self.geometry {
                    self.geometry = geometry;
                    self.request(Reason::Resize);
                }
            },
            None => {},
        }
    }

    /// Whether anything may be written at all: not while the band is solved for
    /// a screen that may not exist.
    pub fn blind(&self, resize_pending: bool) -> (yes: bool)
        ensures
            yes == self@.blind(resize_pending),
    {
        resize_pending || self.screen.0 != self.geometry.rows || self.screen.1
            != self.geometry.cols
    }

    /// Takes a report of the screen's size. A size that says nothing, and the
    /// size the screen already had, change nothing. A screen no band fits on is
    /// remembered and nothing else: nothing is answered, and the band stays
    /// where it was until the screen can hold one.
    pub fn resize(
        &mut self,
        rows: u16,
        cols: u16,
        wrapped: usize,
        limit: u16,
        solved: &[Option<Geometry>],
    ) -> (answer: Resize)
        requires
            old(self).well_formed(),
            1 <= limit <= solved@.len(),
        ensures
            answer == old(self)@.resize_answer(
                rows,
                cols,
                band::best(solved@, band::wanted_rows(wrapped as nat, limit) as int),
            ),
            final(self)@ == old(self)@.resizes(
                rows,
                cols,
                band::best(solved@, band::wanted_rows(wrapped as nat, limit) as int),
            ),
            final(self).well_formed(),
    {
        if rows == 0 || cols == 0 || (rows == self.screen.0 && cols == self.screen.1) {
            return Resize::Unchanged;
        }
        self.screen = (rows, cols);
        match band::fit(wrapped, limit, solved) {
            Some(geometry) => {
                self.geometry = geometry;
                self.document.resize_unfinished(cols);
                self.request(Reason::Resize);
                Resize::Repaint(geometry)
            },
            None => Resize::TooSmall,
        }
    }
}

/// A window dragged small and back to where it started is news both times: the
/// session is blind in between and sees again afterwards.
pub proof fn law_a_screen_that_comes_back_is_news(
    session: Session,
    rows: u16,
    cols: u16,
    solved: Geometry,
)
    requires
        !session.blind(false),
        rows > 0,
        cols > 0,
        (rows, cols) != session.screen,
        session.screen.0 > 0,
        session.screen.1 > 0,
        (solved.rows, solved.cols) == session.screen,
    ensures
        ({
            let small = session.resizes(rows, cols, None);
            let back = small.resizes(session.screen.0, session.screen.1, Some(solved));
            &&& session.resize_answer(rows, cols, None) == Resize::TooSmall
            &&& small.geometry == session.geometry
            &&& small.panel == session.panel && small.alternate == session.alternate
            &&& small.blind(false)
            &&& small.resize_answer(session.screen.0, session.screen.1, Some(solved))
                == Resize::Repaint(solved)
            &&& !back.blind(false)
        }),
{
}

/// Taking what is owed and giving it back leaves it owed, in the order it was
/// owed in, ahead of what was owed meanwhile.
pub proof fn law_what_is_given_back_is_owed_first(owed: Seq<Append>, since: Seq<Append>, made: int)
    requires
        0 <= made <= owed.len(),
    ensures
        document::owings(owed.take(made)) + (document::owings(owed.skip(made)) + document::owings(
            since,
        )) == document::owings(owed + since),
{
    assert(document::owings(owed.take(made)) + (document::owings(owed.skip(made))
        + document::owings(since)) =~= document::owings(owed + since));
}

// ---------------------------------------------------------------------------
// what each key, each event and each moment comes to
// ---------------------------------------------------------------------------

/// A key owes what it is bound to and nothing that another key is: only Return
/// submits, only the newline key types a newline and no key types anything else,
/// only Ctrl-C interrupts, only Escape escapes; the two ends of a paste are its
/// own; a step through what was submitted goes the way of its key; and no key
/// throws the draft away or runs a command.
pub proof fn law_a_key_owes_its_own_chore(action: Action, empty: bool)
    ensures
        ({
            let chores = act_chores(action, empty);
            &&& chores.contains(Chore::Submit) <==> action == Action::Submit
            &&& chores.contains(Chore::Type('\n')) <==> action == Action::InsertNewline
            &&& forall|c: char| #[trigger] chores.contains(Chore::Type(c)) ==> c == '\n'
            &&& chores.contains(Chore::Interrupt) <==> action == Action::Cancel
            &&& chores.contains(Chore::Escape) <==> action == Action::Escape
            &&& chores.contains(Chore::BeginPaste) <==> action == Action::PasteStart
            &&& chores.contains(Chore::FinishPaste) <==> action == Action::PasteEnd
            &&& chores.contains(Chore::Recall(HistoryStep::Previous)) <==> action
                == Action::HistoryPrevious
            &&& chores.contains(Chore::Recall(HistoryStep::Next)) <==> action
                == Action::HistoryNext
            &&& chores.contains(Chore::Climb(HistoryStep::Previous)) <==> action == Action::Up
            &&& chores.contains(Chore::Climb(HistoryStep::Next)) <==> action == Action::Down
            &&& !chores.contains(Chore::TakeDraft)
            &&& !chores.contains(Chore::RunCommand)
            &&& !chores.contains(Chore::RecordLine)
            &&& forall|control: TurnControl| !#[trigger] chores.contains(Chore::Send(control))
        }),
        action == Action::Submit || action == Action::InsertNewline || action == Action::Cancel
            || action == Action::Escape || action == Action::PasteStart || action
            == Action::PasteEnd || action == Action::HistoryPrevious || action
            == Action::HistoryNext ==> act_chores(action, empty).len() == 1,
        action == Action::Tab || action == Action::Ignore || action == Action::Redraw || (action
            == Action::Eof && empty) ==> act_chores(action, empty).len() == 0,
{
    let chores = act_chores(action, empty);
    lemma_holds_its_items(chores);
    assert(seq![Chore::LeaveWalk] + moved_chores() =~= seq![
        Chore::LeaveWalk,
        Chore::ReconcileMenu,
        Chore::Refit,
    ]);
    assert(chores.len() <= 4);
    if chores.len() > 0 {
        assert(chores.contains(chores[0]));
    }
    if chores.len() > 1 {
        assert(chores.contains(chores[1]));
    }
}

proof fn lemma_holds_its_items(chores: Seq<Chore>)
    ensures
        chores.len() <= 4 ==> forall|chore: Chore| #[trigger]
            chores.contains(chore) <==> {
                ||| chores.len() > 0 && chores[0] == chore
                ||| chores.len() > 1 && chores[1] == chore
                ||| chores.len() > 2 && chores[2] == chore
                ||| chores.len() > 3 && chores[3] == chore
            },
{
}

/// A key that moves the caret is handed to the composer and owes the menu and
/// the band, in that order; one that takes text away owes besides that the walk
/// through what was submitted ends; a vertical move is handed over and then asked
/// about; Ctrl-D over text is a forward delete.
pub proof fn law_the_composer_is_given_its_keys(action: Action, empty: bool)
    ensures
        action == Action::Left || action == Action::Right || action == Action::Home || action
            == Action::End || action == Action::WordLeft || action == Action::WordRight
            ==> act_chores(action, empty) == seq![
            Chore::Apply(action),
            Chore::ReconcileMenu,
            Chore::Refit,
        ],
        action == Action::Backspace || action == Action::Delete || action
            == Action::DeleteWordLeft || action == Action::KillToEnd || action
            == Action::KillToStart ==> act_chores(action, empty) == seq![
            Chore::Apply(action),
            Chore::LeaveWalk,
            Chore::ReconcileMenu,
            Chore::Refit,
        ],
        action == Action::Eof && !empty ==> act_chores(action, empty) == seq![
            Chore::Apply(Action::Delete),
            Chore::LeaveWalk,
            Chore::ReconcileMenu,
            Chore::Refit,
        ],
        action == Action::Up || action == Action::Down ==> act_chores(action, empty).len() == 2
            && act_chores(action, empty)[0] == Chore::Apply(action),
{
    let chores = act_chores(action, empty);
    assert(seq![Chore::Apply(action)] + moved_chores() =~= seq![
        Chore::Apply(action),
        Chore::ReconcileMenu,
        Chore::Refit,
    ]);
    assert(seq![Chore::Apply(action)] + amended_chores() =~= seq![
        Chore::Apply(action),
        Chore::LeaveWalk,
        Chore::ReconcileMenu,
        Chore::Refit,
    ]);
    assert(seq![Chore::Apply(Action::Delete)] + amended_chores() =~= seq![
        Chore::Apply(Action::Delete),
        Chore::LeaveWalk,
        Chore::ReconcileMenu,
        Chore::Refit,
    ]);
}

/// A key changes of the session what is its own: Ctrl-D on an empty composer, and
/// no other key, ends it; a key that takes text away is an edit, and no other is;
/// a key that touches the composer asks for the footer, and the redraw key for the
/// whole screen. Nothing is written, no question is touched and no menu moves.
pub proof fn law_a_key_changes_what_is_its_own(session: Session, action: Action, empty: bool)
    ensures
        ({
            let after = session.acts(action, empty);
            let edit = action == Action::Backspace || action == Action::Delete || action
                == Action::DeleteWordLeft || action == Action::KillToEnd || action
                == Action::KillToStart || (action == Action::Eof && !empty);
            let moved = action == Action::Left || action == Action::Right || action == Action::Home
                || action == Action::End || action == Action::WordLeft || action
                == Action::WordRight;
            let quits = action == Action::Eof && empty;
            &&& after.leaving == (if quits && session.leaving is None {
                Some(Leaving::Quit)
            } else {
                session.leaving
            })
            &&& after.transaction == (if edit {
                Some(EditTransaction::Other)
            } else {
                session.transaction
            })
            &&& after.asked.footer == (session.asked.footer || edit || moved)
            &&& after.asked.external_damage == (session.asked.external_damage || action
                == Action::Redraw)
            &&& after.asked.modal == session.asked.modal
            &&& after.asked.resize == session.asked.resize
            &&& after.script == session.script
            &&& after.panel == session.panel && after.alternate == session.alternate
            &&& after.menu == session.menu && after.owner == session.owner
            &&& after.notice == session.notice && after.model == session.model
            &&& after.fatal == session.fatal && after.clearing == session.clearing
        }),
{
}

/// Who a key is for: a question that is up has every key; otherwise a character
/// is typed, a byte of a paste is the paste's, and of the keys the menu has five
/// where it is open, and the session every other.
pub proof fn law_a_key_has_one_owner(session: Session, input: Input, action: Action)
    ensures
        session.panel || session.alternate ==> session.routes(input) == Route::Question,
        !(session.panel || session.alternate) ==> {
            &&& forall|c: char| #[trigger] session.routes(Input::Text(c)) == Route::Type(c)
            &&& forall|byte: u8| #[trigger]
                session.routes(Input::PasteByte(byte)) == Route::Paste(byte)
            &&& session.routes(Input::Action(action)) == (if session.menu && (action == Action::Up
                || action == Action::Down || action == Action::Tab || action == Action::Submit
                || action == Action::Escape) {
                Route::Menu(action)
            } else {
                Route::Act(action)
            })
        },
{
}

/// A question takes the keys it binds, each as itself: a character, the two
/// arrows, Tab, Return, Escape and Ctrl-C; the two keys of history scroll it, back
/// or forth, where it has a plane of its own; and it swallows everything else.
pub proof fn law_a_question_binds_its_keys(c: char, byte: u8, action: Action, alternate: bool)
    ensures
        question_key(Input::Text(c), alternate) == Asks::Key(PanelKey::Text(c)),
        question_key(Input::PasteByte(byte), alternate) == Asks::Nothing,
        ({
            let made = question_key(Input::Action(action), alternate);
            &&& made == Asks::Key(PanelKey::Up) <==> action == Action::Up
            &&& made == Asks::Key(PanelKey::Down) <==> action == Action::Down
            &&& made == Asks::Key(PanelKey::Tab) <==> action == Action::Tab
            &&& made == Asks::Key(PanelKey::Submit) <==> action == Action::Submit
            &&& made == Asks::Key(PanelKey::Escape) <==> action == Action::Escape
            &&& made == Asks::Key(PanelKey::Cancel) <==> action == Action::Cancel
            &&& made == (Asks::Scroll { back: true }) <==> action == Action::HistoryPrevious
                && alternate
            &&& made == (Asks::Scroll { back: false }) <==> action == Action::HistoryNext
                && alternate
            &&& !(made matches Asks::Key(PanelKey::Text(_)))
        }),
{
}

/// A key that goes to a question asks for a frame where it scrolls the change or
/// redraws the screen, and changes nothing else.
pub proof fn law_a_swallowed_key_changes_nothing(session: Session, input: Input)
    ensures
        ({
            let after = session.keyed(input);
            let scrolls = session.alternate && (input == Input::Action(Action::HistoryPrevious)
                || input == Input::Action(Action::HistoryNext));
            &&& after.asked.modal == (session.asked.modal || scrolls)
            &&& after.asked.external_damage == (session.asked.external_damage || input
                == Input::Action(Action::Redraw))
            &&& after.asked.footer == session.asked.footer
            &&& (Session { asked: session.asked, ..after }) == session
        }),
{
}

/// An answer is sent as it was given, and then the band is solved again; a Ctrl-C
/// interrupts instead of answering; and without an answer, or without a question,
/// nothing is owed. A question that was answered is gone, and nothing else of the
/// session but the frame it asks for is touched.
pub proof fn law_an_answer_is_sent_as_given(
    session: Session,
    key: PanelKey,
    answer: ApprovalAnswer,
)
    ensures
        session.panel || session.alternate ==> {
            &&& key != PanelKey::Cancel ==> session.decision_chores(key, Some(answer)) == seq![
                Chore::Send(TurnControl::Answer(answer)),
                Chore::Refit,
            ]
            &&& session.decision_chores(PanelKey::Cancel, Some(answer)) == seq![
                Chore::Interrupt,
                Chore::Refit,
            ]
            &&& session.decided(Some(answer)).asked.modal && session.decided(None).asked.modal
            &&& !session.decided(Some(answer)).panel && !session.decided(Some(answer)).alternate
        },
        !(session.panel || session.alternate) ==> {
            &&& session.decision_chores(key, Some(answer)).len() == 0
            &&& session.decided(Some(answer)) == session
        },
        session.decision_chores(key, None).len() == 0,
        session.decided(Some(answer)).script == session.script,
        session.decided(Some(answer)).leaving == session.leaving,
        session.decided(Some(answer)).transaction == session.transaction,
        session.decided(Some(answer)).menu == session.menu,
        session.decided(None).script == session.script,
{
}

/// A Ctrl-C that stops a turn tells the other thread how many submissions there
/// were, writes its notice at once and, where something was queued, a second line
/// about it, and neither ends the session nor touches the draft. One that clears
/// empties a composer that holds something and writes nothing. One that leaves
/// ends the session as interrupted. Whatever it meant, the band is settled last.
pub proof fn law_an_interrupt_does_what_it_means(
    session: Session,
    notice: Seq<char>,
    queued: nat,
    accepted: usize,
    empty: bool,
)
    ensures
        interrupt_chores(Interrupt::Cancel, accepted, empty) == seq![
            Chore::Send(TurnControl::Cancel { through: accepted }),
            Chore::SettleBand,
        ],
        interrupt_chores(Interrupt::Leave, accepted, empty) == seq![Chore::SettleBand],
        interrupt_chores(Interrupt::Clear, accepted, true) == seq![Chore::SettleBand],
        interrupt_chores(Interrupt::Clear, accepted, false) == seq![
            Chore::TakeDraft,
            Chore::LeaveWalk,
            Chore::ReconcileMenu,
            Chore::Refit,
            Chore::SettleBand,
        ],
        ({
            let stopped = session.interrupted(Interrupt::Cancel, notice, queued, empty);
            let first = session.script.paper.with_line(notice);
            &&& stopped.script.paper == (if queued > 0 {
                first.with_line(QUEUE_DROPPED@)
            } else {
                first
            })
            &&& stopped.script.held == session.script.held
            &&& stopped.script.tail == session.script.tail
            &&& stopped.leaving == session.leaving
            &&& stopped.transaction == session.transaction
        }),
        ({
            let cleared = session.interrupted(Interrupt::Clear, notice, queued, empty);
            &&& cleared.script == session.script
            &&& cleared.leaving == session.leaving
            &&& cleared.transaction == (if empty {
                session.transaction
            } else {
                Some(EditTransaction::Other)
            })
        }),
        ({
            let left = session.interrupted(Interrupt::Leave, notice, queued, empty);
            &&& left.leaving == (if session.leaving is None {
                Some(Leaving::Interrupted)
            } else {
                session.leaving
            })
            &&& left.script == session.script
            &&& left.transaction == session.transaction
        }),
{
    assert(interrupt_chores(Interrupt::Cancel, accepted, empty) =~= seq![
        Chore::Send(TurnControl::Cancel { through: accepted }),
        Chore::SettleBand,
    ]);
    assert(interrupt_chores(Interrupt::Leave, accepted, empty) =~= seq![Chore::SettleBand]);
    assert(interrupt_chores(Interrupt::Clear, accepted, true) =~= seq![Chore::SettleBand]);
    assert(interrupt_chores(Interrupt::Clear, accepted, false) =~= seq![
        Chore::TakeDraft,
        Chore::LeaveWalk,
        Chore::ReconcileMenu,
        Chore::Refit,
        Chore::SettleBand,
    ]);
}

/// A frame is asked for by the reason that was given, and by no other; reasons
/// that were given before stay.
pub proof fn law_a_reason_adds_itself(asked: Asked, reason: Reason)
    ensures
        ({
            let after = asked.with(reason);
            &&& after.first_frame == (asked.first_frame || reason == Reason::FirstFrame)
            &&& after.footer == (asked.footer || reason == Reason::Footer)
            &&& after.modal == (asked.modal || reason == Reason::Modal)
            &&& after.animation == (asked.animation || reason == Reason::Animation)
            &&& after.resize == (asked.resize || reason == Reason::Resize)
            &&& after.external_damage == (asked.external_damage || reason
                == Reason::ExternalDamage)
        }),
        ({
            let none = Asked::none();
            !none.first_frame && !none.footer && !none.modal && !none.animation && !none.resize
                && !none.external_damage
        }),
{
}

/// A menu that is open is closed by dismissing it, and remembered as closed; one
/// that is not costs nothing. A name that was taken is an edit. A question
/// outranks the menu for the band's elastic rows.
pub proof fn law_a_menu_is_closed_once(session: Session)
    ensures
        !session.dismisses().menu,
        session.dismisses().dismisses() == session.dismisses(),
        session.menu ==> session.dismisses().asked.modal && dismissed_chores(session.menu) == seq![
            Chore::RememberDismissal,
            Chore::Refit,
        ],
        !session.menu ==> session.dismisses() == session && dismissed_chores(session.menu).len()
            == 0,
        session.dismisses().script == session.script,
        session.dismisses().panel == session.panel,
        session.picked(PickerOutcome::Changed).menu == session.menu,
        session.picked(PickerOutcome::Changed).asked.modal,
        session.picked(PickerOutcome::Changed).transaction == session.transaction,
        session.picked(PickerOutcome::Complete).transaction == Some(EditTransaction::Other),
        session.picked(PickerOutcome::Complete).asked.footer,
        !session.picked(PickerOutcome::Dismiss).menu,
        session.picked(PickerOutcome::Dismiss).transaction == session.transaction,
        session.slot() == Some(Slot::Question) <==> session.panel,
        session.slot() == Some(Slot::Menu) <==> session.menu && !session.panel,
{
}

/// A submission that was not taken is told where it belongs: of a full queue the
/// hint row says so and the document nothing; of a thread that is gone the
/// document says so, and the hint row nothing.
pub proof fn law_a_refusal_is_told_where_it_belongs(session: Session)
    ensures
        ({
            let busy = session.refuses(Rejected::Busy);
            &&& busy.notice == Some(Refusal::Queue)
            &&& busy.asked.footer
            &&& busy.script == session.script
            &&& busy.model == session.model && busy.context_used == session.context_used
        }),
        ({
            let gone = session.refuses(Rejected::Gone);
            &&& gone.notice == session.notice
            &&& gone.script == session.script.said(GONE_NOTICE@)
            &&& gone.asked == session.asked
            &&& gone.model == session.model && gone.context_used == session.context_used
        }),
{
}

/// A step through what was submitted: where there was nothing to step to, nothing
/// happens; one the composer would not take ends the walk and keeps the draft;
/// one it took is an edit, and goes on with the walk. A block that could not be
/// numbered is said on the hint row, and nothing is where all could be.
pub proof fn law_a_step_comes_to_what_the_composer_took(session: Session, short: bool)
    ensures
        session.recalls(Recall::Nothing) == session,
        recall_chores(Recall::Nothing).len() == 0,
        ({
            let kept = session.recalls(Recall::Kept { short });
            &&& kept.transaction == session.transaction
            &&& kept.notice == (if short {
                Some(Refusal::RecallNumber)
            } else {
                session.notice
            })
            &&& kept.script == session.script
            &&& recall_chores(Recall::Kept { short }) == seq![Chore::LeaveWalk]
        }),
        ({
            let taken = session.recalls(Recall::Taken { short });
            &&& taken.transaction == Some(EditTransaction::Other)
            &&& taken.asked.footer
            &&& taken.notice == (if short {
                Some(Refusal::RecallNumber)
            } else {
                session.notice
            })
            &&& taken.script == session.script
            &&& recall_chores(Recall::Taken { short }) == seq![Chore::ReconcileMenu, Chore::Refit]
        }),
{
}

/// A prompt that was taken empties the composer, is written into the document as
/// it was typed, and counts as submitted, in that order of what it owes. One that
/// was not owes nothing.
pub proof fn law_a_prompt_that_is_taken_is_shown(
    session: Session,
    text: Seq<char>,
    why: Rejected,
)
    ensures
        send_chores(None) == seq![
            Chore::TakeDraft,
            Chore::ReconcileMenu,
            Chore::Refit,
            Chore::Submitted,
        ],
        send_chores(Some(why)).len() == 0,
        session.sends(None, text).script == session.script.said(text),
        session.sends(None, text).transaction == Some(EditTransaction::Other),
        session.sends(None, text).asked.footer,
        session.sends(None, text).notice == session.notice,
        why == Rejected::Busy ==> session.sends(Some(why), text).notice == Some(Refusal::Queue),
        why == Rejected::Gone ==> session.sends(Some(why), text).script == session.script.said(
            GONE_NOTICE@,
        ),
{
    assert(send_chores(None) =~= seq![
        Chore::TakeDraft,
        Chore::ReconcileMenu,
        Chore::Refit,
        Chore::Submitted,
    ]);
}

/// A change that was refused changes nothing that it was to change, and one that
/// was taken says what it did: the model that was asked for is the model, and the
/// line names it; a fresh conversation has no count; a switch of provider says
/// which, and changes nothing yet; the report of the model names it and the
/// provider whether or not the list can be had.
pub proof fn law_a_change_is_made_when_it_is_taken(
    session: Session,
    model: Seq<char>,
    provider: ProviderId,
    why: Rejected,
)
    ensures
        session.changes_model(None, model).model == model,
        session.changes_model(None, model).script == session.script.said(
            "[shell] model="@ + model,
        ),
        session.changes_model(Some(why), model).model == session.model,
        session.changes_model(None, model).context_used == session.context_used,
        session.changes_model(None, model).catalog == session.catalog,
        session.starts_afresh(None).context_used is None,
        session.starts_afresh(None).script == session.script.said(NEW_SESSION_NOTICE@),
        session.starts_afresh(None).asked.footer,
        session.starts_afresh(Some(why)).context_used == session.context_used,
        session.sets_up(None, provider).script == session.script.said(
            "[shell] setting up "@ + provider.name(),
        ),
        session.sets_up(None, provider).provider == session.provider,
        session.sets_up(None, provider).model == session.model,
        session.sets_up(Some(why), provider).provider == session.provider,
        session.reports(None).script == session.script.said(
            "[shell] model="@ + session.model + " provider="@ + session.provider.name(),
        ),
        session.reports(None).model == session.model,
        why == Rejected::Busy ==> {
            &&& session.reports(Some(why)).script == session.reports(None).script
            &&& session.changes_model(Some(why), model).script == session.script
            &&& session.starts_afresh(Some(why)).script == session.script
            &&& session.sets_up(Some(why), provider).script == session.script
        },
        ProviderId::Gateway.name() == "gateway"@,
        ProviderId::Llmux.name() == "llmux"@,
{
}

/// Clearing the screen forgets what was written, what was owed and what was ahead
/// of the document, but for one line about it; it asks for the erasure and a
/// frame, and keeps the conversation, the model, the list, the count, the draft's
/// last edit, the queue and the question.
pub proof fn law_clearing_keeps_the_conversation(session: Session)
    ensures
        ({
            let after = session.cleared();
            let blank = Paper {
                unfinished: Unfinished {
                    cols: session.geometry.cols,
                    tail: Seq::empty(),
                    painted: 0,
                    split_crlf: false,
                },
                owed: Seq::empty(),
                frame: session.script.paper.frame,
            };
            &&& after.clearing
            &&& after.asked.external_damage
            &&& after.script.held.len() == 0
            &&& after.script.tail.len() == 0
            &&& after.script.enqueued == session.script.enqueued
            &&& after.script.paper == blank.with_line(CLEARED_NOTICE@)
            &&& after.context_used == session.context_used
            &&& after.model == session.model
            &&& after.catalog == session.catalog
            &&& after.transaction == session.transaction
            &&& after.queued == session.queued
            &&& after.leaving == session.leaving
            &&& after.panel == session.panel && after.alternate == session.alternate
        }),
{
    reveal(Script::marked);
}

/// What an event does to the document: a piece of the answer joins the stream; a
/// notice and a failure are said in their own words; a tool is named when it
/// begins and when it ends; a turn that ended well, and one that cannot go on,
/// end the answer's line; a provider that was selected is named with its model.
/// What has no words leaves it as it was.
pub proof fn law_an_event_is_shown_in_its_own_words(
    session: Session,
    event: UiEvent,
    quoted: Seq<char>,
    fits: bool,
)
    ensures
        ({
            let script = session.applied(event, quoted, fits).script;
            let before = session.script;
            &&& event matches UiEvent::Delta(words) ==> script == before.streamed(words@)
            &&& event matches UiEvent::Notice(words) ==> script == before.said(words@)
            &&& event matches UiEvent::TurnEnded { failure: Some(words) } ==> script == before.said(
                words@,
            )
            &&& event matches UiEvent::TurnEnded { failure: None } ==> script == before.marked(
                Note::EndOfLine,
            )
            &&& event is Fatal ==> script == before.marked(Note::EndOfLine)
            &&& event matches UiEvent::ToolStart { tool } ==> script == before.said(
                "[tool] "@ + tool@ + " running"@,
            )
            &&& event matches UiEvent::ToolResult { tool, ok, detail } ==> script == before.said(
                if ok {
                    "[tool] "@ + tool@ + " ok"@
                } else {
                    "[tool] "@ + tool@ + " refused: "@ + quoted
                },
            )
            &&& event matches UiEvent::ProviderSelected { provider, model, missing_credential }
                ==> script == before.said(
                "[shell] provider="@ + provider.name() + " model="@ + model@
                    + "; the next prompt starts a fresh conversation"@,
            )
            &&& event is Usage || event is TurnStarted ==> script == before
        }),
{
}

/// What a turn counted as given to it is the count, and what it gave back is not.
pub proof fn law_what_a_turn_was_given_is_the_count(
    session: Session,
    input: Option<u64>,
    output: Option<u64>,
    quoted: Seq<char>,
    fits: bool,
)
    ensures
        ({
            let after = session.applied(UiEvent::Usage { input, output }, quoted, fits);
            &&& after.context_used == input
            &&& after.asked.footer
            &&& after.script == session.script
            &&& after.leaving == session.leaving
            &&& after.model == session.model
        }),
{
}

/// A turn that cannot go on is why the session ends, in its own words, and ends
/// it unless it was ending already.
pub proof fn law_no_turn_outlives_the_runtime(
    session: Session,
    words: String,
    quoted: Seq<char>,
    fits: bool,
)
    ensures
        ({
            let after = session.applied(UiEvent::Fatal(words), quoted, fits);
            &&& after.fatal == Some(words@)
            &&& session.leaving is None ==> after.leaving == Some(Leaving::Quit)
            &&& session.leaving is Some ==> after.leaving == session.leaving
            &&& after.context_used == session.context_used
            &&& after.model == session.model
        }),
{
    lemma_ends(session, Session { script: session.script.marked(Note::EndOfLine), ..session }, words);
}

proof fn lemma_ends(session: Session, marked: Session, words: String)
    requires
        marked.leaving == session.leaving,
        marked.context_used == session.context_used,
        marked.model == session.model,
    ensures
        ({
            let after = Session { fatal: Some(words@), ..marked }.leaves(Leaving::Quit);
            &&& after.fatal == Some(words@)
            &&& session.leaving is None ==> after.leaving == Some(Leaving::Quit)
            &&& session.leaving is Some ==> after.leaving == session.leaving
            &&& after.context_used == session.context_used
            &&& after.model == session.model
        }),
{
}

/// No event but a switch of provider, a count and a turn that cannot go on
/// changes the count or why the session ends, and none but the last ends it; a
/// list that is loaded is spoken of elsewhere.
pub proof fn law_no_other_event_counts_or_ends(
    session: Session,
    event: UiEvent,
    quoted: Seq<char>,
    fits: bool,
)
    requires
        !(event is CatalogLoaded),
        !(event is Usage),
        !(event is Fatal),
    ensures
        ({
            let after = session.applied(event, quoted, fits);
            &&& event is ProviderSelected ==> after.context_used is None
            &&& !(event is ProviderSelected) ==> after.context_used == session.context_used
            &&& after.leaving == session.leaving
            &&& after.fatal == session.fatal
        }),
{
}

/// A provider that was selected is the provider, with its model and its
/// credential, and takes the old list with it; no other event but a list that is
/// loaded changes any of these.
pub proof fn law_an_event_selects_a_provider(
    session: Session,
    event: UiEvent,
    quoted: Seq<char>,
    fits: bool,
)
    requires
        !(event is CatalogLoaded),
    ensures
        ({
            let after = session.applied(event, quoted, fits);
            &&& event matches UiEvent::ProviderSelected { provider, model, missing_credential }
                ==> {
                &&& after.provider == provider
                &&& after.model == model@
                &&& after.missing_credential == missing_credential
                &&& after.catalog.len() == 0
            }
            &&& !(event is ProviderSelected) ==> {
                &&& after.provider == session.provider
                &&& after.model == session.model
                &&& after.missing_credential == session.missing_credential
                &&& after.catalog == session.catalog
            }
        }),
{
}

/// What no event touches: the draft's last edit, the queue, the screen, the
/// refusal on the hint row and the erasure the screen may owe; and what none but
/// a question does: the planes and the menu.
pub proof fn law_an_event_leaves_the_rest(
    session: Session,
    event: UiEvent,
    quoted: Seq<char>,
    fits: bool,
)
    requires
        !(event is CatalogLoaded),
    ensures
        ({
            let after = session.applied(event, quoted, fits);
            &&& after.transaction == session.transaction
            &&& after.queued == session.queued
            &&& after.screen == session.screen
            &&& after.notice == session.notice
            &&& after.clearing == session.clearing
            &&& !(event is Approval) ==> after.panel == session.panel && after.alternate
                == session.alternate && after.menu == session.menu
            &&& event is Usage || event is ProviderSelected ==> after.asked.footer
            &&& event is Delta || event is Notice || event is TurnStarted || event is ToolStart
                || event is ToolResult || event is TurnEnded || event is Fatal ==> after.asked
                == session.asked
        }),
{
}

/// What saying lines leaves of a session: everything but the document.
proof fn lemma_says_all_keeps(session: Session, lines: Seq<Seq<char>>)
    ensures
        ({
            let after = session.says_all(lines);
            &&& after.catalog == session.catalog && after.provider == session.provider
            &&& after.model == session.model && after.context_used == session.context_used
            &&& after.asked == session.asked && after.transaction == session.transaction
            &&& after.notice == session.notice && after.leaving == session.leaving
            &&& after.panel == session.panel && after.alternate == session.alternate
            &&& after.menu == session.menu
        }),
    decreases lines.len(),
{
    if lines.len() > 0 {
        lemma_says_all_keeps(session.says_all(lines.drop_last()), Seq::empty());
        lemma_says_all_keeps(session, lines.drop_last());
    }
}

/// What is said does not depend on what else a session is.
proof fn lemma_says_all_alike(one: Session, other: Session, lines: Seq<Seq<char>>)
    requires
        one.script == other.script,
    ensures
        one.says_all(lines).script == other.says_all(lines).script,
    decreases lines.len(),
{
    if lines.len() > 0 {
        lemma_says_all_alike(one, other, lines.drop_last());
    }
}

/// What a loaded list makes of a session.
spec fn listing(session: Session, provider: ProviderId, entries: Seq<CatalogEntry>) -> Session {
    Session { catalog: entries, provider, ..session }.says(
        "[shell] catalog="@ + text::decimal(entries.len()) + " shown"@,
    )
}

proof fn lemma_listing(session: Session, provider: ProviderId, entries: Seq<CatalogEntry>)
    ensures
        ({
            let with = listing(session, provider, entries);
            &&& with.script == session.says(
                "[shell] catalog="@ + text::decimal(entries.len()) + " shown"@,
            ).script
            &&& with.catalog == entries && with.provider == provider
            &&& with.model == session.model && with.context_used == session.context_used
            &&& with.asked == session.asked && with.transaction == session.transaction
            &&& with.notice == session.notice && with.leaving == session.leaving
            &&& with.panel == session.panel && with.alternate == session.alternate
            &&& with.menu == session.menu
        }),
{
}

/// What a session is once its list has been shown.
proof fn lemma_listed(
    after: Session,
    session: Session,
    counted: Session,
    with: Session,
    lines: Seq<Seq<char>>,
)
    requires
        after == with.says_all(lines).asks(Reason::Footer),
        with.script == counted.script,
        with.model == session.model,
        with.context_used == session.context_used,
        with.transaction == session.transaction,
        with.notice == session.notice,
        with.leaving == session.leaving,
        with.panel == session.panel,
        with.alternate == session.alternate,
        with.menu == session.menu,
    ensures
        after.script == counted.says_all(lines).script,
        after.catalog == with.catalog && after.provider == with.provider,
        after.model == session.model && after.context_used == session.context_used,
        after.asked.footer && after.transaction == session.transaction,
        after.notice == session.notice && after.leaving == session.leaving,
        after.panel == session.panel && after.alternate == session.alternate,
        after.menu == session.menu,
{
    lemma_says_all_keeps(with, lines);
    lemma_says_all_alike(counted, with, lines);
}

/// A list of models that was loaded is the list, of the provider that published
/// it, and is shown: how many there are, and then one row for each, in its order.
/// The model, the count, the draft and the question stay.
pub proof fn law_a_list_of_models_is_shown(
    session: Session,
    provider: ProviderId,
    entries: Vec<CatalogEntry>,
    quoted: Seq<char>,
    fits: bool,
)
    ensures
        ({
            let after = session.applied(
                UiEvent::CatalogLoaded { provider, entries },
                quoted,
                fits,
            );
            let counted = session.says(
                "[shell] catalog="@ + text::decimal(entries@.len()) + " shown"@,
            );
            &&& after.script == counted.says_all(catalog_lines(entries@)).script
            &&& after.catalog == entries@ && after.provider == provider
            &&& after.model == session.model && after.context_used == session.context_used
            &&& after.asked.footer && after.transaction == session.transaction
            &&& after.notice == session.notice && after.leaving == session.leaving
            &&& after.panel == session.panel && after.alternate == session.alternate
            &&& after.menu == session.menu
        }),
        catalog_lines(entries@).len() == entries@.len(),
        forall|i: int|
            0 <= i < entries@.len() ==> #[trigger] catalog_lines(entries@)[i] == catalog_row(
                entries@[i],
            ),
{
    let with = listing(session, provider, entries@);
    let counted = session.says("[shell] catalog="@ + text::decimal(entries@.len()) + " shown"@);
    let after = session.applied(UiEvent::CatalogLoaded { provider, entries }, quoted, fits);
    lemma_listing(session, provider, entries@);
    reveal(Session::lists);
    assert(after == with.says_all(catalog_lines(entries@)).asks(Reason::Footer));
    lemma_listed(after, session, counted, with, catalog_lines(entries@));
}

/// Lines are said one after the other: the first of several, and then the rest.
pub proof fn law_lines_are_said_in_order(session: Session, first: Seq<char>, rest: Seq<Seq<char>>)
    ensures
        session.says_all(seq![first] + rest).script == session.says(first).says_all(rest).script,
        session.says_all(Seq::empty()) == session,
        session.says(first).script == session.script.marked(Note::Line(first)),
    decreases rest.len(),
{
    let all = seq![first] + rest;
    assert(all.last() == if rest.len() == 0 {
        first
    } else {
        rest.last()
    });
    if rest.len() == 0 {
        assert(all.drop_last() =~= Seq::empty());
    } else {
        law_lines_are_said_in_order(session, first, rest.drop_last());
        assert(all.drop_last() =~= seq![first] + rest.drop_last());
    }
}

/// What an event owes: a turn that begins and a tool that ends are thinking, a
/// tool that begins is named, a piece of the answer goes to the pacer, and the
/// end of a turn rests the row, ends the pacing and ends the turn, in that order;
/// a question that fits closes the menu and solves the band again. No other event
/// owes anything.
pub proof fn law_an_event_owes_its_own_chores(
    session: Session,
    event: UiEvent,
    fits: bool,
)
    ensures
        ({
            let chores = session.event_chores(event, fits);
            &&& event is TurnStarted || event is ToolResult ==> chores == seq![Chore::Think]
            &&& event is Delta ==> chores == seq![Chore::Enqueue]
            &&& event is ToolStart ==> chores == seq![Chore::NameTool]
            &&& event is TurnEnded ==> chores == seq![
                Chore::Rest,
                Chore::FinishPacing,
                Chore::TurnEnded,
            ]
            &&& event is Notice || event is ProviderSelected || event is CatalogLoaded
                || event is Usage || event is Fatal ==> chores.len() == 0
            &&& event is Approval && !fits ==> chores == seq![
                Chore::Send(TurnControl::Answer(ApprovalAnswer::Deny)),
            ]
            &&& event is Approval && fits && session.menu ==> chores == seq![
                Chore::RememberDismissal,
                Chore::Refit,
                Chore::Refit,
            ]
            &&& event is Approval && fits && !session.menu ==> chores == seq![Chore::Refit]
        }),
{
    assert(seq![Chore::RememberDismissal, Chore::Refit].push(Chore::Refit) =~= seq![
        Chore::RememberDismissal,
        Chore::Refit,
        Chore::Refit,
    ]);
    assert(Seq::<Chore>::empty().push(Chore::Refit) =~= seq![Chore::Refit]);
}

/// A question that is asked is asked: no question is left for later, the menu is
/// closed, and nothing is written; and one that the screen cannot hold is said to
/// be refused, and no question is up that was not before.
pub proof fn law_a_question_is_asked_or_refused(session: Session, surface: ApprovalSurface)
    ensures
        ({
            let after = session.asked_about(surface, true);
            &&& after.asking()
            &&& !after.menu
            &&& after.script == session.script
            &&& after.asked.modal
            &&& surface == ApprovalSurface::Inline ==> after.panel && after.owner
                == ScreenOwner::Primary && after.alternate == session.alternate
            &&& surface == ApprovalSurface::Alternate ==> after.alternate && after.owner
                == ScreenOwner::Approval && after.panel == session.panel
            &&& after.leaving == session.leaving && after.transaction == session.transaction
        }),
        ({
            let refused = session.asked_about(surface, false);
            &&& refused.panel == session.panel && refused.alternate == session.alternate
            &&& refused.owner == session.owner && refused.menu == session.menu
            &&& refused.script == session.script.said(
                "xfx: this screen is too small to ask for permission, so the change was refused"@,
            )
        }),
{
}

/// The window is that of the first model of the list that answers to the name,
/// by its id or by an alias, and the meter is the count and that window, or
/// nothing where one of the two is missing.
pub proof fn law_the_meter_is_of_the_model_in_force(session: Session, at: int)
    requires
        0 <= at < session.catalog.len(),
        forall|i: int|
            0 <= i < at ==> (#[trigger] session.catalog[i]).id@ != session.model && forall|k: int|
                0 <= k < session.catalog[i].aliases@.len() ==> (
                #[trigger] session.catalog[i].aliases@[k])@ != session.model,
        session.catalog[at].id@ == session.model || exists|k: int|
            0 <= k < session.catalog[at].aliases@.len() && (
            #[trigger] session.catalog[at].aliases@[k])@ == session.model,
    ensures
        session.meter() == (match (session.context_used, session.catalog[at].max_context) {
            (Some(used), Some(total)) => Some((used, total)),
            _ => None,
        }),
{
    lemma_window_at(session.catalog, session.model, at);
}

proof fn lemma_window_at(catalog: Seq<CatalogEntry>, model: Seq<char>, at: int)
    requires
        0 <= at < catalog.len(),
        forall|i: int| 0 <= i < at ==> !names(#[trigger] catalog[i], model),
        names(catalog[at], model),
    ensures
        window_of(catalog, model) == catalog[at].max_context,
    decreases at,
{
    if at > 0 {
        let rest = catalog.skip(1);
        assert(!names(catalog[0], model));
        assert forall|i: int| 0 <= i < at - 1 implies !names(#[trigger] rest[i], model) by {
            assert(rest[i] == catalog[i + 1]);
        }
        lemma_window_at(rest, model, at - 1);
    }
}

/// A model that the list does not hold has no window, and the meter says nothing.
pub proof fn law_an_unknown_model_has_no_meter(session: Session)
    requires
        forall|i: int|
            0 <= i < session.catalog.len() ==> (#[trigger] session.catalog[i]).id@ != session.model
                && forall|k: int|
                0 <= k < session.catalog[i].aliases@.len() ==> (
                #[trigger] session.catalog[i].aliases@[k])@ != session.model,
    ensures
        session.meter() is None,
{
    lemma_no_window(session.catalog, session.model);
}

proof fn lemma_no_window(catalog: Seq<CatalogEntry>, model: Seq<char>)
    requires
        forall|i: int| 0 <= i < catalog.len() ==> !names(#[trigger] catalog[i], model),
    ensures
        window_of(catalog, model) is None,
    decreases catalog.len(),
{
    if catalog.len() > 0 {
        let rest = catalog.skip(1);
        assert(!names(catalog[0], model));
        assert forall|i: int| 0 <= i < rest.len() implies !names(#[trigger] rest[i], model) by {
            assert(rest[i] == catalog[i + 1]);
        }
        lemma_no_window(rest, model);
    }
}

/// The row of a model says the name it is listed under, its window in base ten,
/// or that it is unknown, and its efforts with a comma between each two, or that
/// it has none.
pub proof fn law_a_row_says_what_a_model_is(entry: CatalogEntry)
    ensures
        ({
            let window = match entry.max_context {
                Some(most) => text::decimal(most as nat),
                None => "unknown"@,
            };
            let efforts = if entry.efforts@.len() == 0 {
                "none"@
            } else {
                text::listed(text::texts(entry.efforts@), ","@)
            };
            &&& catalog_row(entry) == "[shell]   "@ + entry.preferred@ + " context="@ + window
                + " efforts="@ + efforts
            &&& text::holds(catalog_row(entry), entry.preferred@)
        }),
{
    let row = catalog_row(entry);
    let lead = "[shell]   "@;
    assert(row.subrange(lead.len() as int, (lead.len() + entry.preferred@.len()) as int)
        =~= entry.preferred@);
    assert(text::stands_at(row, entry.preferred@, lead.len() as int));
}

/// The answers only time gives are taken as they are, and a frame is asked for
/// exactly where one of them is news. The activity row is what it is said to be,
/// and a row that says the same is not a frame.
pub proof fn law_only_news_asks_for_a_frame(
    session: Session,
    queued: usize,
    armed: bool,
    row: Option<Seq<char>>,
)
    ensures
        ({
            let after = session.settles(queued, armed);
            &&& after.queued == queued
            &&& after.escape_armed == armed
            &&& after.asked.footer == (session.asked.footer || queued != session.queued || armed
                != session.escape_armed)
            &&& after.script == session.script && after.notice == session.notice
        }),
        ({
            let after = session.shows(row);
            &&& after.activity_row == row
            &&& after.asked.animation == (session.asked.animation || row != session.activity_row)
            &&& after.script == session.script && after.geometry == session.geometry
        }),
{
}

/// A band that was solved again is the band, and a frame is asked for where it is
/// another; one that could not be solved leaves the old one.
pub proof fn law_a_band_that_is_solved_is_the_band(session: Session, solved: Geometry)
    ensures
        session.refits(Some(solved)).geometry == solved,
        session.refits(Some(solved)).asked.resize == (session.asked.resize || solved
            != session.geometry),
        session.refits(None) == session,
        session.refits(Some(solved)).script == session.script,
        session.refits(Some(solved)).screen == session.screen,
{
}

/// A report of the screen's size: none that says nothing, and none of the size
/// the screen already had, changes anything. Any other is remembered. Where a band
/// fits, it is the band, the unfinished line is wrapped to the new width and a
/// frame is asked for; where none fits, the old band stays and nothing is asked.
pub proof fn law_a_resize_is_remembered(
    session: Session,
    rows: u16,
    cols: u16,
    solved: Option<Geometry>,
)
    ensures
        ({
            let after = session.resizes(rows, cols, solved);
            let news = rows > 0 && cols > 0 && (rows != session.screen.0 || cols
                != session.screen.1);
            &&& !news ==> after == session && session.resize_answer(rows, cols, solved)
                == Resize::Unchanged
            &&& news ==> after.screen == (rows, cols)
            &&& news && solved is None ==> {
                &&& after.geometry == session.geometry
                &&& after.script == session.script
                &&& after.asked == session.asked
                &&& session.resize_answer(rows, cols, solved) == Resize::TooSmall
            }
            &&& news ==> (solved matches Some(geometry) ==> {
                &&& after.geometry == geometry
                &&& after.asked.resize
                &&& after.script.paper.unfinished.cols == cols
                &&& after.script.paper.unfinished.tail == session.script.paper.unfinished.tail
                &&& after.script.paper.owed == session.script.paper.owed
                &&& after.script.held == session.script.held
                &&& after.script.tail == session.script.tail
                &&& session.resize_answer(rows, cols, solved) == Resize::Repaint(geometry)
            })
        }),
        session.blind(true),
        session.blind(false) <==> session.screen.0 != session.geometry.rows || session.screen.1
            != session.geometry.cols,
{
}

/// The caret is on the marked choice of a question that is up in the band, at
/// the left edge; otherwise it is in the composer.
pub proof fn law_the_caret_is_where_the_focus_is(
    session: Session,
    panel_row: u16,
    point: (usize, u16),
    first: usize,
)
    requires
        session.geometry.panel_first + panel_row <= u16::MAX,
    ensures
        session.panel && session.geometry.panel > 0 ==> {
            &&& session.caret(panel_row, point, first).0 == session.geometry.panel_first
                + panel_row
            &&& session.caret(panel_row, point, first).1 == 0
        },
        !session.panel ==> session.caret(panel_row, point, first) == band::composer_caret(
            session.geometry,
            point,
            first,
        ),
{
}

/// A draft whose blocks were put back is sent whole and without the white space
/// around the draft: what stands between the same white space in front of it and
/// behind it. A draft without blocks is sent as the line was read.
pub proof fn law_blocks_are_sent_in_full(
    before: Seq<char>,
    draft: Seq<char>,
    after: Seq<char>,
    expansion: Seq<char>,
    classified: Seq<char>,
)
    requires
        draft.len() > 0,
        !text::is_white(draft[0]),
        !text::is_white(draft.last()),
        forall|i: int| 0 <= i < before.len() ==> text::is_white(#[trigger] before[i]),
        forall|i: int| 0 <= i < after.len() ==> text::is_white(#[trigger] after[i]),
    ensures
        expands(before + draft + after, before + expansion + after),
        prompt_of(
            before + draft + after,
            classified,
            Some(before + expansion + after),
        ) == expansion,
        prompt_of(before + draft + after, classified, None) == classified,
{
    let text = before + draft + after;
    let whole = before + expansion + after;
    lemma_lead_is(text, before.len() as int);
    lemma_trail_is(text, after.len() as int);
    assert(whole.take(before.len() as int) =~= text.take(before.len() as int));
    assert(whole.skip(whole.len() - after.len()) =~= text.skip(text.len() - after.len()));
    assert(whole.subrange(before.len() as int, whole.len() - after.len()) =~= expansion);
}

proof fn lemma_lead_is(text: Seq<char>, count: int)
    requires
        0 <= count < text.len(),
        forall|i: int| 0 <= i < count ==> text::is_white(#[trigger] text[i]),
        !text::is_white(text[count]),
    ensures
        lead(text) == count,
    decreases count,
{
    lemma_trims(text);
    if count > 0 {
        let rest = text.skip(1);
        lemma_trims(rest);
        assert(text::is_white(text[0]));
        assert forall|i: int| 0 <= i < count - 1 implies text::is_white(#[trigger] rest[i]) by {
            assert(rest[i] == text[i + 1]);
        }
        lemma_lead_is(rest, count - 1);
    }
}

proof fn lemma_trail_is(text: Seq<char>, count: int)
    requires
        0 <= count < text.len(),
        forall|i: int| text.len() - count <= i < text.len() ==> text::is_white(#[trigger] text[i]),
        !text::is_white(text[text.len() - count - 1]),
    ensures
        trail(text) == count,
    decreases count,
{
    lemma_trims(text);
    if count > 0 {
        let rest = text.drop_last();
        lemma_trims(rest);
        assert(text::is_white(text[text.len() - 1]));
        assert forall|i: int| rest.len() - (count - 1) <= i < rest.len() implies text::is_white(
            #[trigger] rest[i],
        ) by {
            assert(rest[i] == text[i]);
        }
        lemma_trail_is(rest, count - 1);
    }
}

/// What becomes of a submitted line: a command is run and nothing else is; every
/// line but a blank one is written down among what was submitted, first of all;
/// the composer is emptied unless a prompt was refused; and what counts as
/// submitted is a command and a prompt that was taken. An empty draft submits
/// nothing.
pub proof fn law_a_line_owes_what_it_is(
    text: Seq<char>,
    submitted: Submitted,
    refusal: Option<Rejected>,
)
    ensures
        text.len() == 0 ==> submit_chores(text, submitted, refusal).len() == 0,
        text.len() > 0 ==> {
            let chores = submit_chores(text, submitted, refusal);
            let refused = submitted is Prompt && refusal is Some;
            &&& chores.len() > 0
            &&& chores.contains(Chore::RunCommand) <==> submitted is Command
            &&& chores[0] == Chore::RecordLine <==> !(submitted is Blank)
            &&& chores[0] == Chore::LeaveWalk <==> submitted is Blank
            &&& chores.contains(Chore::TakeDraft) <==> !refused
            &&& refused ==> chores.len() == 1
            &&& !refused ==> chores[1] == Chore::TakeDraft && chores[2] == Chore::ReconcileMenu
                && chores[3] == Chore::Refit
            &&& chores.contains(Chore::Submitted) <==> submitted is Command || (
            submitted is Prompt && refusal is None)
            &&& submitted is Command ==> chores.len() == 6 && chores[4] == Chore::Submitted
                && chores[5] == Chore::RunCommand
            &&& submitted is Prompt && !refused ==> chores.len() == 5
            &&& submitted is Blank || submitted is UnknownCommand ==> chores.len() == 4
        },
{
    let chores = submit_chores(text, submitted, refusal);
    if text.len() > 0 {
        assert(chores.contains(chores[0]));
        if chores.len() >= 4 {
            assert(chores.contains(chores[1]));
        }
        if submitted is Command {
            assert(chores =~= seq![
                Chore::RecordLine,
                Chore::TakeDraft,
                Chore::ReconcileMenu,
                Chore::Refit,
                Chore::Submitted,
                Chore::RunCommand,
            ]);
            assert(chores.contains(chores[4]) && chores.contains(chores[5]));
        } else if submitted is Prompt && refusal is None {
            assert(chores =~= seq![
                Chore::RecordLine,
                Chore::TakeDraft,
                Chore::ReconcileMenu,
                Chore::Refit,
                Chore::Submitted,
            ]);
            assert(chores.contains(chores[4]));
        } else if submitted is Prompt {
            assert(chores =~= seq![Chore::RecordLine]);
        } else if submitted is Blank {
            assert(chores =~= seq![
                Chore::LeaveWalk,
                Chore::TakeDraft,
                Chore::ReconcileMenu,
                Chore::Refit,
            ]);
        } else {
            assert(chores =~= seq![
                Chore::RecordLine,
                Chore::TakeDraft,
                Chore::ReconcileMenu,
                Chore::Refit,
            ]);
        }
    }
}

/// What a submitted line shows and hands over: a blank line shows nothing; a
/// command is shown as it was typed, and a line that names none is shown with
/// what is said of it behind it; neither reaches the other thread. A prompt that
/// was taken is shown, and is the next piece of work behind those that wait; one
/// that was refused is not, and nothing of the backlog moves.
pub proof fn law_only_a_prompt_is_handed_over(
    session: Session,
    text: Seq<char>,
    submitted: Submitted,
    held: worker::Held,
    expanded: Option<Seq<char>>,
    gone: bool,
)
    requires
        text.len() > 0,
    ensures
        ({
            let after = session.submits(text, submitted, held.refusal(gone));
            let work = submitted_work(held, text, submitted, expanded, gone);
            let taken = submitted is Prompt && held.refusal(gone) is None;
            &&& submitted is Blank ==> after.script == session.script
            &&& submitted is Command || taken ==> after.script == session.script.said(text)
            &&& submitted matches Submitted::UnknownCommand { refusal } ==> after.script
                == session.script.said(text).said(refusal@)
            &&& !(submitted is Prompt && !taken) ==> after.transaction == Some(
                EditTransaction::Other,
            )
            &&& submitted is Prompt && !taken ==> after.transaction == session.transaction
            &&& !taken ==> work == held
            &&& taken ==> work.waiting.len() == held.waiting.len() + 1 && work.waiting.drop_last()
                == held.waiting && work.accepted == held.accepted + 1
            &&& taken && expanded is None ==> work.waiting.last() == Errand::Submit(
                submitted->Prompt_0@,
            )
            &&& after.leaving == session.leaving && after.model == session.model
        }),
        session.submits(Seq::empty(), submitted, held.refusal(gone)) == session,
        submitted_work(held, Seq::empty(), submitted, expanded, gone) == held,
{
    let work = submitted_work(held, text, submitted, expanded, gone);
    if submitted is Prompt && held.refusal(gone) is None {
        assert(work.waiting.drop_last() =~= held.waiting);
    }
}

/// What a paste comes to: one that was refused says why on the hint row and
/// leaves the draft alone; one whose text the composer took is an edit; one that
/// collapsed into a block is that one edit, with what stands on either side of
/// it; and one that put nothing in changes nothing.
pub proof fn law_a_paste_is_one_edit_or_none(
    session: Session,
    refusal: Refusal,
    empty: bool,
    inserted: bool,
    before: String,
    after: String,
    span: Span,
)
    ensures
        ({
            let refused = session.pastes(Pasted::Refused(refusal));
            &&& refused.notice == Some(refusal)
            &&& refused.asked.footer
            &&& refused.transaction == session.transaction
            &&& refused.script == session.script
            &&& paste_chores(Pasted::Refused(refusal)).len() == 0
        }),
        ({
            let inline = session.pastes(Pasted::Inline { empty, inserted });
            &&& !empty && inserted ==> inline.transaction == Some(EditTransaction::Other)
                && paste_chores(Pasted::Inline { empty, inserted }) == seq![
                Chore::LeaveWalk,
                Chore::ReconcileMenu,
                Chore::Refit,
            ]
            &&& empty || !inserted ==> inline == session && paste_chores(
                Pasted::Inline { empty, inserted },
            ).len() == 0
        }),
        ({
            let block = session.pastes(Pasted::Collapsed { before, after, entity: Some(span) });
            &&& block.transaction == Some(
                EditTransaction::InsertPaste { before, after, entity: span },
            )
            &&& block.asked.footer
            &&& block.notice == session.notice
            &&& paste_chores(Pasted::Collapsed { before, after, entity: Some(span) }) == seq![
                Chore::LeaveWalk,
                Chore::ReconcileMenu,
                Chore::Refit,
            ]
        }),
        session.pastes(Pasted::Collapsed { before, after, entity: None }) == session,
        paste_chores(Pasted::Collapsed { before, after, entity: None }).len() == 0,
{
    assert(amended_chores() =~= seq![Chore::LeaveWalk, Chore::ReconcileMenu, Chore::Refit]);
}

/// A typed character is an edit where the composer took it, and nothing where it
/// did not. A vertical move that changed rows is a move; one that did not is a
/// step through what was submitted, and where that put no line into the composer
/// the key still asks for a frame. A lone Escape changes nothing, and the second
/// empties a composer that holds something.
pub proof fn law_a_key_that_did_nothing_changes_nothing(
    session: Session,
    recall: Recall,
    empty: bool,
)
    ensures
        session.types(true).transaction == Some(EditTransaction::Other),
        session.types(true).asked.footer,
        session.types(false) == session,
        type_chores(true) == seq![Chore::LeaveWalk, Chore::ReconcileMenu, Chore::Refit],
        type_chores(false).len() == 0,
        session.climbs(true, recall).transaction == session.transaction,
        session.climbs(true, recall).asked.footer,
        climb_chores(true, recall) == seq![Chore::ReconcileMenu, Chore::Refit],
        session.climbs(false, recall).asked.footer,
        recall is Taken ==> session.climbs(false, recall).transaction == Some(
            EditTransaction::Other,
        ) && climb_chores(false, recall) == seq![Chore::ReconcileMenu, Chore::Refit],
        recall is Nothing ==> session.climbs(false, recall).transaction == session.transaction
            && climb_chores(false, recall) == seq![Chore::ReconcileMenu, Chore::Refit],
        recall is Kept ==> session.climbs(false, recall).transaction == session.transaction
            && climb_chores(false, recall) == seq![
            Chore::LeaveWalk,
            Chore::ReconcileMenu,
            Chore::Refit,
        ],
        session.escapes(Escape::Armed, empty) == session,
        escape_chores(Escape::Armed, empty) == seq![Chore::SettleBand],
        session.escapes(Escape::Clear, true) == session,
        escape_chores(Escape::Clear, true) == seq![Chore::SettleBand],
        session.escapes(Escape::Clear, false).transaction == Some(EditTransaction::Other),
        escape_chores(Escape::Clear, false) == seq![
            Chore::TakeDraft,
            Chore::LeaveWalk,
            Chore::ReconcileMenu,
            Chore::Refit,
            Chore::SettleBand,
        ],
{
    assert(amended_chores() =~= seq![Chore::LeaveWalk, Chore::ReconcileMenu, Chore::Refit]);
    assert(escape_chores(Escape::Armed, empty) =~= seq![Chore::SettleBand]);
    assert(escape_chores(Escape::Clear, true) =~= seq![Chore::SettleBand]);
    assert(escape_chores(Escape::Clear, false) =~= seq![
        Chore::TakeDraft,
        Chore::LeaveWalk,
        Chore::ReconcileMenu,
        Chore::Refit,
        Chore::SettleBand,
    ]);
    assert(Seq::<Chore>::empty() + moved_chores() =~= seq![Chore::ReconcileMenu, Chore::Refit]);
    assert(seq![Chore::LeaveWalk] + moved_chores() =~= seq![
        Chore::LeaveWalk,
        Chore::ReconcileMenu,
        Chore::Refit,
    ]);
}

/// The menu keeps a key it made something of, and Escape also where it closed the
/// menu; any other key that closed it goes on to mean what it means everywhere
/// else. A name that was taken replaces the draft and is remembered. A menu is
/// open where the draft may have one and it was open and unchanged, or has one.
pub proof fn law_the_menu_keeps_what_it_used(action: Action, menu: bool, same: bool, opens: bool)
    ensures
        picker_keeps(action, PickerOutcome::Changed),
        picker_keeps(action, PickerOutcome::Complete),
        picker_keeps(action, PickerOutcome::Dismiss) <==> action == Action::Escape,
        picker_chores(PickerOutcome::Changed).len() == 0,
        picker_chores(PickerOutcome::Complete) == seq![
            Chore::TakeDraft,
            Chore::InsertCompletion,
            Chore::RememberDismissal,
            Chore::LeaveWalk,
            Chore::ReconcileMenu,
            Chore::Refit,
        ],
        picker_chores(PickerOutcome::Dismiss) == seq![Chore::RememberDismissal, Chore::Refit],
        !menu_after(menu, false, same, opens),
        menu_after(true, true, true, opens),
        menu_after(false, true, same, opens) == opens,
        menu_after(true, true, false, opens) == opens,
{
    assert(picker_chores(PickerOutcome::Complete) =~= seq![
        Chore::TakeDraft,
        Chore::InsertCompletion,
        Chore::RememberDismissal,
        Chore::LeaveWalk,
        Chore::ReconcileMenu,
        Chore::Refit,
    ]);
}

/// The clock of a turn begins once, where it is working and has none; it stands
/// still while a person is asked and goes on otherwise. The blink goes round its
/// phases one by one and comes back to the first.
pub proof fn law_the_clock_stands_still_for_a_question(
    working: bool,
    started: bool,
    phase: u8,
    phases: u8,
)
    requires
        phase < phases,
    ensures
        clock_chores(working, started, true).last() == Chore::FreezeClock,
        clock_chores(working, started, false).last() == Chore::ThawClock,
        clock_chores(working, started, true)[0] == Chore::BeginClock <==> working && !started,
        clock_chores(working, started, false)[0] == Chore::BeginClock <==> working && !started,
        clock_chores(working, started, true).len() <= 2,
        clock_chores(working, started, false).len() <= 2,
        next_phase(phase, false, phases) == phase,
        phase + 1 < phases ==> next_phase(phase, true, phases) == phase + 1,
        phase + 1 == phases ==> next_phase(phase, true, phases) == 0,
{
    if phase + 1 < phases {
        assert((phase + 1) % (phases as int) == phase + 1) by (nonlinear_arith)
            requires
                phase + 1 < phases,
        ;
    } else {
        assert((phase + 1) % (phases as int) == 0) by (nonlinear_arith)
            requires
                phase + 1 == phases,
        ;
    }
}

/// A session that was interrupted exits with 130, and every other with zero.
pub proof fn law_an_interrupt_is_told_by_the_exit_code(leaving: Option<Leaving>)
    ensures
        exit_code_of(leaving) == 130 <==> leaving == Some(Leaving::Interrupted),
        exit_code_of(leaving) == 0 <==> leaving != Some(Leaving::Interrupted),
{
}

/// Without a name the model is reported and its list asked for; a name with a
/// problem is told the problem and reaches nobody; the name in force is said to be
/// unchanged and reaches nobody; any other is asked for, and is the model where
/// the offer was taken.
pub proof fn law_a_model_is_asked_for_by_name(
    session: Session,
    argument: Seq<char>,
    problem: Seq<char>,
    held: worker::Held,
    gone: bool,
)
    requires
        argument.len() > 0,
    ensures
        session.uses_model(argument, Some(problem), held.refusal(gone)).model == session.model,
        session.uses_model(argument, Some(problem), held.refusal(gone)).script
            == session.script.said("xfx: "@ + problem),
        session.model_work(held, argument, Some(problem), gone) == held,
        argument == session.model ==> {
            &&& session.uses_model(argument, None, held.refusal(gone)).script
                == session.script.said("[shell] model="@ + session.model + " unchanged"@)
            &&& session.uses_model(argument, None, held.refusal(gone)).model == session.model
            &&& session.model_work(held, argument, None, gone) == held
        },
        argument != session.model && held.refusal(gone) is None ==> {
            &&& session.uses_model(argument, None, held.refusal(gone)).model == argument
            &&& session.model_work(held, argument, None, gone).waiting == held.waiting.push(
                Errand::Model(argument),
            )
        },
        argument != session.model && held.refusal(gone) is Some ==> {
            &&& session.uses_model(argument, None, held.refusal(gone)).model == session.model
            &&& session.model_work(held, argument, None, gone) == held
        },
        session.uses_model(Seq::empty(), Some(problem), held.refusal(gone)).model == session.model,
        held.refusal(gone) is None ==> session.model_work(
            held,
            Seq::empty(),
            Some(problem),
            gone,
        ).waiting == held.waiting.push(Errand::Catalog),
{
}

/// A provider that was named is handed to the other thread as it was named, where
/// it can be; a name that is no provider's is answered with how to name one, and
/// reaches nobody. Neither changes the provider yet.
pub proof fn law_a_provider_is_handed_over_as_named(
    session: Session,
    provider: ProviderId,
    usage: Seq<char>,
    held: worker::Held,
    gone: bool,
)
    ensures
        session.uses_provider(None, usage, held.refusal(gone)).script == session.script.said(usage),
        session.uses_provider(None, usage, held.refusal(gone)).provider == session.provider,
        provider_work(held, None, gone) == held,
        session.uses_provider(Some(provider), usage, held.refusal(gone)).provider
            == session.provider,
        held.refusal(gone) is None ==> {
            &&& provider_work(held, Some(provider), gone).waiting == held.waiting.push(
                Errand::Setup(provider),
            )
            &&& session.uses_provider(Some(provider), usage, None).script == session.script.said(
                "[shell] setting up "@ + provider.name(),
            )
        },
        held.refusal(gone) is Some ==> provider_work(held, Some(provider), gone) == held,
{
}

/// Every refusal says what was refused in its own words.
pub proof fn law_a_refusal_has_its_own_words(refusal: Refusal)
    ensures
        refusal == Refusal::Queue ==> refusal.words()
            == "one prompt is already queued; this one was not sent"@,
        refusal == Refusal::PasteSize ==> refusal.words()
            == "that paste is larger than 8 MiB; nothing was taken"@,
        refusal == Refusal::PasteNumber ==> refusal.words()
            == "this session has no paste numbers left; nothing was taken"@,
        refusal == Refusal::RecallNumber ==> refusal.words()
            == "no paste numbers left; the recalled blocks are words now"@,
{
}

/// Settling the band settles the activity row before the stream is paced, and a
/// band is solved again exactly where the activity row came or went. What is
/// released of the answer goes into the document and changes nothing else.
pub proof fn law_the_band_is_settled_in_order(
    session: Session,
    one: Seq<char>,
    other: Seq<char>,
    reopen: Seq<char>,
    count: nat,
)
    ensures
        settle_chores().len() == 2,
        settle_chores()[0] == Chore::TickActivity && settle_chores()[1] == Chore::Pace,
        activity_chores(None, Some(one)) == seq![Chore::Refit],
        activity_chores(Some(one), None) == seq![Chore::Refit],
        activity_chores(Some(one), Some(other)).len() == 0,
        activity_chores(None, None).len() == 0,
        session.releases(reopen, count).script == session.script.released(reopen, count),
        session.releases(reopen, count).asked == session.asked,
        session.releases(reopen, count).geometry == session.geometry,
{
}

/// What is owed is taken whole, and what was not made is owed again, in front of
/// what was owed since: to take and give back at once changes nothing.
pub proof fn law_what_was_not_made_is_owed_again(
    session: Session,
    untried: Seq<Owed>,
    since: Seq<Owed>,
)
    ensures
        session.delivers().script.paper.owed.len() == 0,
        session.delivers().script.held == session.script.held,
        session.delivers().script.paper.unfinished == session.script.paper.unfinished,
        session.delivers().asked == session.asked,
        session.delivers().restores(session.script.paper.owed).script.paper.owed
            == session.script.paper.owed,
        session.script.paper.owed == since ==> session.restores(untried).script.paper.owed
            == untried + since,
        session.restores(untried).script.paper.unfinished == session.script.paper.unfinished,
        session.restores(untried).script.tail == session.script.tail,
        session.restores(untried).asked == session.asked,
{
    assert(session.script.paper.owed + Seq::<Owed>::empty() =~= session.script.paper.owed);
}

/// The hint row is made of what the session is: it warns of a second Escape
/// exactly where one would clear the composer, shows a refusal exactly where one
/// stands, in its words, and counts what waits.
pub proof fn law_the_hint_row_says_what_is_so(session: Session, hint: Hint)
    requires
        session.hinted(hint),
    ensures
        hint.right is Some <==> session.escape_armed,
        session.notice matches Some(refusal) ==> (hint.notice matches Some(notice) && notice.text@
            == refusal.words()),
        session.notice is None ==> hint.notice is None,
        hint.queued == session.queued,
        hint.model@ == session.model && hint.mode@ == session.mode,
        hint.context_used == session.meter(),
        hint.missing_credential == session.missing_credential,
{
}

/// A plane of its own shows its question and the caret in it where a question is
/// on it, and nothing where none is.
pub proof fn law_an_empty_plane_shows_nothing(rows: Seq<String>, caret: (u16, u16))
    ensures
        plane_rows(true, rows) == rows,
        plane_rows(false, rows).len() == 0,
        plane_caret(true, caret) == caret,
        plane_caret(false, caret) == (1u16, 0u16),
{
}

} // verus!
