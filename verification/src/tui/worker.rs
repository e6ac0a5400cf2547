//! The thread that runs turns: its queue, its control messages, and how it ends.
//!
//! One turn runs at a time and one prompt may wait behind it. The count that
//! refuses a third submission is the count the screen shows, so the row and the
//! rule cannot drift apart. An interrupt names how many submissions had been
//! made when the key was pressed, and drops what is waiting up to there and not
//! a prompt typed afterwards.

use vstd::prelude::*;

use crate::text;
use crate::tui::bridge::{Errand, ProviderId, TurnControl, TurnWork, UiEvent};
use crate::workspace::context::{ProjectContext, Section};
use crate::workspace::path;

verus! {

/// How long a session that is leaving waits for the last turn's conclusion.
pub const DRAIN_DEADLINE_MILLIS: u64 = 2000;

/// How long it then waits for the thread itself.
pub const JOIN_GRACE_MILLIS: u64 = 250;

/// How long it sleeps between two looks.
pub const DRAIN_POLL_MILLIS: u64 = 2;

/// What the thread is called.
pub const THREAD_NAME: &'static str = "xfx-turn";

/// What a session says that could not start the thread's runtime.
pub const NO_RUNTIME: &'static str = "xfx cannot start the async runtime, so no turn can run";

/// What is said of a panic that carried no text.
pub const UNKNOWN_PANIC: &'static str = "a turn panicked with a payload that is not text";

/// How many submissions may be unfinished: one running and one waiting.
pub const WORK_LIMIT: usize = 2;

/// Why a submission was not taken.
#[derive(Debug, Clone, Copy, PartialEq, Eq, Structural)]
pub enum Rejected {
    /// The queue is full.
    Busy,
    /// Nobody is there to take it.
    Gone,
}

/// The work a session has submitted and not finished.
pub struct Backlog {
    waiting: Vec<TurnWork>,
    outstanding: usize,
    accepted: usize,
}

/// [`Backlog`] in mathematical terms.
pub struct Held {
    /// What nobody has begun, oldest first.
    pub waiting: Seq<Errand>,
    /// How many submissions are unfinished, waiting or begun.
    pub outstanding: nat,
    /// How many submissions have been taken, ever.
    pub accepted: nat,
}

/// What pieces of work say.
pub open spec fn errands(waiting: Seq<TurnWork>) -> Seq<Errand> {
    waiting.map_values(|work: TurnWork| work@)
}

impl View for Backlog {
    type V = Held;

    closed spec fn view(&self) -> Held {
        Held {
            waiting: errands(self.waiting@),
            outstanding: self.outstanding as nat,
            accepted: self.accepted as nat,
        }
    }
}

impl Held {
    /// Nothing waits that is not counted, and no more is held than may be.
    pub open spec fn well_formed(self) -> bool {
        &&& self.waiting.len() <= self.outstanding <= WORK_LIMIT
        &&& self.waiting.len() <= self.accepted <= usize::MAX
    }

    /// How many submissions have been begun or dropped, ever.
    pub open spec fn taken(self) -> int {
        self.accepted - self.waiting.len()
    }

    /// How many submissions have been begun and not finished.
    pub open spec fn running(self) -> int {
        self.outstanding - self.waiting.len()
    }

    /// Why a submission would not be taken, if it would not.
    pub open spec fn refusal(self, gone: bool) -> Option<Rejected> {
        if gone {
            Some(Rejected::Gone)
        } else if self.outstanding >= WORK_LIMIT {
            Some(Rejected::Busy)
        } else {
            None
        }
    }

    /// The backlog once `work` has been offered.
    pub open spec fn offered(self, work: Errand, gone: bool) -> Held {
        if self.refusal(gone) is Some {
            self
        } else {
            Held {
                waiting: self.waiting.push(work),
                outstanding: self.outstanding + 1,
                accepted: self.accepted + 1,
            }
        }
    }

    /// The backlog once the oldest waiting item has been begun.
    pub open spec fn begun(self) -> Held {
        if self.waiting.len() == 0 {
            self
        } else {
            Held { waiting: self.waiting.skip(1), ..self }
        }
    }

    /// How many waiting items are among the first `through` submissions.
    pub open spec fn droppable(self, through: nat) -> nat {
        if through <= self.taken() {
            0
        } else if through - self.taken() >= self.waiting.len() {
            self.waiting.len()
        } else {
            (through - self.taken()) as nat
        }
    }

    /// The backlog once what waits among the first `through` submissions has
    /// been dropped.
    pub open spec fn abandoned(self, through: nat) -> Held {
        Held {
            waiting: self.waiting.skip(self.droppable(through) as int),
            outstanding: (self.outstanding - self.droppable(through)) as nat,
            accepted: self.accepted,
        }
    }

    /// The backlog once a piece of work that was begun is over.
    pub open spec fn finished(self) -> Held {
        Held { outstanding: (self.outstanding - 1) as nat, ..self }
    }

    /// How many submissions wait behind the one in hand.
    pub open spec fn queued(self) -> nat {
        if self.outstanding == 0 {
            0
        } else {
            (self.outstanding - 1) as nat
        }
    }
}

/// What a session is told of a submission.
pub open spec fn verdict(refusal: Option<Rejected>) -> Result<(), Rejected> {
    match refusal {
        Some(why) => Err(why),
        None => Ok(()),
    }
}

impl Backlog {
    /// A session that has submitted nothing.
    pub fn new() -> (backlog: Self)
        ensures
            backlog@ == (Held { waiting: Seq::empty(), outstanding: 0, accepted: 0 }),
            backlog@.well_formed(),
    {
        let backlog = Backlog { waiting: Vec::new(), outstanding: 0, accepted: 0 };
        proof {
            assert(errands(backlog.waiting@) =~= Seq::empty());
        }
        backlog
    }

    /// Offers a piece of work. `gone` says that the thread that would take it
    /// is not there, and is asked before the count: a thread that died in the
    /// middle of a turn is gone rather than busy for ever. A refusal leaves
    /// everything as it was.
    pub fn submit(&mut self, work: TurnWork, gone: bool) -> (taken: Result<(), Rejected>)
        requires
            old(self)@.well_formed(),
            old(self)@.accepted < usize::MAX,
        ensures
            final(self)@ == old(self)@.offered(work@, gone),
            taken == verdict(old(self)@.refusal(gone)),
            final(self)@.well_formed(),
    {
        if gone {
            return Err(Rejected::Gone);
        }
        if self.outstanding >= WORK_LIMIT {
            return Err(Rejected::Busy);
        }
        self.waiting.push(work);
        self.outstanding = self.outstanding + 1;
        self.accepted = self.accepted + 1;
        proof {
            assert(errands(self.waiting@) =~= errands(old(self).waiting@).push(work@));
        }
        Ok(())
    }

    /// How many submissions have been taken, ever.
    pub fn accepted(&self) -> (count: usize)
        ensures
            count == self@.accepted,
    {
        self.accepted
    }

    /// How many submissions are unfinished.
    pub fn outstanding(&self) -> (count: usize)
        ensures
            count == self@.outstanding,
    {
        self.outstanding
    }

    /// How many submissions wait behind the one in hand.
    pub fn queued(&self) -> (count: usize)
        ensures
            count == self@.queued(),
    {
        self.outstanding.saturating_sub(1)
    }

    /// Takes the oldest waiting item, which is where its work begins.
    pub fn took(&mut self) -> (item: Option<TurnWork>)
        requires
            old(self)@.well_formed(),
        ensures
            final(self)@ == old(self)@.begun(),
            match item {
                Some(work) => old(self)@.waiting.len() > 0 && work@ == old(self)@.waiting[0],
                None => old(self)@.waiting.len() == 0,
            },
            final(self)@.well_formed(),
    {
        proof {
            assert(errands(self.waiting@).len() == self.waiting@.len());
        }
        if self.waiting.len() == 0 {
            return None;
        }
        let item: TurnWork = self.waiting.remove(0);
        proof {
            assert(errands(self.waiting@) =~= errands(old(self).waiting@).skip(1));
        }
        Some(item)
    }

    /// Drops what waits among the first `through` submissions, and says how
    /// much that was.
    pub fn abandon(&mut self, through: usize) -> (dropped: usize)
        requires
            old(self)@.well_formed(),
        ensures
            final(self)@ == old(self)@.abandoned(through as nat),
            dropped == old(self)@.droppable(through as nat),
            final(self)@.well_formed(),
    {
        let ghost before = self@;
        let mut dropped: usize = 0;
        proof {
            assert(errands(self.waiting@) =~= before.waiting.skip(0));
            assert(errands(self.waiting@).len() == self.waiting@.len());
        }
        while self.waiting.len() > 0 && self.accepted - self.waiting.len() < through
            invariant
                before.well_formed(),
                dropped <= before.droppable(through as nat),
                errands(self.waiting@) == before.waiting.skip(dropped as int),
                self.outstanding == before.outstanding - dropped,
                self.accepted == before.accepted,
                self.waiting@.len() <= self.outstanding,
                self.waiting@.len() <= self.accepted,
                dropped + self.waiting@.len() == before.waiting.len(),
            decreases self.waiting@.len(),
        {
            let ghost left = self.waiting@;
            self.waiting.remove(0);
            self.outstanding = self.outstanding - 1;
            dropped = dropped + 1;
            proof {
                assert(errands(self.waiting@) =~= errands(left).skip(1));
                assert(errands(self.waiting@) =~= before.waiting.skip(dropped as int));
            }
        }
        dropped
    }

    /// Gives back the place of a piece of work that was begun and is over.
    pub fn finish(&mut self)
        requires
            old(self)@.well_formed(),
            old(self)@.running() > 0,
        ensures
            final(self)@ == old(self)@.finished(),
            final(self)@.well_formed(),
    {
        self.outstanding = self.outstanding - 1;
    }
}

/// A refused submission changes nothing, so the next one meets the same
/// backlog.
pub proof fn law_a_refusal_costs_nothing(before: Held, work: Errand, gone: bool)
    requires
        before.well_formed(),
        before.refusal(gone) is Some,
    ensures
        before.offered(work, gone) == before,
{
}

/// An idle session takes two submissions in a row whatever the other thread has
/// picked up by then, and refuses the third until one of them is over.
pub proof fn law_two_are_taken_and_the_third_is_refused(
    before: Held,
    first: Errand,
    second: Errand,
    third: Errand,
    picked_up: bool,
)
    requires
        before.well_formed(),
        before.outstanding == 0,
        before.accepted + 2 <= usize::MAX,
    ensures
        before.refusal(false) is None,
        ({
            let one = before.offered(first, false);
            let between = if picked_up {
                one.begun()
            } else {
                one
            };
            let two = between.offered(second, false);
            &&& between.refusal(false) is None
            &&& two.queued() == 1
            &&& two.refusal(false) == Some(Rejected::Busy)
            &&& two.offered(third, false) == two
            &&& two.begun().finished().refusal(false) is None
        }),
{
}

/// Work is begun in the order it was submitted in, and none is lost on the way.
pub proof fn law_work_is_begun_in_order(before: Held, work: Errand)
    requires
        before.well_formed(),
        before.refusal(false) is None,
    ensures
        ({
            let after = before.offered(work, false);
            &&& after.waiting[0] == (if before.waiting.len() == 0 {
                work
            } else {
                before.waiting[0]
            })
            &&& after.begun().waiting == (if before.waiting.len() == 0 {
                Seq::empty()
            } else {
                before.begun().waiting.push(work)
            })
        }),
{
    let after = before.offered(work, false);
    if before.waiting.len() == 0 {
        assert(after.waiting.skip(1) =~= Seq::empty());
    } else {
        assert(after.waiting.skip(1) =~= before.waiting.skip(1).push(work));
    }
}

/// An interrupt that quotes the submissions made so far empties the queue,
/// gives every place of it back, and leaves alone what was begun and what is
/// submitted after it.
pub proof fn law_an_interrupt_stops_at_the_keystroke(before: Held, later: Errand)
    requires
        before.well_formed(),
        before.accepted < usize::MAX,
        before.refusal(false) is None,
    ensures
        ({
            let dropped = before.abandoned(before.accepted);
            &&& dropped.waiting.len() == 0
            &&& dropped.running() == before.running()
            &&& dropped.outstanding == before.running()
        }),
        ({
            let typed = before.offered(later, false);
            let dropped = typed.abandoned(before.accepted);
            &&& dropped.waiting == seq![later]
            &&& dropped.running() == before.running()
        }),
{
    let typed = before.offered(later, false);
    assert(typed.droppable(before.accepted) == before.waiting.len());
    assert(typed.waiting.skip(before.waiting.len() as int) =~= seq![later]);
}

/// What a message that arrives between two pieces of work asks for.
#[derive(Debug, Clone, Copy, PartialEq, Eq, Structural)]
pub enum Heard {
    /// The session is over.
    Return,
    /// Drop what waits among the first so many submissions.
    Abandon(usize),
    /// Nothing: it answers a question nobody asked.
    Nothing,
}

/// What a control message asks for between two pieces of work.
pub open spec fn asks_for(message: Option<TurnControl>) -> Heard {
    match message {
        Some(TurnControl::Shutdown) => Heard::Return,
        None => Heard::Return,
        Some(TurnControl::Cancel { through }) => Heard::Abandon(through),
        Some(TurnControl::Answer(_)) => Heard::Nothing,
    }
}

/// What a control message asks for between two pieces of work. A channel with
/// nobody at the other end (`None`) is a shutdown.
pub fn heard(message: Option<TurnControl>) -> (heard: Heard)
    ensures
        heard == asks_for(message),
        heard == (match message {
            Some(TurnControl::Shutdown) => Heard::Return,
            None => Heard::Return,
            Some(TurnControl::Cancel { through }) => Heard::Abandon(through),
            Some(TurnControl::Answer(_)) => Heard::Nothing,
        }),
{
    match message {
        Some(TurnControl::Shutdown) => Heard::Return,
        None => Heard::Return,
        Some(TurnControl::Cancel { through }) => Heard::Abandon(through),
        Some(TurnControl::Answer(_)) => Heard::Nothing,
    }
}

/// How far an ending reaches.
#[derive(Debug, Clone, Copy, PartialEq, Eq, Structural)]
pub enum Ended {
    /// This turn.
    Turn,
    /// The session.
    Session,
}

/// A running turn, and the control messages it is raced against.
#[derive(Debug, Clone, Copy, PartialEq, Eq, Structural)]
pub struct Race {
    /// How far the ending will reach.
    pub ended: Ended,
    /// Whether anybody can still send a message.
    pub listening: bool,
}

/// How many submissions a message stops a running turn and its queue through, if
/// it stops any.
pub open spec fn stops_through(message: Option<TurnControl>) -> Option<usize> {
    match message {
        Some(TurnControl::Cancel { through }) => Some(through),
        Some(TurnControl::Shutdown) => Some(usize::MAX),
        Some(TurnControl::Answer(_)) => None,
        None => Some(usize::MAX),
    }
}

impl Race {
    /// The race once a message has arrived.
    pub open spec fn after(self, message: Option<TurnControl>) -> Race {
        match message {
            Some(TurnControl::Shutdown) => Race { ended: Ended::Session, ..self },
            None => Race { ended: Ended::Session, listening: false },
            _ => self,
        }
    }

    /// A turn that has just begun.
    pub fn new() -> (race: Self)
        ensures
            race == (Race { ended: Ended::Turn, listening: true }),
    {
        Race { ended: Ended::Turn, listening: true }
    }

    /// What a message does to a turn that is still running: the number of
    /// submissions the turn and its queue are stopped through, or nothing.
    ///
    /// A shutdown, and a channel with nobody at the other end, stop everything.
    /// Such a channel answers at once and for ever, so it is not listened to
    /// again.
    pub fn hear(&mut self, message: Option<TurnControl>) -> (stop: Option<usize>)
        requires
            old(self).listening,
        ensures
            stop == stops_through(message),
            *final(self) == old(self).after(message),
            stop == (match message {
                Some(TurnControl::Cancel { through }) => Some(through),
                Some(TurnControl::Shutdown) => Some(usize::MAX),
                Some(TurnControl::Answer(_)) => None,
                None => Some(usize::MAX),
            }),
    {
        match message {
            Some(TurnControl::Cancel { through }) => Some(through),
            Some(TurnControl::Shutdown) => {
                self.ended = Ended::Session;
                Some(usize::MAX)
            },
            Some(TurnControl::Answer(_)) => None,
            None => {
                self.listening = false;
                self.ended = Ended::Session;
                Some(usize::MAX)
            },
        }
    }
}

/// The race after every message of `messages` has arrived in turn.
pub open spec fn raced(start: Race, messages: Seq<Option<TurnControl>>) -> Race
    decreases messages.len(),
{
    if messages.len() == 0 {
        start
    } else {
        raced(start, messages.drop_last()).after(messages.last())
    }
}

/// A turn ends the session behind it if and only if a shutdown, or the end of
/// the channel, was among the messages it was raced against.
pub proof fn law_only_a_shutdown_ends_the_session(messages: Seq<Option<TurnControl>>)
    ensures
        (raced(Race { ended: Ended::Turn, listening: true }, messages).ended == Ended::Session)
            <==> (exists|i: int|
            0 <= i < messages.len() && (#[trigger] messages[i] is None || messages[i] == Some(
                TurnControl::Shutdown,
            ))),
    decreases messages.len(),
{
    let start = Race { ended: Ended::Turn, listening: true };
    if messages.len() > 0 {
        let rest = messages.drop_last();
        law_only_a_shutdown_ends_the_session(rest);
        if raced(start, rest).ended == Ended::Session {
            let i = choose|i: int|
                0 <= i < rest.len() && (#[trigger] rest[i] is None || rest[i] == Some(
                    TurnControl::Shutdown,
                ));
            assert(messages[i] == rest[i]);
        } else if messages.last() is None || messages.last() == Some(TurnControl::Shutdown) {
            assert(messages[messages.len() - 1] == messages.last());
        } else {
            assert forall|i: int| 0 <= i < messages.len() implies !(#[trigger] messages[i] is None
                || messages[i] == Some(TurnControl::Shutdown)) by {
                if i < rest.len() {
                    assert(rest[i] == messages[i]);
                }
            }
        }
    }
}

/// What a panic carried.
#[derive(Debug, Clone, PartialEq, Eq)]
pub enum Payload {
    Text(String),
    Other,
}

/// What is said of a panic.
pub open spec fn panic_words(payload: Payload) -> Seq<char> {
    match payload {
        Payload::Text(text) => text@,
        Payload::Other => UNKNOWN_PANIC@,
    }
}

/// What is said of a panic: its own words where it had any.
pub fn panic_message(payload: Payload) -> (message: String)
    ensures
        message@ == panic_words(payload),
{
    match payload {
        Payload::Text(text) => text,
        Payload::Other => UNKNOWN_PANIC.to_owned(),
    }
}

/// How the body of a turn came to an end.
#[derive(Debug, Clone, PartialEq, Eq)]
pub enum Caught {
    /// It returned, with a word on why where it failed.
    Returned(Option<String>),
    /// It panicked.
    Panicked(Payload),
}

/// Whether an event and a reach are how a turn concludes.
pub open spec fn is_conclusion(caught: Caught, race: Race, conclusion: (UiEvent, Ended)) -> bool {
    match caught {
        Caught::Returned(failure) => conclusion == (UiEvent::TurnEnded { failure }, race.ended),
        Caught::Panicked(payload) => {
            &&& conclusion.0 matches UiEvent::Fatal(message) && message@ == panic_words(payload)
            &&& conclusion.1 == Ended::Session
        },
    }
}

/// The one event that concludes a turn, and how far the ending reaches: a turn
/// that panicked takes the session with it.
pub fn concluded(caught: Caught, race: Race) -> (conclusion: (UiEvent, Ended))
    ensures
        is_conclusion(caught, race, conclusion),
        conclusion.0.concludes(),
        match caught {
            Caught::Returned(failure) => conclusion == (UiEvent::TurnEnded { failure }, race.ended),
            Caught::Panicked(payload) => {
                &&& conclusion.0 matches UiEvent::Fatal(message) && message@ == panic_words(payload)
                &&& conclusion.1 == Ended::Session
            },
        },
{
    match caught {
        Caught::Returned(failure) => (UiEvent::TurnEnded { failure }, race.ended),
        Caught::Panicked(payload) => (UiEvent::Fatal(panic_message(payload)), Ended::Session),
    }
}

/// How the steps of a turn went.
#[derive(Debug, Clone, PartialEq, Eq)]
pub enum Outcome {
    /// No provider, or no conversation, could be had.
    NotReady(String),
    /// The turn ran, and the recorder has this to say about what it wrote.
    Ran { recorder: Option<String> },
    /// The turn failed.
    Failed(String),
}

/// Why a turn failed, in the words the user is given.
pub open spec fn failure_words(outcome: Outcome) -> Option<Seq<char>> {
    match outcome {
        Outcome::NotReady(message) => Some(message@),
        Outcome::Ran { recorder: Some(problem) } => Some("xfx: "@ + problem@),
        Outcome::Ran { recorder: None } => None,
        Outcome::Failed(message) => Some(message@),
    }
}

/// Why a turn failed, if it did. A turn that ran and could not be recorded is
/// one that failed.
pub fn turn_failure(outcome: Outcome) -> (failure: Option<String>)
    ensures
        match failure {
            Some(words) => failure_words(outcome) == Some(words@),
            None => failure_words(outcome) is None,
        },
{
    match outcome {
        Outcome::NotReady(message) => Some(message),
        Outcome::Ran { recorder } => match recorder {
            Some(problem) => {
                let mut words: String = "xfx: ".to_owned();
                words.append(problem.as_str());
                Some(words)
            },
            None => None,
        },
        Outcome::Failed(message) => Some(message),
    }
}

/// What a turn records about the project context it was given: where each
/// section came from, and how many bytes there are.
pub fn context_record(context: &ProjectContext) -> (record: (Vec<String>, u64))
    ensures
        record.0@.len() == context@.sections.len(),
        forall|i: int|
            0 <= i < record.0@.len() ==> (#[trigger] record.0@[i])@ == path::lossy(
                context@.sections[i].source.bytes(),
            ),
        record.1 == context@.total_bytes,
{
    let sources: Vec<&path::Location> = context.sources();
    let ghost places = sources@.map_values(|source: &path::Location| source@);
    let ghost told = context@.sections.map_values(|section: Section| section.source);
    proof {
        assert(places == told);
        assert(told.len() == context@.sections.len());
        assert(forall|i: int| 0 <= i < told.len() ==> told[i] == context@.sections[i].source);
    }
    let mut shown: Vec<String> = Vec::new();
    let mut at: usize = 0;
    while at < sources.len()
        invariant
            at <= sources@.len(),
            shown@.len() == at,
            places == sources@.map_values(|source: &path::Location| source@),
            forall|i: int|
                0 <= i < at ==> (#[trigger] shown@[i])@ == path::lossy(places[i].bytes()),
        decreases sources@.len() - at,
    {
        let text: String = sources[at].display();
        proof {
            assert(places[at as int] == sources@[at as int]@);
        }
        shown.push(text);
        at = at + 1;
    }
    (shown, context.total_bytes() as u64)
}

/// What the thread that runs turns keeps between them.
pub struct Runtime {
    model: String,
    provider: bool,
    conversation: bool,
}

/// [`Runtime`] in mathematical terms.
pub struct Engine {
    /// The model the next turn talks to.
    pub model: Seq<char>,
    /// Whether a provider has been built.
    pub provider: bool,
    /// Whether a conversation is open.
    pub conversation: bool,
}

impl View for Runtime {
    type V = Engine;

    closed spec fn view(&self) -> Engine {
        Engine { model: self.model@, provider: self.provider, conversation: self.conversation }
    }
}

/// What a turn needs before it can run.
#[derive(Debug, Clone, Copy, PartialEq, Eq, Structural)]
pub enum Need {
    Provider,
    Conversation,
    Nothing,
}

/// What the thread does about a piece of work.
#[derive(Debug, Clone, PartialEq, Eq)]
pub enum Job {
    /// Write the model down in the open conversation.
    Record(String),
    /// Let go of the open conversation, if there is one.
    Forget,
    /// Nothing more: the work is done.
    Done,
    /// Run a turn about this prompt.
    Turn(String),
    /// Switch to this provider.
    Setup(ProviderId),
    /// Load the list of models.
    Catalog,
}

impl Engine {
    /// What a turn needs next: a provider first, then a conversation.
    pub open spec fn needs(self) -> Need {
        if !self.provider {
            Need::Provider
        } else if !self.conversation {
            Need::Conversation
        } else {
            Need::Nothing
        }
    }

    /// The runtime once what was needed has been had.
    pub open spec fn with(self, need: Need) -> Engine {
        match need {
            Need::Provider => Engine { provider: true, ..self },
            Need::Conversation => Engine { conversation: true, ..self },
            Need::Nothing => self,
        }
    }

    /// The runtime once a piece of work has been picked up.
    pub open spec fn turned_to(self, work: Errand) -> Engine {
        match work {
            Errand::Model(name) => Engine { model: name, ..self },
            Errand::New => Engine { conversation: false, ..self },
            _ => self,
        }
    }

    /// What is to be done about a piece of work.
    pub open spec fn is_job_for(self, work: Errand, job: Job) -> bool {
        match work {
            Errand::Model(name) => if name == self.model || !self.conversation {
                job == Job::Done
            } else {
                job matches Job::Record(model) && model@ == name
            },
            Errand::New => job == Job::Forget,
            Errand::Submit(prompt) => job matches Job::Turn(words) && words@ == prompt,
            Errand::Setup(provider) => job == Job::Setup(provider),
            Errand::Catalog => job == Job::Catalog,
        }
    }
}

/// What the thread does next.
#[derive(Debug, Clone, PartialEq, Eq)]
pub enum Next {
    /// End.
    Return,
    /// Wait for the next message or the next piece of work.
    Wait,
    /// Do this, and then give its place back.
    Do(Job),
}

impl Runtime {
    /// A thread that has run nothing.
    pub fn new(model: String) -> (runtime: Self)
        ensures
            runtime@ == (Engine { model: model@, provider: false, conversation: false }),
    {
        Runtime { model, provider: false, conversation: false }
    }

    /// The model the next turn talks to.
    pub fn model(&self) -> (model: &str)
        ensures
            model@ == self@.model,
    {
        self.model.as_str()
    }

    /// What a turn needs next. A turn that could not be given it has failed,
    /// and the one after it asks again.
    pub fn ready(&self) -> (need: Need)
        ensures
            need == self@.needs(),
    {
        if !self.provider {
            Need::Provider
        } else if !self.conversation {
            Need::Conversation
        } else {
            Need::Nothing
        }
    }

    /// What was needed has been had.
    pub fn given(&mut self, need: Need)
        ensures
            final(self)@ == old(self)@.with(need),
            final(self)@ == (match need {
                Need::Provider => Engine { provider: true, ..old(self)@ },
                Need::Conversation => Engine { conversation: true, ..old(self)@ },
                Need::Nothing => old(self)@,
            }),
    {
        match need {
            Need::Provider => {
                self.provider = true;
            },
            Need::Conversation => {
                self.conversation = true;
            },
            Need::Nothing => {},
        }
    }

    /// Talks to `name` from the next turn on, and says what an open
    /// conversation is to write down: nothing where the model is the one
    /// already in force.
    pub fn use_model(&mut self, name: String) -> (recorded: Option<String>)
        ensures
            final(self)@ == (Engine { model: name@, ..old(self)@ }),
            match recorded {
                Some(model) => model@ == name@ && name@ != old(self)@.model
                    && old(self)@.conversation,
                None => name@ == old(self)@.model || !old(self)@.conversation,
            },
    {
        if text::same(name.as_str(), self.model.as_str()) {
            return None;
        }
        self.model = name;
        if self.conversation {
            return Some(self.model.clone());
        }
        None
    }

    /// What is to be done about a piece of work.
    pub fn turn_to(&mut self, work: TurnWork) -> (job: Job)
        ensures
            final(self)@ == old(self)@.turned_to(work@),
            old(self)@.is_job_for(work@, job),
    {
        match work {
            TurnWork::Model(name) => match self.use_model(name) {
                Some(model) => Job::Record(model),
                None => Job::Done,
            },
            TurnWork::New => {
                self.conversation = false;
                Job::Forget
            },
            TurnWork::Submit(prompt) => Job::Turn(prompt),
            TurnWork::Setup(provider) => Job::Setup(provider),
            TurnWork::Catalog => Job::Catalog,
        }
    }

    /// One step of the thread between two pieces of work. A message that has
    /// arrived (`Some`, holding `None` where nobody can send one any more) is
    /// heard before any work is begun.
    pub fn step(&mut self, backlog: &mut Backlog, message: Option<Option<TurnControl>>) -> (next:
        Next)
        requires
            old(backlog)@.well_formed(),
        ensures
            final(backlog)@.well_formed(),
            match message {
                Some(None) | Some(Some(TurnControl::Shutdown)) => {
                    &&& next == Next::Return
                    &&& final(self)@ == old(self)@
                    &&& final(backlog)@ == old(backlog)@
                },
                Some(Some(TurnControl::Cancel { through })) => {
                    &&& next == Next::Wait
                    &&& final(self)@ == old(self)@
                    &&& final(backlog)@ == old(backlog)@.abandoned(through as nat)
                },
                Some(Some(TurnControl::Answer(_))) => {
                    &&& next == Next::Wait
                    &&& final(self)@ == old(self)@
                    &&& final(backlog)@ == old(backlog)@
                },
                None => if old(backlog)@.waiting.len() == 0 {
                    &&& next == Next::Wait
                    &&& final(self)@ == old(self)@
                    &&& final(backlog)@ == old(backlog)@
                } else {
                    let work = old(backlog)@.waiting[0];
                    &&& next matches Next::Do(job) && old(self)@.is_job_for(work, job)
                    &&& final(self)@ == old(self)@.turned_to(work)
                    &&& final(backlog)@ == old(backlog)@.begun()
                    &&& final(backlog)@.running() > 0
                },
            },
    {
        match message {
            Some(said) => match heard(said) {
                Heard::Return => Next::Return,
                Heard::Abandon(through) => {
                    backlog.abandon(through);
                    Next::Wait
                },
                Heard::Nothing => Next::Wait,
            },
            None => match backlog.took() {
                Some(work) => Next::Do(self.turn_to(work)),
                None => Next::Wait,
            },
        }
    }
}

/// What a look at the event channel found.
#[derive(Debug, Clone, Copy, PartialEq, Eq, Structural)]
pub enum Received {
    /// An event, which concludes a turn or does not.
    Event { concludes: bool },
    /// Nobody can send one any more.
    Disconnected,
    /// None, and the deadline has passed or has not.
    Empty { late: bool },
}

/// What a session that is leaving does after such a look.
#[derive(Debug, Clone, Copy, PartialEq, Eq, Structural)]
pub enum Drain {
    /// Look again.
    Again,
    /// Sleep, and look again.
    Sleep,
    /// Stop looking.
    Close,
}

/// What follows a look.
pub open spec fn drain_after(received: Received) -> Drain {
    match received {
        Received::Event { concludes } => if concludes {
            Drain::Close
        } else {
            Drain::Again
        },
        Received::Disconnected => Drain::Close,
        Received::Empty { late } => if late {
            Drain::Close
        } else {
            Drain::Sleep
        },
    }
}

/// What a session that is leaving does after a look at the event channel: it
/// stops at the event that concludes the turn, at a channel nobody can send on,
/// and at an empty one once the deadline has passed. An event that has arrived
/// is taken however late it is.
pub fn drained(received: Received) -> (drain: Drain)
    ensures
        drain == drain_after(received),
{
    match received {
        Received::Event { concludes } => if concludes {
            Drain::Close
        } else {
            Drain::Again
        },
        Received::Disconnected => Drain::Close,
        Received::Empty { late } => if late {
            Drain::Close
        } else {
            Drain::Sleep
        },
    }
}

/// How many of `looks` a session that is leaving takes.
pub open spec fn looks_taken(looks: Seq<Received>) -> nat
    decreases looks.len(),
{
    if looks.len() == 0 {
        0
    } else if drain_after(looks[0]) == Drain::Close {
        1
    } else {
        1 + looks_taken(looks.skip(1))
    }
}

/// The drain ends with the first look that ends it: nothing behind the event
/// that concludes the turn is taken, and nothing in front of it is left.
pub proof fn law_the_drain_ends_at_the_conclusion(looks: Seq<Received>, last: int)
    requires
        0 <= last < looks.len(),
        drain_after(looks[last]) == Drain::Close,
        forall|i: int| 0 <= i < last ==> drain_after(#[trigger] looks[i]) != Drain::Close,
    ensures
        looks_taken(looks) == last + 1,
    decreases last,
{
    if last > 0 {
        let rest = looks.skip(1);
        assert(drain_after(looks[0]) != Drain::Close);
        assert forall|i: int| 0 <= i < last - 1 implies drain_after(#[trigger] rest[i])
            != Drain::Close by {
            assert(rest[i] == looks[i + 1]);
        }
        assert(rest[last - 1] == looks[last]);
        law_the_drain_ends_at_the_conclusion(rest, last - 1);
    }
}

/// What a session that is leaving does about the thread itself.
#[derive(Debug, Clone, Copy, PartialEq, Eq, Structural)]
pub enum Join {
    /// Join it: it has finished.
    Join,
    /// Sleep, and ask again.
    Sleep,
    /// Leave it behind.
    Detach,
}

/// Whether a thread is waited for, joined or left behind.
pub open spec fn join_for(finished: bool, late: bool) -> Join {
    if finished {
        Join::Join
    } else if late {
        Join::Detach
    } else {
        Join::Sleep
    }
}

/// Whether a thread is waited for, joined or left behind. A thread that has
/// finished is joined however late it is; one that has not is never joined.
pub fn joined(finished: bool, late: bool) -> (join: Join)
    ensures
        join == join_for(finished, late),
        join == (if finished {
            Join::Join
        } else if late {
            Join::Detach
        } else {
            Join::Sleep
        }),
{
    if finished {
        Join::Join
    } else if late {
        Join::Detach
    } else {
        Join::Sleep
    }
}

// ---------------------------------------------------------------------------
// laws
// ---------------------------------------------------------------------------

/// A submission is refused where nobody is there to take it, whatever the queue
/// holds; or else where two are unfinished; and where neither holds it is taken.
/// What is told of it is the refusal, or that there was none.
pub proof fn law_a_submission_is_refused_for_a_cause(before: Held)
    ensures
        before.refusal(true) == Some(Rejected::Gone),
        before.refusal(false) == Some(Rejected::Busy) <==> before.outstanding >= 2,
        before.refusal(false) is None <==> before.outstanding < 2,
        verdict(Some(Rejected::Gone)) == Err::<(), Rejected>(Rejected::Gone),
        verdict(Some(Rejected::Busy)) == Err::<(), Rejected>(Rejected::Busy),
        verdict(None) == Ok::<(), Rejected>(()),
{
}

/// A piece of work is counted from the moment it is taken until it is over:
/// taking it, beginning it and finishing it each move it one place on, and the
/// row that says how many wait counts all but one of the unfinished.
pub proof fn law_work_is_counted_until_it_is_over(before: Held, work: Errand)
    requires
        before.well_formed(),
    ensures
        before.refusal(false) is None ==> {
            let taken = before.offered(work, false);
            &&& taken.waiting == before.waiting.push(work)
            &&& taken.outstanding == before.outstanding + 1
            &&& taken.accepted == before.accepted + 1
            &&& taken.running() == before.running()
        },
        before.waiting.len() > 0 ==> {
            let begun = before.begun();
            &&& seq![before.waiting[0]] + begun.waiting == before.waiting
            &&& begun.outstanding == before.outstanding
            &&& begun.accepted == before.accepted
            &&& begun.running() == before.running() + 1
        },
        before.waiting.len() == 0 ==> before.begun() == before,
        before.running() > 0 ==> {
            let over = before.finished();
            &&& over.waiting == before.waiting
            &&& over.outstanding + 1 == before.outstanding
            &&& over.accepted == before.accepted
            &&& over.running() + 1 == before.running()
        },
        before.outstanding > 0 ==> before.queued() + 1 == before.outstanding,
        before.outstanding == 0 ==> before.queued() == 0,
        before.accepted == before.taken() + before.waiting.len(),
{
    if before.waiting.len() > 0 {
        assert(seq![before.waiting[0]] + before.waiting.skip(1) =~= before.waiting);
    }
}

/// An interrupt drops exactly what waits among the submissions it names, and no
/// later one: of what waits, the items whose number is past `through` stay, in
/// their order, and the others are gone and give their places back. What was
/// begun runs on, and what was ever taken is not taken back.
pub proof fn law_an_interrupt_drops_what_it_names(before: Held, through: nat, index: int)
    requires
        before.well_formed(),
        0 <= index <= before.waiting.len(),
    ensures
        ({
            let after = before.abandoned(through);
            let dropped = before.waiting.len() - after.waiting.len();
            &&& 0 <= dropped
            &&& dropped == before.droppable(through)
            &&& after.waiting == before.waiting.skip(dropped)
            &&& index < before.waiting.len() ==> (index < dropped <==> before.accepted
                - before.waiting.len() + index + 1 <= through)
            &&& after.outstanding == before.outstanding - dropped
            &&& after.accepted == before.accepted
            &&& after.running() == before.running()
            &&& after.well_formed()
        }),
{
}

/// A turn hears the end of the session and the end of the channel, and nothing
/// else changes how far its ending reaches; a channel that has ended is not
/// listened to again, and any other message leaves it open.
pub proof fn law_a_turn_is_ended_by_what_it_hears(
    race: Race,
    through: usize,
    answer: crate::tui::bridge::ApprovalAnswer,
)
    ensures
        race.after(Some(TurnControl::Shutdown)).ended == Ended::Session,
        race.after(Some(TurnControl::Shutdown)).listening == race.listening,
        race.after(None).ended == Ended::Session,
        !race.after(None).listening,
        race.after(Some(TurnControl::Cancel { through })) == race,
        race.after(Some(TurnControl::Answer(answer))) == race,
{
}

/// What the user is told of a turn that failed: its own words where it was not
/// ready or failed, the recorder's behind the program's name where it ran and
/// could not be written down, and nothing where it ran and was. A panic is told
/// in its own words where it has any.
pub proof fn law_a_failure_is_told_in_its_own_words(words: String)
    ensures
        failure_words(Outcome::NotReady(words)) == Some(words@),
        failure_words(Outcome::Failed(words)) == Some(words@),
        failure_words(Outcome::Ran { recorder: Some(words) }) == Some("xfx: "@ + words@),
        failure_words(Outcome::Ran { recorder: None }) is None,
        panic_words(Payload::Text(words)) == words@,
        panic_words(Payload::Other) == "a turn panicked with a payload that is not text"@,
{
}

/// A turn needs a provider first and then a conversation, and once it has both,
/// nothing; what it needed and was given it does not need again.
pub proof fn law_a_turn_is_made_ready_in_order(engine: Engine)
    ensures
        engine.needs() == Need::Provider <==> !engine.provider,
        engine.needs() == Need::Conversation <==> engine.provider && !engine.conversation,
        engine.needs() == Need::Nothing <==> engine.provider && engine.conversation,
{
}

/// What each piece of work does to the runtime and asks to be done: a model is
/// the model from then on, and written down where a conversation is open and the
/// model is another; a fresh start lets go of the conversation; a prompt is run
/// as it was given; a provider and a list are asked for as they were. Nothing
/// else of the runtime changes.
pub proof fn law_each_piece_of_work_has_its_job(
    engine: Engine,
    name: Seq<char>,
    model: String,
    prompt: Seq<char>,
    words: String,
    provider: ProviderId,
    job: Job,
)
    ensures
        engine.turned_to(Errand::Model(name)).model == name,
        engine.turned_to(Errand::Model(name)).conversation == engine.conversation,
        engine.turned_to(Errand::Model(name)).provider == engine.provider,
        !engine.turned_to(Errand::New).conversation,
        engine.turned_to(Errand::New).model == engine.model,
        engine.turned_to(Errand::New).provider == engine.provider,
        engine.turned_to(Errand::Submit(prompt)) == engine,
        engine.turned_to(Errand::Setup(provider)) == engine,
        engine.turned_to(Errand::Catalog) == engine,
        engine.conversation && name != engine.model ==> (engine.is_job_for(
            Errand::Model(name),
            Job::Record(model),
        ) <==> model@ == name) && !engine.is_job_for(Errand::Model(name), Job::Done),
        !engine.conversation || name == engine.model ==> engine.is_job_for(
            Errand::Model(name),
            Job::Done,
        ) && !engine.is_job_for(Errand::Model(name), Job::Record(model)),
        engine.is_job_for(Errand::New, job) <==> job == Job::Forget,
        engine.is_job_for(Errand::Submit(prompt), Job::Turn(words)) <==> words@ == prompt,
        engine.is_job_for(Errand::Submit(prompt), job) ==> job is Turn,
        engine.is_job_for(Errand::Setup(provider), job) <==> job == Job::Setup(provider),
        engine.is_job_for(Errand::Catalog, job) <==> job == Job::Catalog,
{
}

/// A session that is leaving stops looking at the event that concludes the turn,
/// at a channel nobody can send on, and at an empty one once it is late; an event
/// that concludes nothing is followed by the next at once, and an empty channel
/// that is not late by a sleep.
pub proof fn law_a_look_is_followed_by_what_it_found(concludes: bool, late: bool)
    ensures
        drain_after(Received::Event { concludes }) == Drain::Close <==> concludes,
        drain_after(Received::Event { concludes }) == Drain::Again <==> !concludes,
        drain_after(Received::Disconnected) == Drain::Close,
        drain_after(Received::Empty { late }) == Drain::Close <==> late,
        drain_after(Received::Empty { late }) == Drain::Sleep <==> !late,
{
}

/// The drain takes every look there is where none of them ends it.
pub proof fn law_the_drain_takes_what_does_not_end_it(looks: Seq<Received>)
    requires
        forall|i: int|
            0 <= i < looks.len() ==> #[trigger] looks[i] == (Received::Event { concludes: false })
                || looks[i] == (Received::Empty { late: false }),
    ensures
        looks_taken(looks) == looks.len(),
    decreases looks.len(),
{
    if looks.len() > 0 {
        let rest = looks.skip(1);
        assert(looks[0] == looks[0]);
        assert forall|i: int| 0 <= i < rest.len() implies #[trigger] rest[i] == (Received::Event {
            concludes: false,
        }) || rest[i] == (Received::Empty { late: false }) by {
            assert(rest[i] == looks[i + 1]);
        }
        law_the_drain_takes_what_does_not_end_it(rest);
    }
}

/// What a message asks for: the end of the session and the end of the channel ask
/// for the same, between two turns and in one, and in one they stop everything;
/// an interrupt drops what it names and no more; an answer asks for nothing.
pub proof fn law_a_message_asks_for_what_it_says(
    through: usize,
    answer: crate::tui::bridge::ApprovalAnswer,
)
    ensures
        asks_for(Some(TurnControl::Shutdown)) == Heard::Return,
        asks_for(None) == Heard::Return,
        asks_for(Some(TurnControl::Cancel { through })) == Heard::Abandon(through),
        asks_for(Some(TurnControl::Answer(answer))) == Heard::Nothing,
        stops_through(Some(TurnControl::Shutdown)) == Some(usize::MAX),
        stops_through(None) == Some(usize::MAX),
        stops_through(Some(TurnControl::Cancel { through })) == Some(through),
        stops_through(Some(TurnControl::Answer(answer))) is None,
{
}

/// A turn that came back is concluded with its own word on how it went, and
/// reaches as far as it was told to; one that panicked is told to be the last, in
/// the panic's words, and reaches the session whatever it was told.
pub proof fn law_a_panic_takes_the_session(
    failure: Option<String>,
    payload: Payload,
    words: String,
    race: Race,
    ended: Ended,
    event: UiEvent,
)
    ensures
        is_conclusion(Caught::Returned(failure), race, (event, ended)) <==> event == (
        UiEvent::TurnEnded { failure }) && ended == race.ended,
        is_conclusion(Caught::Panicked(payload), race, (event, ended)) ==> event is Fatal && ended
            == Ended::Session,
        is_conclusion(
            Caught::Panicked(Payload::Text(words)),
            race,
            (UiEvent::Fatal(words), Ended::Session),
        ),
{
}

/// What was needed and was given is not needed again, and nothing else of the
/// runtime changes by it.
pub proof fn law_what_was_given_is_had(engine: Engine)
    ensures
        engine.with(Need::Provider).provider,
        engine.with(Need::Provider).conversation == engine.conversation,
        engine.with(Need::Conversation).conversation,
        engine.with(Need::Conversation).provider == engine.provider,
        engine.with(Need::Nothing) == engine,
        engine.with(Need::Provider).model == engine.model,
        engine.with(Need::Conversation).model == engine.model,
        engine.with(engine.needs()).with(engine.with(engine.needs()).needs()).needs()
            == Need::Nothing,
{
}

/// A thread that has finished is joined, however late it is; one that has not is
/// never joined: it is waited for, and left behind once it is late.
pub proof fn law_only_a_finished_thread_is_joined(finished: bool, late: bool)
    ensures
        join_for(finished, late) == Join::Join <==> finished,
        join_for(finished, late) == Join::Detach <==> !finished && late,
        join_for(finished, late) == Join::Sleep <==> !finished && !late,
{
}

} // verus!
