//! What the two threads of a session say to each other.
//!
//! The thread that holds the terminal hands over work and control messages; the
//! thread that runs turns answers with events. Every message is a plain value,
//! so what either side does about one is a question about values.

use vstd::prelude::*;

verus! {

/// A provider a session can talk to.
#[derive(Debug, Clone, Copy, PartialEq, Eq, Structural)]
pub enum ProviderId {
    Gateway,
    Llmux,
}

impl ProviderId {
    /// What a provider is called.
    pub open spec fn name(self) -> Seq<char> {
        match self {
            ProviderId::Gateway => "gateway"@,
            ProviderId::Llmux => "llmux"@,
        }
    }

    /// The provider's name.
    pub fn label(self) -> (label: &'static str)
        ensures
            label@ == self.name(),
    {
        match self {
            ProviderId::Gateway => "gateway",
            ProviderId::Llmux => "llmux",
        }
    }
}

/// One model a provider publishes.
#[derive(Debug, Clone, PartialEq, Eq)]
pub struct CatalogEntry {
    pub id: String,
    pub aliases: Vec<String>,
    /// The name the entry is listed under.
    pub preferred: String,
    pub efforts: Vec<String>,
    /// How many tokens the model's window holds, where the provider says.
    pub max_context: Option<u64>,
}

/// What the user said to a question.
#[derive(Debug, Clone, Copy, PartialEq, Eq, Structural)]
pub enum ApprovalAnswer {
    Once,
    Always,
    Deny,
}

/// A piece of work for the thread that runs turns.
#[derive(Debug, Clone, PartialEq, Eq)]
pub enum TurnWork {
    /// Run a turn about this prompt.
    Submit(String),
    /// Talk to this model from the next turn on.
    Model(String),
    /// Start a fresh conversation with the next prompt.
    New,
    /// Switch to this provider.
    Setup(ProviderId),
    /// Load the provider's list of models.
    Catalog,
}

/// [`TurnWork`] in mathematical terms.
pub enum Errand {
    Submit(Seq<char>),
    Model(Seq<char>),
    New,
    Setup(ProviderId),
    Catalog,
}

impl View for TurnWork {
    type V = Errand;

    open spec fn view(&self) -> Errand {
        match *self {
            TurnWork::Submit(prompt) => Errand::Submit(prompt@),
            TurnWork::Model(name) => Errand::Model(name@),
            TurnWork::New => Errand::New,
            TurnWork::Setup(provider) => Errand::Setup(provider),
            TurnWork::Catalog => Errand::Catalog,
        }
    }
}

/// A message about work already handed over.
#[derive(Debug, Clone, Copy, PartialEq, Eq, Structural)]
pub enum TurnControl {
    /// Stop the running turn, and drop what waits behind it, up to the
    /// `through`th submission.
    Cancel { through: usize },
    /// End the session.
    Shutdown,
    /// The answer to a question.
    Answer(ApprovalAnswer),
}

/// Which plane a question belongs on.
#[derive(Debug, Clone, Copy, PartialEq, Eq, Structural)]
pub enum ApprovalSurface {
    /// In the band.
    Inline,
    /// On a screen of its own.
    Alternate,
}

/// Something the thread that runs turns has done.
#[derive(Debug, Clone, PartialEq, Eq)]
pub enum UiEvent {
    /// A turn has begun.
    TurnStarted,
    /// A piece of the answer.
    Delta(String),
    /// A tool has begun.
    ToolStart { tool: String },
    /// A tool has ended. `detail` is its own word on why it refused.
    ToolResult { tool: String, ok: bool, detail: String },
    /// A line for the document.
    Notice(String),
    /// The session has switched provider.
    ProviderSelected { provider: ProviderId, model: String, missing_credential: bool },
    /// The list of models has been loaded.
    CatalogLoaded { provider: ProviderId, entries: Vec<CatalogEntry> },
    /// What a completed turn counted.
    Usage { input: Option<u64>, output: Option<u64> },
    /// A turn waits for an answer on the given plane.
    Approval(ApprovalSurface),
    /// A turn has ended, with a word on why where it failed.
    TurnEnded { failure: Option<String> },
    /// No turn can run any more.
    Fatal(String),
}

impl UiEvent {
    /// Whether an event concludes a turn.
    pub open spec fn concludes(self) -> bool {
        self is TurnEnded || self is Fatal
    }

    /// Whether this event concludes a turn.
    pub fn is_terminal(&self) -> (yes: bool)
        ensures
            yes == self.concludes(),
    {
        match self {
            UiEvent::TurnEnded { .. } => true,
            UiEvent::Fatal(_) => true,
            _ => false,
        }
    }
}

/// A turn is concluded by its own end and by the end of every turn, and by
/// nothing else that may happen on the way.
pub proof fn law_only_an_ending_concludes(event: UiEvent, words: String, failure: Option<String>)
    ensures
        (UiEvent::TurnEnded { failure }).concludes(),
        UiEvent::Fatal(words).concludes(),
        event is TurnStarted || event is Delta || event is ToolStart || event is ToolResult
            || event is Notice || event is ProviderSelected || event is CatalogLoaded
            || event is Usage || event is Approval ==> !event.concludes(),
{
}

} // verus!
