//! The workspace: which real directories a turn may look at, how a requested
//! path becomes a proven one, and what the project has said about itself.

pub mod context;
pub mod path;

pub use context::{
    ContextLimits, ContextOmission, ContextScopeKind, ContextSection, OmissionReason,
    ProjectContext, CONTEXT_FILE_NAME, CONTEXT_GUIDANCE,
};
pub use path::{
    is_ignored_directory, AccessScope, PathError, ResolvedPath, IGNORED_DIRECTORY_NAMES,
};
