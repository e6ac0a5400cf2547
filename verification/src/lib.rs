//! The logic of a terminal agent's front end: the document a session writes,
//! the band it keeps at the bottom of the screen, the queue between its two
//! threads, and the project context it carries.

pub mod text;
pub mod tui;
pub mod workspace;
