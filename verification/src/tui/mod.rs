//! The terminal user interface.

pub mod band;
pub mod bridge;
pub mod document;
pub mod pacer;
pub mod shell;
pub mod signals;
pub mod term;
pub mod theme;
pub mod transaction;
pub mod transcript;
pub mod worker;
pub mod wrap;
