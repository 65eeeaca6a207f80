//! Turns source text and a language name into a properly nested stream of
//! highlight events, highlighting embedded languages recursively and splicing
//! their results into the enclosing text.

use vstd::prelude::*;

pub mod binding;
pub mod engine;
pub mod events;
pub mod highlights;
pub mod injections;
pub mod queries;
pub mod ranges;
pub mod syntax;
pub mod text;

pub use engine::{highlight_regions, Configurations, HighlightConfiguration, Highlighter};
pub use events::HighlightEvent;
pub use highlights::HighlightRegion;
pub use injections::InjectedRegion;
pub use injections::calculate_point_offset;
pub use ranges::{Point, Range};

verus! {

/// Why a highlighting call, or compiling what it needs, failed.
#[derive(Clone, Copy, Debug, PartialEq, Eq, Structural)]
pub enum HighlightError {
    QueryCompileError,
    InvalidText,
    ParseFailure,
    UnknownLanguage,
    NestingTooDeep,
}

} // verus!
