//! `sel` — select slices of text by line numbers, ranges, positions or regex.
//!
//! The library holds the logic of the tool: selector parsing and
//! normalisation, the per-line matchers, context expansion, the output
//! formatting and the per-line driver that joins them. Each piece states
//! what it computes in its contract; reading input and writing output is
//! left to the caller.

pub mod cli;
pub mod context;
pub mod error;
pub mod format;
pub mod matcher;
pub mod output;
pub mod pipeline;
pub mod ranges;
pub mod reader;
pub mod selector;
pub mod text;
pub mod types;
pub mod wiring;

pub use error::{Result, SelError};
pub use matcher::{AllMatcher, LineMatcher, Matcher, PositionMatcher, RegexMatcher};
pub use selector::{LineSpec, Position, Selector};
pub use types::{Emit, Line, MatchInfo, Role};
