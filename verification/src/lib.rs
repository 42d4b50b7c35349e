//! Search of a byte buffer for a fixed-length pattern whose tokens may leave
//! one or both nibbles of a byte open.
//!
//! A pattern is written as text (`"F? ?3 CC ??"`), compiled once into a
//! [`Pattern`] by [`parse_pattern`], and then matched against any number of
//! buffers with [`Pattern::find_all_matches`]. The matcher scans whole
//! sixteen-byte lanes with an anchor pre-filter and finishes the tail of the
//! buffer with a Horspool skip search.

pub mod compile;
pub mod matcher;
pub mod pattern;
pub mod theorems;

pub use compile::{parse_pattern, PatternError};
pub use matcher::{find_all_matches_sse, lane_mask};
pub use pattern::{Pattern, PatternView};
