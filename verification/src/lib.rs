//! Pure text- and value-comparison utilities for writing test fixtures:
//! cursor-marker extraction, nested tagged-range extraction, meta-annotated
//! fixture parsing, wildcard line matching and structural JSON comparison.
#![verifier::loop_isolation(false)]

use vstd::prelude::*;

pub mod fixture;
pub mod json;
pub mod markers;
pub mod matcher;
pub mod range;
pub mod strings;
pub mod tags;

pub use fixture::FixtureEntry;
pub use fixture::MalformedFixture;
pub use fixture::parse_fixture;
pub use fixture::trim_join_lines;
pub use fixture::try_parse_fixture;
pub use json::JsonValue;
pub use json::find_mismatch;
pub use markers::CURSOR_MARKER;
pub use markers::add_cursor;
pub use markers::extract_offset;
pub use markers::extract_range;
pub use markers::try_extract_offset;
pub use markers::try_extract_range;
pub use matcher::lines_match;
pub use range::TextRange;
pub use tags::extract_ranges;
pub use tags::try_extract_ranges;
