//! Per-entry diagnostics. A warning never aborts a run: it marks one entry
//! (or one segment or escape of it) that contributed nothing.

use vstd::prelude::*;

verus! {

/// One recoverable fault, tied to the 1-based source line it came from.
#[derive(Clone, Copy, Debug, PartialEq, Eq, Structural)]
pub enum Warning {
    /// The line had too few space-separated fields.
    Malformed { line: usize },
    /// A selector segment whose port number or range did not parse.
    BadSegment { line: usize },
    /// An escape whose two characters were not hex digits, at byte
    /// position `pos` of the payload text.
    BadHex { line: usize, pos: usize },
    /// A line whose port set had no decodable payload to join with.
    NoPayload { line: usize },
}

} // verus!
