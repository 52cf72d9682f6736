//! The time of day, as text.

use vstd::prelude::*;

verus! {

/// Calls `chrono::Local::now` and formats the result with its `Debug`. The
/// text depends on the clock and on the machine's time zone, so nothing is
/// stated of it.
#[verifier::external_body]
pub(crate) fn time_text() -> (text: Vec<u8>) {
    format!("{:?}", chrono::Local::now()).into_bytes()
}

} // verus!
