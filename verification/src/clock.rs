//! The one clock reading the library makes: a timestamp written into
//! checkpoints and record entries.

use vstd::prelude::*;

verus! {

/// Relies on `chrono::Local::now`: the local date and time, written out.
/// Nothing is promised of a clock reading.
#[verifier::external_body]
pub fn local_timestamp() -> String {
    chrono::Local::now().to_string()
}

} // verus!
