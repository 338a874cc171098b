//! The errors the library reports.
//!
//! Every failure is a typed value: an invalid range is rejected
//! before an axis is built, and a rendering mode the text backend
//! does not support is reported rather than drawn blank.

use vstd::prelude::*;

use crate::fixed::Fixed;

verus! {

/// Why a rendering request was rejected.
#[derive(Debug)]
pub enum Error {
    /// The range for the named axis is not ascending; the caller must
    /// supply an explicit range.
    InvalidRange { name: String, lower: Fixed, upper: Fixed },
    /// An axis ended up with no ticks at all, so no labels can be
    /// placed along it.
    EmptyAxis { name: String },
    /// The requested style has no text-mode rendering.
    Unsupported { what: String },
}

} // verus!
