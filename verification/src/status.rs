//! Per-call status reporting.
//!
//! Every structural failure is detected synchronously and reported through
//! the returned status; the caller decides whether to render silence or
//! halt.  Numeric control values are a caller contract and are not policed
//! here.

use vstd::prelude::*;

verus! {

/// The structural failures a processing call can report.
#[derive(Clone, Copy, Debug, PartialEq, Eq, Structural)]
pub enum ProcessError {
    /// The host buffer holds no channels at all.
    NoChannels,
    /// The host buffer holds fewer channels than were configured.
    TooFewChannels,
    /// A block handed to a channel processor is not of the configured size.
    BlockSizeMismatch,
}

/// The outcome of one processing call.
#[derive(Clone, Copy, Debug, PartialEq, Eq, Structural)]
pub enum ProcessStatus {
    /// The call processed the whole buffer.
    Normal,
    /// The call aborted on a structural error; the buffer may be partly
    /// written.
    Error(ProcessError),
}

} // verus!
