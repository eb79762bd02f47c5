//! Failure taxonomy of the settlement core. Every failure aborts the whole
//! request: there is no partial-result mode.

use vstd::prelude::*;

verus! {

#[derive(Debug, Clone, Copy, PartialEq, Eq, Structural)]
pub enum EnergyError {
    /// Bad decimal or timestamp syntax in a raw row; fatal for the batch.
    MalformedInput,
    /// A local wall-clock time that falls in a daylight-saving gap, does not
    /// exist on the civil calendar, or resolves outside the supported
    /// instant range.
    AmbiguousOrInvalidTimestamp,
    /// The price feed could not be reached or its answer not decoded.
    /// Raised by the transport layer around the core, never by the core.
    PriceSourceUnavailable,
    /// No spot price exists for the effective hour (the payload, as a UTC
    /// instant in epoch seconds) computed for some record.
    MissingPriceForInterval(i64),
}

} // verus!
