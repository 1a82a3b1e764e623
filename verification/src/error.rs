//! The driver's error taxonomy. Bus-level failures carry the transport's
//! native error; the remaining variants are the driver's own range checks,
//! connectivity check and measurement timeout.

use vstd::prelude::*;

verus! {

/// All expected failure conditions of the driver. No operation panics on an
/// expected failure; every fallible operation returns one of these.
#[derive(Debug, Clone, Copy, PartialEq)]
pub enum Sths34pf80Error<E> {
    /// Error during a bus write transaction.
    WriteError(E),
    /// Error during a bus write-then-read transaction.
    WriteReadError(E),
    /// Got an unexpected part id from the chip-identifier register.
    UnexpectedChipId(u8),
    /// The device did not answer with the documented chip identifier during
    /// initialization: nothing (or the wrong part) is connected at the bus
    /// address.
    NotConnected,
    /// Requested output data rate is above the limit for the current object
    /// averaging trim; carries the register code of the highest permitted
    /// rate.
    OdrNewTooBig(u8),
    /// Threshold set value too big: only 15 bits are honored.
    ThresholdTooBig(u16),
    /// Set value out of the documented range.
    OutOfRange,
    /// Timeout waiting for new measurement data to become ready.
    MeasurementTimeout,
}

} // verus!
