//! The transport capability: a two-wire synchronous bus plus a blocking
//! millisecond delay, specified over a ghost trace of completed transactions.
//!
//! Every driver operation is specified in terms of the sequence of bus
//! transactions it performs. The trait below gives each transport a ghost
//! trace `ops()`; each successful call appends exactly one entry, and a
//! failed call leaves the trace unchanged.

use vstd::prelude::*;

verus! {

/// One completed bus transaction, as recorded in a transport's ghost trace.
pub enum BusOp {
    /// A write transaction: `data` is every byte sent after the device
    /// address (the register address followed by the data bytes).
    Write { dev: u8, data: Seq<u8> },
    /// A combined write-then-read transaction: `sent` is the bytes written
    /// (the register address), `data` the bytes read back.
    Read { dev: u8, sent: Seq<u8>, data: Seq<u8> },
    /// A blocking delay of `ms` milliseconds.
    Delay { ms: u32 },
}

/// The bus and delay capability the driver consumes. The caller supplies an
/// implementation (real hardware, or the in-memory simulated bus).
///
/// The contracts say only how the ghost trace grows and how long a read's
/// result is: what the device answers is left entirely open, so everything
/// proved of the driver holds for every possible device behaviour.
pub trait Transport: Sized {
    /// The transport's native bus error.
    type TError;

    /// The ghost trace of every transaction completed so far. An
    /// implementation that is proved against this trait overrides it; the
    /// default (an empty trace) is for implementations that only unverified
    /// code constructs, whose contract nothing checks anyway.
    open spec fn ops(&self) -> Seq<BusOp> {
        Seq::empty()
    }

    /// One write transaction: send `bytes` to the device at `dev`.
    fn write(&mut self, dev: u8, bytes: &Vec<u8>) -> (r: Result<(), Self::TError>)
        ensures
            r is Ok ==> final(self).ops() == old(self).ops().push(BusOp::Write {
                dev,
                data: bytes@,
            }),
            r is Err ==> final(self).ops() == old(self).ops(),
    ;

    /// One combined transaction: send `sent` to the device at `dev`, then
    /// read `n` bytes back without an intervening stop condition.
    fn write_then_read(&mut self, dev: u8, sent: &Vec<u8>, n: usize) -> (r: Result<
        Vec<u8>,
        Self::TError,
    >)
        ensures
            match r {
                Ok(data) => data@.len() == n && final(self).ops() == old(self).ops().push(
                    BusOp::Read { dev, sent: sent@, data: data@ },
                ),
                Err(_) => final(self).ops() == old(self).ops(),
            },
    ;

    /// Block for `ms` milliseconds.
    fn delay_ms(&mut self, ms: u32)
        ensures
            final(self).ops() == old(self).ops().push(BusOp::Delay { ms }),
    ;
}

} // verus!
