//! Register-level driver for a thermal presence/motion/ambient-shock sensor
//! on a two-wire synchronous bus.
//!
//! The hard part of the device is its protected access protocol: a second,
//! paged bank of detection-configuration registers reachable only after
//! quiescing continuous conversion and driving an address-select/data
//! gateway one byte at a time, and a multi-value measurement whose three
//! signals become ready independently. Both are specified here over a ghost
//! trace of bus transactions and proved: what each operation sends, that
//! the paged-access window is always closed again, that the output data
//! rate is restored, and how each result relates to the bytes the device
//! answered.
//!
//! The bus itself is a capability the caller supplies ([`bus::Transport`]);
//! [`sim::SimBus`] is a deterministic in-memory implementation, proved
//! against the same contract, for driving the protocol without hardware.

pub mod bus;
pub mod regmap;
pub mod trace;
pub mod data;
pub mod error;
pub mod sim;
pub mod driver;
pub mod laws;

pub use bus::BusOp;
pub use bus::Transport;
pub use data::AverageTrimT1Flag;
pub use data::AverageTrimTMOSFlag;
pub use data::DeviceAddress;
pub use data::FuncStatus;
pub use data::Gain;
pub use data::InterruptPinConfig;
pub use data::LPF_DIV;
pub use data::Measurements;
pub use data::Odr;
pub use data::ThresholdKind;
pub use driver::Sths34pf80;
pub use error::Sths34pf80Error;
pub use sim::SimBus;
pub use sim::SimOp;
