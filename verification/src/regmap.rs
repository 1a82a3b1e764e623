//! The register map of the sensor: main-bank register addresses, the
//! sub-addresses of the paged function-configuration bank, and the fixed
//! constants of the part.

use vstd::prelude::*;

verus! {

// Main register bank.
pub const REG_LPF1: u8 = 0x0c;

pub const REG_LPF2: u8 = 0x0d;

pub const REG_WHO_AM_I: u8 = 0x0f;

pub const REG_AVG_TRIM: u8 = 0x10;

pub const REG_CTRL0: u8 = 0x17;

pub const REG_SENS_DATA: u8 = 0x1d;

pub const REG_CTRL1: u8 = 0x20;

pub const REG_CTRL2: u8 = 0x21;

pub const REG_CTRL3: u8 = 0x22;

pub const REG_STATUS: u8 = 0x23;

pub const REG_FUNC_STATUS: u8 = 0x25;

pub const REG_MOTION_L: u8 = 0x26;

pub const REG_AMBIENT_L: u8 = 0x28;

pub const REG_PRESENCE_L: u8 = 0x3a;

pub const REG_AMB_SHOCK_L: u8 = 0x3e;

// Gateway into the paged function-configuration bank.
pub const REG_PAGE_RW: u8 = 0x11;

pub const REG_FUNC_CFG_ADDR: u8 = 0x08;

pub const REG_FUNC_CFG_DATA: u8 = 0x09;

// Sub-addresses within the paged bank.
pub const EMB_RESET_ALGO: u8 = 0x2a;

pub const EMB_PRESENCE_THS: u8 = 0x20;

pub const EMB_MOTION_THS: u8 = 0x22;

pub const EMB_AMB_SHOCK_THS: u8 = 0x24;

pub const EMB_HYST_MOTION: u8 = 0x26;

pub const EMB_HYST_PRESENCE: u8 = 0x27;

pub const EMB_HYST_AMB_SHOCK: u8 = 0x29;

// Fixed constants of the part.

/// The chip identifier the WHO_AM_I register must answer.
pub const PART_ID: u8 = 0xd3;

/// The fixed 7-bit bus address of the device.
pub const DEVICE_ADDR: u8 = 0x5a;

/// CTRL2: function-configuration access window bit.
pub const CTRL2_FUNC_CFG_ACCESS: u8 = 0x10;

/// CTRL2: reboot (boot) bit, issued once during initialization.
pub const CTRL2_BOOT: u8 = 0x80;

/// Page register: read sub-mode bit.
pub const PAGE_READ_MODE: u8 = 0x20;

/// Page register: write sub-mode bit.
pub const PAGE_WRITE_MODE: u8 = 0x40;

/// The one-byte command that, written at `EMB_RESET_ALGO`, clears the
/// detection algorithm's internal state.
pub const RESET_ALGO_CMD: u8 = 0x01;

/// The status register's data-ready bit.
pub const STATUS_DRDY_BIT: u8 = 0x04;

} // verus!
