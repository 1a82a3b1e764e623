//! Value types of the driver: measurement results, the ordered output-data-rate
//! and averaging-trim enumerations, register-field wrappers, and the
//! interrupt-pin configuration builder.

#![allow(non_camel_case_types)]

use vstd::prelude::*;

verus! {

/// A measurement result: each field is populated only if its ready flag was
/// set on the poll that produced it.
#[derive(Debug, PartialEq, Clone, Copy)]
pub struct Measurements {
    /// presence value if ready
    pub presence_value: Option<i16>,
    /// motion value if ready
    pub motion_value: Option<i16>,
    /// ambient shock temperature value if ready
    pub ambient_shock_value: Option<i16>,
}

/// Averaging window for the ambient-temperature channel.
#[derive(Debug, Clone, Copy, PartialEq, Eq, Structural)]
pub enum AverageTrimT1Flag {
    AVG_T8,
    AVG_T4,
    AVG_T2,
    AVG_T1,
}

/// The register encoding of an ambient averaging trim.
pub open spec fn t1_trim_code(t: AverageTrimT1Flag) -> u8 {
    match t {
        AverageTrimT1Flag::AVG_T8 => 0x00,
        AverageTrimT1Flag::AVG_T4 => 0x01,
        AverageTrimT1Flag::AVG_T2 => 0x02,
        AverageTrimT1Flag::AVG_T1 => 0x03,
    }
}

impl AverageTrimT1Flag {
    /// The two-bit field value this trim is written as.
    pub fn to_bits(self) -> (r: u8)
        ensures
            r == t1_trim_code(self),
    {
        match self {
            AverageTrimT1Flag::AVG_T8 => 0x00,
            AverageTrimT1Flag::AVG_T4 => 0x01,
            AverageTrimT1Flag::AVG_T2 => 0x02,
            AverageTrimT1Flag::AVG_T1 => 0x03,
        }
    }

    /// The trim a two-bit field value decodes to.
    pub fn from_bits(bits: u8) -> (r: Self)
        requires
            bits <= 0x03,
        ensures
            r == t1_trim_of(bits),
            t1_trim_code(r) == bits,
    {
        match bits {
            0x00 => AverageTrimT1Flag::AVG_T8,
            0x01 => AverageTrimT1Flag::AVG_T4,
            0x02 => AverageTrimT1Flag::AVG_T2,
            _ => AverageTrimT1Flag::AVG_T1,
        }
    }
}

/// Averaging window for the object (TMOS) channel; larger windows lower the
/// permissible output data rate.
#[derive(Debug, Clone, Copy, PartialEq, Eq, Structural)]
pub enum AverageTrimTMOSFlag {
    AVG_TMOS2,
    AVG_TMOS8,
    AVG_TMOS32,
    AVG_TMOS128,
    AVG_TMOS256,
    AVG_TMOS512,
    AVG_TMOS1024,
    AVG_TMOS2048,
}

/// The register encoding of an object averaging trim.
pub open spec fn tmos_trim_code(t: AverageTrimTMOSFlag) -> u8 {
    match t {
        AverageTrimTMOSFlag::AVG_TMOS2 => 0x00,
        AverageTrimTMOSFlag::AVG_TMOS8 => 0x01,
        AverageTrimTMOSFlag::AVG_TMOS32 => 0x02,
        AverageTrimTMOSFlag::AVG_TMOS128 => 0x03,
        AverageTrimTMOSFlag::AVG_TMOS256 => 0x04,
        AverageTrimTMOSFlag::AVG_TMOS512 => 0x05,
        AverageTrimTMOSFlag::AVG_TMOS1024 => 0x06,
        AverageTrimTMOSFlag::AVG_TMOS2048 => 0x07,
    }
}

impl AverageTrimTMOSFlag {
    /// The three-bit field value this trim is written as.
    pub fn to_bits(self) -> (r: u8)
        ensures
            r == tmos_trim_code(self),
    {
        match self {
            AverageTrimTMOSFlag::AVG_TMOS2 => 0x00,
            AverageTrimTMOSFlag::AVG_TMOS8 => 0x01,
            AverageTrimTMOSFlag::AVG_TMOS32 => 0x02,
            AverageTrimTMOSFlag::AVG_TMOS128 => 0x03,
            AverageTrimTMOSFlag::AVG_TMOS256 => 0x04,
            AverageTrimTMOSFlag::AVG_TMOS512 => 0x05,
            AverageTrimTMOSFlag::AVG_TMOS1024 => 0x06,
            AverageTrimTMOSFlag::AVG_TMOS2048 => 0x07,
        }
    }

    /// The trim a three-bit field value decodes to.
    pub fn from_bits(bits: u8) -> (r: Self)
        requires
            bits <= 0x07,
        ensures
            r == tmos_trim_of(bits),
            tmos_trim_code(r) == bits,
    {
        match bits {
            0x00 => AverageTrimTMOSFlag::AVG_TMOS2,
            0x01 => AverageTrimTMOSFlag::AVG_TMOS8,
            0x02 => AverageTrimTMOSFlag::AVG_TMOS32,
            0x03 => AverageTrimTMOSFlag::AVG_TMOS128,
            0x04 => AverageTrimTMOSFlag::AVG_TMOS256,
            0x05 => AverageTrimTMOSFlag::AVG_TMOS512,
            0x06 => AverageTrimTMOSFlag::AVG_TMOS1024,
            _ => AverageTrimTMOSFlag::AVG_TMOS2048,
        }
    }

    /// The highest output data rate permitted with this averaging window;
    /// wider windows allow only slower rates.
    pub fn max_odr(self) -> (r: Odr)
        ensures
            r == max_odr_for(self),
    {
        match self {
            AverageTrimTMOSFlag::AVG_TMOS2 => Odr::ODR_HZ30,
            AverageTrimTMOSFlag::AVG_TMOS8 => Odr::ODR_HZ30,
            AverageTrimTMOSFlag::AVG_TMOS32 => Odr::ODR_HZ30,
            AverageTrimTMOSFlag::AVG_TMOS128 => Odr::ODR_HZ8,
            AverageTrimTMOSFlag::AVG_TMOS256 => Odr::ODR_HZ4,
            AverageTrimTMOSFlag::AVG_TMOS512 => Odr::ODR_HZ2,
            AverageTrimTMOSFlag::AVG_TMOS1024 => Odr::ODR_HZ1,
            AverageTrimTMOSFlag::AVG_TMOS2048 => Odr::ODR_HZ050,
        }
    }
}

/// The documented limit table: the widest-permissible output data rate for
/// each object averaging window.
pub open spec fn max_odr_for(t: AverageTrimTMOSFlag) -> Odr {
    match t {
        AverageTrimTMOSFlag::AVG_TMOS2 => Odr::ODR_HZ30,
        AverageTrimTMOSFlag::AVG_TMOS8 => Odr::ODR_HZ30,
        AverageTrimTMOSFlag::AVG_TMOS32 => Odr::ODR_HZ30,
        AverageTrimTMOSFlag::AVG_TMOS128 => Odr::ODR_HZ8,
        AverageTrimTMOSFlag::AVG_TMOS256 => Odr::ODR_HZ4,
        AverageTrimTMOSFlag::AVG_TMOS512 => Odr::ODR_HZ2,
        AverageTrimTMOSFlag::AVG_TMOS1024 => Odr::ODR_HZ1,
        AverageTrimTMOSFlag::AVG_TMOS2048 => Odr::ODR_HZ050,
    }
}

/// Output data rate: the continuous-measurement sampling frequency, with
/// power-down as its idle state. The register codes are totally ordered by
/// rate, so limit checks compare codes.
#[derive(Debug, Clone, Copy, PartialEq, Eq, Structural)]
pub enum Odr {
    ODR_POWERDOWN,
    ODR_HZ025,
    ODR_HZ050,
    ODR_HZ1,
    ODR_HZ2,
    ODR_HZ4,
    ODR_HZ8,
    ODR_HZ15,
    ODR_HZ30,
}

/// The register encoding of an output data rate; faster rates have larger
/// codes, so the code order is the rate order.
pub open spec fn odr_code(o: Odr) -> u8 {
    match o {
        Odr::ODR_POWERDOWN => 0x00,
        Odr::ODR_HZ025 => 0x01,
        Odr::ODR_HZ050 => 0x02,
        Odr::ODR_HZ1 => 0x03,
        Odr::ODR_HZ2 => 0x04,
        Odr::ODR_HZ4 => 0x05,
        Odr::ODR_HZ8 => 0x06,
        Odr::ODR_HZ15 => 0x07,
        Odr::ODR_HZ30 => 0x08,
    }
}

impl Odr {
    /// The four-bit field value this rate is written as.
    pub fn to_bits(self) -> (r: u8)
        ensures
            r == odr_code(self),
    {
        match self {
            Odr::ODR_POWERDOWN => 0x00,
            Odr::ODR_HZ025 => 0x01,
            Odr::ODR_HZ050 => 0x02,
            Odr::ODR_HZ1 => 0x03,
            Odr::ODR_HZ2 => 0x04,
            Odr::ODR_HZ4 => 0x05,
            Odr::ODR_HZ8 => 0x06,
            Odr::ODR_HZ15 => 0x07,
            Odr::ODR_HZ30 => 0x08,
        }
    }

    /// The rate a four-bit field value decodes to; out-of-range codes decode
    /// to the fastest rate.
    pub fn from_bits(bits: u8) -> (r: Self)
        ensures
            r == odr_of(bits),
            bits <= 0x08 ==> odr_code(r) == bits,
            bits > 0x08 ==> r == Odr::ODR_HZ30,
    {
        match bits {
            0x00 => Odr::ODR_POWERDOWN,
            0x01 => Odr::ODR_HZ025,
            0x02 => Odr::ODR_HZ050,
            0x03 => Odr::ODR_HZ1,
            0x04 => Odr::ODR_HZ2,
            0x05 => Odr::ODR_HZ4,
            0x06 => Odr::ODR_HZ8,
            0x07 => Odr::ODR_HZ15,
            _ => Odr::ODR_HZ30,
        }
    }
}

/// Gain mode of the analog front end.
#[derive(Debug, Clone, Copy, PartialEq, Eq, Structural)]
pub enum Gain {
    GainWideMode,
    GainDefault,
}

/// The register encoding of a gain mode.
pub open spec fn gain_code(g: Gain) -> u8 {
    match g {
        Gain::GainWideMode => 0x00,
        Gain::GainDefault => 0x07,
    }
}

impl Gain {
    /// The three-bit field value this gain mode is written as.
    pub fn to_bits(self) -> (r: u8)
        ensures
            r == gain_code(self),
    {
        match self {
            Gain::GainWideMode => 0x00,
            Gain::GainDefault => 0x07,
        }
    }
}

/// Low-pass-filter divider: the filter cutoff as a divider of the output
/// data rate.
#[derive(Debug, Clone, Copy, PartialEq, Eq, Structural)]
pub enum LPF_DIV {
    STHS34PF80_LPF_ODR_DIV_9,
    STHS34PF80_LPF_ODR_DIV_20,
    STHS34PF80_LPF_ODR_DIV_50,
    STHS34PF80_LPF_ODR_DIV_100,
    STHS34PF80_LPF_ODR_DIV_200,
    STHS34PF80_LPF_ODR_DIV_400,
    STHS34PF80_LPF_ODR_DIV_800,
}

/// The register encoding of a low-pass-filter divider.
pub open spec fn lpf_div_code(d: LPF_DIV) -> u8 {
    match d {
        LPF_DIV::STHS34PF80_LPF_ODR_DIV_9 => 0x00,
        LPF_DIV::STHS34PF80_LPF_ODR_DIV_20 => 0x01,
        LPF_DIV::STHS34PF80_LPF_ODR_DIV_50 => 0x02,
        LPF_DIV::STHS34PF80_LPF_ODR_DIV_100 => 0x03,
        LPF_DIV::STHS34PF80_LPF_ODR_DIV_200 => 0x04,
        LPF_DIV::STHS34PF80_LPF_ODR_DIV_400 => 0x05,
        LPF_DIV::STHS34PF80_LPF_ODR_DIV_800 => 0x06,
    }
}

impl LPF_DIV {
    /// The three-bit field value this divider is written as.
    pub fn to_bits(self) -> (r: u8)
        ensures
            r == lpf_div_code(self),
    {
        match self {
            LPF_DIV::STHS34PF80_LPF_ODR_DIV_9 => 0x00,
            LPF_DIV::STHS34PF80_LPF_ODR_DIV_20 => 0x01,
            LPF_DIV::STHS34PF80_LPF_ODR_DIV_50 => 0x02,
            LPF_DIV::STHS34PF80_LPF_ODR_DIV_100 => 0x03,
            LPF_DIV::STHS34PF80_LPF_ODR_DIV_200 => 0x04,
            LPF_DIV::STHS34PF80_LPF_ODR_DIV_400 => 0x05,
            LPF_DIV::STHS34PF80_LPF_ODR_DIV_800 => 0x06,
        }
    }

    /// The divider a three-bit field value decodes to.
    pub fn from_bits(bits: u8) -> (r: Self)
        requires
            bits <= 0x06,
        ensures
            lpf_div_code(r) == bits,
    {
        match bits {
            0x00 => LPF_DIV::STHS34PF80_LPF_ODR_DIV_9,
            0x01 => LPF_DIV::STHS34PF80_LPF_ODR_DIV_20,
            0x02 => LPF_DIV::STHS34PF80_LPF_ODR_DIV_50,
            0x03 => LPF_DIV::STHS34PF80_LPF_ODR_DIV_100,
            0x04 => LPF_DIV::STHS34PF80_LPF_ODR_DIV_200,
            0x05 => LPF_DIV::STHS34PF80_LPF_ODR_DIV_400,
            _ => LPF_DIV::STHS34PF80_LPF_ODR_DIV_800,
        }
    }
}

/// The three detection channels whose thresholds and hystereses live in the
/// paged bank. Each kind carries its bank addresses.
#[derive(Debug, Clone, Copy, PartialEq, Eq, Structural)]
pub enum ThresholdKind {
    Presence,
    Motion,
    AmbientShock,
}

/// The paged-bank sub-address of a kind's two-byte threshold.
pub open spec fn ths_addr(k: ThresholdKind) -> u8 {
    match k {
        ThresholdKind::Presence => 0x20,
        ThresholdKind::Motion => 0x22,
        ThresholdKind::AmbientShock => 0x24,
    }
}

/// The paged-bank sub-address of a kind's one-byte hysteresis.
pub open spec fn hyst_addr(k: ThresholdKind) -> u8 {
    match k {
        ThresholdKind::Presence => 0x27,
        ThresholdKind::Motion => 0x26,
        ThresholdKind::AmbientShock => 0x29,
    }
}

impl ThresholdKind {
    /// The paged-bank sub-address of this kind's threshold.
    pub fn threshold_addr(self) -> (r: u8)
        ensures
            r == ths_addr(self),
    {
        match self {
            ThresholdKind::Presence => 0x20,
            ThresholdKind::Motion => 0x22,
            ThresholdKind::AmbientShock => 0x24,
        }
    }

    /// The paged-bank sub-address of this kind's hysteresis.
    pub fn hysteresis_addr(self) -> (r: u8)
        ensures
            r == hyst_addr(self),
    {
        match self {
            ThresholdKind::Presence => 0x27,
            ThresholdKind::Motion => 0x26,
            ThresholdKind::AmbientShock => 0x29,
        }
    }
}

/// The object averaging trim a three-bit field value decodes to.
pub open spec fn tmos_trim_of(bits: u8) -> AverageTrimTMOSFlag {
    match bits {
        0x00 => AverageTrimTMOSFlag::AVG_TMOS2,
        0x01 => AverageTrimTMOSFlag::AVG_TMOS8,
        0x02 => AverageTrimTMOSFlag::AVG_TMOS32,
        0x03 => AverageTrimTMOSFlag::AVG_TMOS128,
        0x04 => AverageTrimTMOSFlag::AVG_TMOS256,
        0x05 => AverageTrimTMOSFlag::AVG_TMOS512,
        0x06 => AverageTrimTMOSFlag::AVG_TMOS1024,
        _ => AverageTrimTMOSFlag::AVG_TMOS2048,
    }
}

/// The ambient averaging trim a two-bit field value decodes to.
pub open spec fn t1_trim_of(bits: u8) -> AverageTrimT1Flag {
    match bits {
        0x00 => AverageTrimT1Flag::AVG_T8,
        0x01 => AverageTrimT1Flag::AVG_T4,
        0x02 => AverageTrimT1Flag::AVG_T2,
        _ => AverageTrimT1Flag::AVG_T1,
    }
}

/// The rate a four-bit field value decodes to; codes above the table decode
/// to the fastest rate.
pub open spec fn odr_of(bits: u8) -> Odr {
    match bits {
        0x00 => Odr::ODR_POWERDOWN,
        0x01 => Odr::ODR_HZ025,
        0x02 => Odr::ODR_HZ050,
        0x03 => Odr::ODR_HZ1,
        0x04 => Odr::ODR_HZ2,
        0x05 => Odr::ODR_HZ4,
        0x06 => Odr::ODR_HZ8,
        0x07 => Odr::ODR_HZ15,
        _ => Odr::ODR_HZ30,
    }
}

/// The function-status register's latched ready flags. Reading the register
/// on the device clears them.
#[derive(Debug, Clone, Copy)]
pub struct FuncStatus(pub u8);

impl FuncStatus {
    /// Ambient temperature shock detected.
    pub fn tamb_shock_flag(&self) -> (r: bool)
        ensures
            r == (self.0 & 0x01 != 0),
    {
        self.0 & 0x01 != 0
    }

    /// Motion detected.
    pub fn mot_flag(&self) -> (r: bool)
        ensures
            r == (self.0 & 0x02 != 0),
    {
        self.0 & 0x02 != 0
    }

    /// Presence detected.
    pub fn presence_flag(&self) -> (r: bool)
        ensures
            r == (self.0 & 0x04 != 0),
    {
        self.0 & 0x04 != 0
    }
}

/// Interrupt pin configuration value, assembled with a builder-style chain
/// of bit operations.
#[derive(Debug, Clone, Copy)]
pub struct InterruptPinConfig(pub u8);

impl InterruptPinConfig {
    /// builder sets config value to 0x00
    pub fn builder() -> (r: InterruptPinConfig)
        ensures
            r.0 == 0x00,
    {
        InterruptPinConfig(0x00)
    }

    /// gets interrupt pin config value from struct (or just the ".0" directly)
    pub fn get_u8_value(&self) -> (r: u8)
        ensures
            r == self.0,
    {
        self.0
    }

    /// interrupt pin is high when active
    pub fn active_high(self) -> (r: Self)
        ensures
            r.0 == self.0 | 0x80,
    {
        InterruptPinConfig(self.0 | 0x80)
    }

    /// interrupt pin is low when active
    pub fn active_low(self) -> (r: Self)
        ensures
            r.0 == self.0 & 0x7f,
    {
        InterruptPinConfig(self.0 & 0x7f)
    }

    /// interrupt pin drive is open drain (not driven)
    pub fn open_drain(self) -> (r: Self)
        ensures
            r.0 == self.0 | 0x40,
    {
        InterruptPinConfig(self.0 | 0x40)
    }

    /// interrupt pin drive is push-pull
    pub fn push_pull(self) -> (r: Self)
        ensures
            r.0 == self.0 & 0xbf,
    {
        InterruptPinConfig(self.0 & 0xbf)
    }

    /// interrupt on new presence detected
    pub fn on_new_presence(self) -> (r: Self)
        ensures
            r.0 == self.0 | 0x20,
    {
        InterruptPinConfig(self.0 | 0x20)
    }

    /// no interrupt when new presence detected
    pub fn not_new_presence(self) -> (r: Self)
        ensures
            r.0 == self.0 & 0xdf,
    {
        InterruptPinConfig(self.0 & 0xdf)
    }

    /// interrupt on new motion detected
    pub fn on_new_motion(self) -> (r: Self)
        ensures
            r.0 == self.0 | 0x10,
    {
        InterruptPinConfig(self.0 | 0x10)
    }

    /// no interrupt when new motion detected
    pub fn not_new_motion(self) -> (r: Self)
        ensures
            r.0 == self.0 & 0xef,
    {
        InterruptPinConfig(self.0 & 0xef)
    }

    /// interrupt on new shock temperature change detected
    pub fn on_new_shock_temp(self) -> (r: Self)
        ensures
            r.0 == self.0 | 0x08,
    {
        InterruptPinConfig(self.0 | 0x08)
    }

    /// no interrupt when new shock temperature change detected
    pub fn not_new_shock_temp(self) -> (r: Self)
        ensures
            r.0 == self.0 & 0xf7,
    {
        InterruptPinConfig(self.0 & 0xf7)
    }

    /// interrupt on any of the three changes detected
    pub fn on_new_any(self) -> (r: Self)
        ensures
            r.0 == self.0 | 0x38,
    {
        InterruptPinConfig(self.0 | 0x38)
    }

    /// interrupt is pulsed on pin
    pub fn pulsed_pin(self) -> (r: Self)
        ensures
            r.0 == self.0 & 0xfd,
    {
        InterruptPinConfig(self.0 & 0xfd)
    }

    /// interrupt is latched on pin
    pub fn latched_pin(self) -> (r: Self)
        ensures
            r.0 == self.0 | 0x02,
    {
        InterruptPinConfig(self.0 | 0x02)
    }

    /// interrupt route to high-Z (IEN field to 0b00)
    pub fn ien_high_z(self) -> (r: Self)
        ensures
            r.0 == self.0 & 0xfc,
    {
        InterruptPinConfig(self.0 & 0xfc)
    }

    /// interrupt route to data ready (IEN field to 0b01)
    pub fn ien_drdy(self) -> (r: Self)
        ensures
            r.0 == self.0 | 0x01,
    {
        InterruptPinConfig(self.0 | 0x01)
    }

    /// interrupt route to the detection OR signal; the latch bit must be
    /// reset also for this routing mode
    pub fn ien_int_or(self) -> (r: Self)
        ensures
            r.0 == (self.0 | 0x02) & 0xfb,
    {
        InterruptPinConfig((self.0 | 0x02) & 0xfb)
    }

    /// build just returns the value as u8 (to complete the builder pattern)
    pub fn build(self) -> (r: u8)
        ensures
            r == self.0,
    {
        self.0
    }
}

/// The fixed bus address of the device.
#[derive(Debug, Clone, Copy, PartialEq, Eq, Structural)]
pub enum DeviceAddress {
    /// it only has one bus address but let's call it primary in case a
    /// future secondary is added
    Primary,
}

impl DeviceAddress {
    /// The 7-bit bus address this names.
    pub fn as_u8(self) -> (r: u8)
        ensures
            r == 0x5a,
    {
        match self {
            DeviceAddress::Primary => 0x5a,
        }
    }
}

impl Default for DeviceAddress {
    fn default() -> (r: Self)
        ensures
            r == DeviceAddress::Primary,
    {
        DeviceAddress::Primary
    }
}

} // verus!
