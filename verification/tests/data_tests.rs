//! Tests of the value types: field encodings, the rate-limit table, and the
//! interrupt-pin configuration builder.

use sths34pf80::AverageTrimT1Flag;
use sths34pf80::AverageTrimTMOSFlag;
use sths34pf80::DeviceAddress;
use sths34pf80::FuncStatus;
use sths34pf80::InterruptPinConfig;
use sths34pf80::LPF_DIV;
use sths34pf80::Odr;
use sths34pf80::ThresholdKind;

#[test]
fn odr_bits_round_trip() {
    let all = [
        Odr::ODR_POWERDOWN,
        Odr::ODR_HZ025,
        Odr::ODR_HZ050,
        Odr::ODR_HZ1,
        Odr::ODR_HZ2,
        Odr::ODR_HZ4,
        Odr::ODR_HZ8,
        Odr::ODR_HZ15,
        Odr::ODR_HZ30,
    ];
    for (i, o) in all.iter().enumerate() {
        assert_eq!(o.to_bits() as usize, i);
        assert_eq!(Odr::from_bits(o.to_bits()), *o);
    }
    for bits in 9u8..=15 {
        assert_eq!(Odr::from_bits(bits), Odr::ODR_HZ30);
    }
}

#[test]
fn tmos_trim_bits_and_limit_table() {
    let table = [
        (AverageTrimTMOSFlag::AVG_TMOS2, 0x00, Odr::ODR_HZ30),
        (AverageTrimTMOSFlag::AVG_TMOS8, 0x01, Odr::ODR_HZ30),
        (AverageTrimTMOSFlag::AVG_TMOS32, 0x02, Odr::ODR_HZ30),
        (AverageTrimTMOSFlag::AVG_TMOS128, 0x03, Odr::ODR_HZ8),
        (AverageTrimTMOSFlag::AVG_TMOS256, 0x04, Odr::ODR_HZ4),
        (AverageTrimTMOSFlag::AVG_TMOS512, 0x05, Odr::ODR_HZ2),
        (AverageTrimTMOSFlag::AVG_TMOS1024, 0x06, Odr::ODR_HZ1),
        (AverageTrimTMOSFlag::AVG_TMOS2048, 0x07, Odr::ODR_HZ050),
    ];
    for (trim, bits, max) in table {
        assert_eq!(trim.to_bits(), bits);
        assert_eq!(AverageTrimTMOSFlag::from_bits(bits), trim);
        assert_eq!(trim.max_odr(), max);
    }
}

#[test]
fn t1_trim_bits_round_trip() {
    let table = [
        (AverageTrimT1Flag::AVG_T8, 0x00),
        (AverageTrimT1Flag::AVG_T4, 0x01),
        (AverageTrimT1Flag::AVG_T2, 0x02),
        (AverageTrimT1Flag::AVG_T1, 0x03),
    ];
    for (trim, bits) in table {
        assert_eq!(trim.to_bits(), bits);
        assert_eq!(AverageTrimT1Flag::from_bits(bits), trim);
    }
}

#[test]
fn lpf_div_bits_round_trip() {
    let all = [
        LPF_DIV::STHS34PF80_LPF_ODR_DIV_9,
        LPF_DIV::STHS34PF80_LPF_ODR_DIV_20,
        LPF_DIV::STHS34PF80_LPF_ODR_DIV_50,
        LPF_DIV::STHS34PF80_LPF_ODR_DIV_100,
        LPF_DIV::STHS34PF80_LPF_ODR_DIV_200,
        LPF_DIV::STHS34PF80_LPF_ODR_DIV_400,
        LPF_DIV::STHS34PF80_LPF_ODR_DIV_800,
    ];
    for (i, d) in all.iter().enumerate() {
        assert_eq!(d.to_bits() as usize, i);
        assert_eq!(LPF_DIV::from_bits(d.to_bits()), *d);
    }
}

#[test]
fn device_address_is_fixed() {
    assert_eq!(DeviceAddress::default(), DeviceAddress::Primary);
    assert_eq!(DeviceAddress::Primary.as_u8(), 0x5a);
}

#[test]
fn threshold_kind_bank_addresses() {
    assert_eq!(ThresholdKind::Presence.threshold_addr(), 0x20);
    assert_eq!(ThresholdKind::Motion.threshold_addr(), 0x22);
    assert_eq!(ThresholdKind::AmbientShock.threshold_addr(), 0x24);
    assert_eq!(ThresholdKind::Presence.hysteresis_addr(), 0x27);
    assert_eq!(ThresholdKind::Motion.hysteresis_addr(), 0x26);
    assert_eq!(ThresholdKind::AmbientShock.hysteresis_addr(), 0x29);
}

#[test]
fn func_status_bit_positions() {
    let fs = FuncStatus(0x04);
    assert!(fs.presence_flag());
    assert!(!fs.mot_flag());
    assert!(!fs.tamb_shock_flag());
    let fs = FuncStatus(0x02);
    assert!(!fs.presence_flag());
    assert!(fs.mot_flag());
    assert!(!fs.tamb_shock_flag());
    let fs = FuncStatus(0x01);
    assert!(!fs.presence_flag());
    assert!(!fs.mot_flag());
    assert!(fs.tamb_shock_flag());
}

#[test]
fn interrupt_pin_builder_sets_and_clears_bits() {
    assert_eq!(InterruptPinConfig::builder().build(), 0x00);
    assert_eq!(InterruptPinConfig::builder().active_high().build(), 0x80);
    assert_eq!(InterruptPinConfig(0xff).active_low().build(), 0x7f);
    assert_eq!(InterruptPinConfig::builder().open_drain().build(), 0x40);
    assert_eq!(InterruptPinConfig(0xff).push_pull().build(), 0xbf);
    assert_eq!(InterruptPinConfig::builder().on_new_presence().build(), 0x20);
    assert_eq!(InterruptPinConfig(0xff).not_new_presence().build(), 0xdf);
    assert_eq!(InterruptPinConfig::builder().on_new_motion().build(), 0x10);
    assert_eq!(InterruptPinConfig(0xff).not_new_motion().build(), 0xef);
    assert_eq!(InterruptPinConfig::builder().on_new_shock_temp().build(), 0x08);
    assert_eq!(InterruptPinConfig(0xff).not_new_shock_temp().build(), 0xf7);
    assert_eq!(InterruptPinConfig::builder().on_new_any().build(), 0x38);
    assert_eq!(InterruptPinConfig(0xff).pulsed_pin().build(), 0xfd);
    assert_eq!(InterruptPinConfig::builder().latched_pin().build(), 0x02);
    assert_eq!(InterruptPinConfig(0xff).ien_high_z().build(), 0xfc);
    assert_eq!(InterruptPinConfig::builder().ien_drdy().build(), 0x01);
    // routing to the detection OR signal also resets the latch bit
    assert_eq!(InterruptPinConfig(0x04).ien_int_or().build(), 0x02);
    let c = InterruptPinConfig(0x2a);
    assert_eq!(c.get_u8_value(), 0x2a);
}
