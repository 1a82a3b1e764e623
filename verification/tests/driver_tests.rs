//! Scenario tests driving the full protocol against the in-memory
//! simulated bus: an echoing register bank with the paged gateway.

use sths34pf80::AverageTrimTMOSFlag;
use sths34pf80::Gain;
use sths34pf80::InterruptPinConfig;
use sths34pf80::LPF_DIV;
use sths34pf80::Odr;
use sths34pf80::SimBus;
use sths34pf80::SimOp;
use sths34pf80::Sths34pf80;
use sths34pf80::Sths34pf80Error;
use sths34pf80::ThresholdKind;

fn fresh() -> Sths34pf80<SimBus> {
    Sths34pf80::new(SimBus::new())
}

fn count_writes_of(log: &[SimOp], bytes: &[u8]) -> usize {
    log.iter()
        .filter(|e| matches!(e, SimOp::Write { data, .. } if data.as_slice() == bytes))
        .count()
}

fn last_index_of_write(log: &[SimOp], bytes: &[u8]) -> Option<usize> {
    let mut found = None;
    for (i, e) in log.iter().enumerate() {
        if matches!(e, SimOp::Write { data, .. } if data.as_slice() == bytes) {
            found = Some(i);
        }
    }
    found
}

fn count_reads_of(log: &[SimOp], reg: u8) -> usize {
    log.iter()
        .filter(|e| matches!(e, SimOp::Read { sent, .. } if sent.as_slice() == [reg]))
        .count()
}

fn count_delays(log: &[SimOp]) -> usize {
    log.iter().filter(|e| matches!(e, SimOp::Delay { .. })).count()
}

#[test]
fn presence_threshold_echo_round_trip() {
    let mut drv = fresh();
    drv.set_presence_threshold_new(0x1200).unwrap();
    // the threshold bytes went through the gateway at the presence address
    assert_eq!(count_writes_of(&drv.bus.log, &[0x08, 0x20]), 1);
    assert_eq!(count_writes_of(&drv.bus.log, &[0x09, 0x00, 0x12]), 1);
    // an algorithm-reset command is observed exactly once, after the write
    assert_eq!(count_writes_of(&drv.bus.log, &[0x08, 0x2a]), 1);
    let ths = last_index_of_write(&drv.bus.log, &[0x08, 0x20]).unwrap();
    let rst = last_index_of_write(&drv.bus.log, &[0x08, 0x2a]).unwrap();
    assert!(rst > ths);
    // the access window and page sub-mode ended closed
    assert_eq!(drv.bus.get_reg(0x21), 0x00);
    assert_eq!(drv.bus.get_reg(0x11), 0x00);
    // reading back through the echoing bank returns the value exactly
    assert_eq!(drv.get_presence_threshold().unwrap(), 0x1200);
}

#[test]
fn threshold_round_trip_all_kinds() {
    for kind in [ThresholdKind::Presence, ThresholdKind::Motion, ThresholdKind::AmbientShock] {
        for v in [0u16, 1, 0x00ff, 0x1234, 0x7fff] {
            let mut drv = fresh();
            drv.set_threshold(kind, v).unwrap();
            assert_eq!(drv.get_threshold(kind).unwrap(), v);
        }
    }
}

#[test]
fn threshold_too_big_performs_no_bus_write() {
    let mut drv = fresh();
    let r = drv.set_threshold(ThresholdKind::Motion, 0x8000);
    assert!(matches!(r, Err(Sths34pf80Error::ThresholdTooBig(0x8000))));
    assert_eq!(drv.bus.log.len(), 0);
    let r2 = drv.set_presence_threshold_new(0xffff);
    assert!(matches!(r2, Err(Sths34pf80Error::ThresholdTooBig(0xffff))));
    assert_eq!(drv.bus.log.len(), 0);
}

#[test]
fn threshold_write_in_active_mode_restores_odr() {
    let mut drv = fresh();
    // device in continuous mode at 1 Hz, data already ready
    drv.bus.set_reg(0x20, 0x13);
    drv.bus.set_reg(0x23, 0x04);
    drv.set_tmotion_threshold_new(500).unwrap();
    // rate field restored, window and sub-mode closed
    assert_eq!(drv.bus.get_reg(0x20), 0x13);
    assert_eq!(drv.bus.get_reg(0x21), 0x00);
    assert_eq!(drv.bus.get_reg(0x11), 0x00);
    // still exactly one algorithm reset
    assert_eq!(count_writes_of(&drv.bus.log, &[0x08, 0x2a]), 1);
    assert_eq!(drv.get_tmotion_threshold().unwrap(), 500);
    assert_eq!(drv.bus.get_reg(0x20), 0x13);
}

fn odr_of_code(code: u8) -> Odr {
    match code {
        0 => Odr::ODR_POWERDOWN,
        1 => Odr::ODR_HZ025,
        2 => Odr::ODR_HZ050,
        3 => Odr::ODR_HZ1,
        4 => Odr::ODR_HZ2,
        5 => Odr::ODR_HZ4,
        6 => Odr::ODR_HZ8,
        7 => Odr::ODR_HZ15,
        _ => Odr::ODR_HZ30,
    }
}

#[test]
fn odr_limit_honored_for_every_trim() {
    let table: [(u8, u8); 8] =
        [(0, 8), (1, 8), (2, 8), (3, 6), (4, 5), (5, 4), (6, 3), (7, 2)];
    for (trim_bits, max_code) in table {
        // at the documented maximum: accepted
        let mut drv = fresh();
        drv.bus.set_reg(0x10, trim_bits);
        drv.set_tmos_odr(odr_of_code(max_code)).unwrap();
        // one code above the maximum: rejected, carrying the maximum
        if max_code < 8 {
            let mut drv2 = fresh();
            drv2.bus.set_reg(0x10, trim_bits);
            let r = drv2.set_tmos_odr(odr_of_code(max_code + 1));
            match r {
                Err(Sths34pf80Error::OdrNewTooBig(m)) => assert_eq!(m, max_code),
                other => panic!("expected OdrNewTooBig, got {:?}", other),
            }
            // the rejection happened before any write: only the trim read
            assert_eq!(drv2.bus.log.len(), 1);
        }
    }
}

#[test]
fn set_odr_applies_rate_and_resets() {
    let mut drv = fresh();
    drv.set_tmos_odr(Odr::ODR_HZ2).unwrap();
    assert_eq!(drv.bus.get_reg(0x20) & 0x0f, 0x04);
    assert_eq!(count_writes_of(&drv.bus.log, &[0x08, 0x2a]), 1);
    assert_eq!(drv.get_tmos_odr().unwrap(), Odr::ODR_HZ2);
}

#[test]
fn set_odr_powerdown_waits_and_drains() {
    let mut drv = fresh();
    drv.bus.set_reg(0x20, 0x15);
    drv.bus.set_reg(0x23, 0x04);
    drv.bus.set_reg(0x25, 0x07);
    drv.set_tmos_odr(Odr::ODR_POWERDOWN).unwrap();
    assert_eq!(drv.bus.get_reg(0x20) & 0x0f, 0x00);
    // the latched flags were drained as a side effect of the status reads
    assert_eq!(drv.bus.get_reg(0x25), 0x00);
    assert!(count_reads_of(&drv.bus.log, 0x25) >= 2);
}

#[test]
fn measurement_timeout_after_exact_tick_count() {
    let mut drv = fresh();
    let r = drv.get_measurements_timeout(5);
    assert!(matches!(r, Err(Sths34pf80Error::MeasurementTimeout)));
    assert_eq!(count_reads_of(&drv.bus.log, 0x23), 5);
    assert_eq!(count_delays(&drv.bus.log), 5);
    assert_eq!(drv.bus.log.len(), 10);
}

#[test]
fn measurement_timeout_zero_ticks_polls_nothing() {
    let mut drv = fresh();
    let r = drv.get_measurements_timeout(0);
    assert!(matches!(r, Err(Sths34pf80Error::MeasurementTimeout)));
    assert_eq!(drv.bus.log.len(), 0);
}

#[test]
fn measurement_hard_failure_fails_immediately() {
    let mut drv = fresh();
    drv.bus.fail = true;
    let r = drv.get_measurements_timeout(5);
    assert!(matches!(r, Err(Sths34pf80Error::WriteReadError(_))));
    assert_eq!(drv.bus.log.len(), 0);
}

#[test]
fn initialize_wrong_id_fails_before_any_write() {
    let mut drv = fresh();
    drv.bus.set_reg(0x0f, 0x55);
    let r = drv.initialize();
    assert!(matches!(r, Err(Sths34pf80Error::NotConnected)));
    assert_eq!(drv.bus.log.len(), 1);
    assert!(matches!(&drv.bus.log[0], SimOp::Read { sent, .. } if sent.as_slice() == [0x0f]));
}

#[test]
fn check_chip_id_reports_what_it_read() {
    let mut drv = fresh();
    drv.bus.set_reg(0x0f, 0x55);
    assert!(matches!(drv.check_chip_id(), Err(Sths34pf80Error::UnexpectedChipId(0x55))));
    drv.bus.set_reg(0x0f, 0xd3);
    assert_eq!(drv.check_chip_id().unwrap(), 0xd3);
}

#[test]
fn initialize_sets_documented_defaults() {
    let mut drv = fresh();
    drv.bus.set_reg(0x0f, 0xd3);
    drv.initialize().unwrap();
    // the identifier read, the boot bit and the settle delay open the trace
    assert!(matches!(&drv.bus.log[0], SimOp::Read { sent, .. } if sent.as_slice() == [0x0f]));
    assert!(matches!(&drv.bus.log[1], SimOp::Write { data, .. } if data.as_slice() == [0x21, 0x80]));
    assert!(matches!(&drv.bus.log[2], SimOp::Delay { ms: 3 }));
    // the explicit algorithm reset and the guard's own when the rate is set
    assert_eq!(count_writes_of(&drv.bus.log, &[0x08, 0x2a]), 2);
    // block-data-update on, default 1 Hz rate
    assert_eq!(drv.bus.get_reg(0x20), 0x13);
    // default averaging trims
    assert_eq!(drv.bus.get_reg(0x10), 0x03);
    // window and sub-mode closed behind the resets
    assert_eq!(drv.bus.get_reg(0x21), 0x00);
    assert_eq!(drv.bus.get_reg(0x11), 0x00);
}

#[test]
fn data_ready_follows_status_bit_2() {
    let mut drv = fresh();
    drv.bus.set_reg(0x23, 0x04);
    assert!(drv.get_data_ready().unwrap());
    drv.bus.set_reg(0x23, 0x08);
    assert!(!drv.get_data_ready().unwrap());
    drv.bus.set_reg(0x23, 0x00);
    assert!(!drv.get_data_ready().unwrap());
}

#[test]
fn func_status_flags_and_latch_clear() {
    let mut drv = fresh();
    drv.bus.set_reg(0x25, 0x04);
    let fs = drv.get_func_status().unwrap();
    assert!(fs.presence_flag());
    assert!(!fs.mot_flag());
    assert!(!fs.tamb_shock_flag());
    // the flags latch until read and clear as a side effect of the read
    let fs2 = drv.get_func_status().unwrap();
    assert!(!fs2.presence_flag());
    assert!(!fs2.mot_flag());
    assert!(!fs2.tamb_shock_flag());
    drv.bus.set_reg(0x25, 0x03);
    let fs3 = drv.get_func_status().unwrap();
    assert!(!fs3.presence_flag());
    assert!(fs3.mot_flag());
    assert!(fs3.tamb_shock_flag());
}

#[test]
fn measurements_presence_only() {
    let mut drv = fresh();
    drv.bus.set_reg(0x23, 0x04);
    drv.bus.set_reg(0x25, 0x04);
    drv.bus.set_reg(0x3a, 0x34);
    drv.bus.set_reg(0x3b, 0x02);
    let m = drv.get_measurements_timeout(3).unwrap();
    assert_eq!(m.presence_value, Some(0x0234));
    assert_eq!(m.motion_value, None);
    assert_eq!(m.ambient_shock_value, None);
}

#[test]
fn measurements_all_three_signals() {
    let mut drv = fresh();
    drv.bus.set_reg(0x23, 0x04);
    drv.bus.set_reg(0x25, 0x07);
    // presence 0x7fff
    drv.bus.set_reg(0x3a, 0xff);
    drv.bus.set_reg(0x3b, 0x7f);
    // motion -200 (little-endian two's complement)
    drv.bus.set_reg(0x26, 0x38);
    drv.bus.set_reg(0x27, 0xff);
    // ambient shock 100
    drv.bus.set_reg(0x3e, 0x64);
    drv.bus.set_reg(0x3f, 0x00);
    let m = drv.get_measurements_timeout(3).unwrap();
    assert_eq!(m.presence_value, Some(0x7fff));
    assert_eq!(m.motion_value, Some(-200));
    assert_eq!(m.ambient_shock_value, Some(100));
}

#[test]
fn measurements_blocking_returns_on_first_flag() {
    let mut drv = fresh();
    drv.bus.set_reg(0x23, 0x04);
    drv.bus.set_reg(0x25, 0x02);
    drv.bus.set_reg(0x26, 0x2a);
    let m = drv.get_measurements().unwrap();
    assert_eq!(m.motion_value, Some(0x2a));
    assert_eq!(m.presence_value, None);
    assert_eq!(m.ambient_shock_value, None);
}

#[test]
fn value_reads_decode_little_endian() {
    let mut drv = fresh();
    drv.bus.set_reg(0x3a, 0x00);
    drv.bus.set_reg(0x3b, 0x80);
    assert_eq!(drv.get_presence().unwrap(), -32768);
    drv.bus.set_reg(0x26, 0x01);
    drv.bus.set_reg(0x27, 0x00);
    assert_eq!(drv.get_tmotion().unwrap(), 1);
    drv.bus.set_reg(0x3e, 0xff);
    drv.bus.set_reg(0x3f, 0xff);
    assert_eq!(drv.get_shock_temperature().unwrap(), -1);
    drv.bus.set_reg(0x28, 0x10);
    drv.bus.set_reg(0x29, 0x27);
    assert_eq!(drv.get_ambient_temperature().unwrap(), 10000);
}

#[test]
fn interrupt_pin_config_round_trip() {
    let cfg = InterruptPinConfig::builder()
        .active_high()
        .open_drain()
        .on_new_presence()
        .latched_pin()
        .ien_int_or()
        .build();
    assert_eq!(cfg, 0xe2);
    let mut drv = fresh();
    let rb = drv.set_config_interrupt_pin(cfg).unwrap();
    assert_eq!(rb.get_u8_value(), cfg);
    assert_eq!(drv.bus.get_reg(0x22), cfg);
}

#[test]
fn gain_mode_round_trip_and_out_of_range() {
    let mut drv = fresh();
    drv.set_gain_mode(Gain::GainDefault).unwrap();
    assert_eq!(drv.bus.get_reg(0x17), 0x70);
    assert_eq!(drv.get_gain_mode().unwrap(), Gain::GainDefault);
    drv.set_gain_mode(Gain::GainWideMode).unwrap();
    assert_eq!(drv.bus.get_reg(0x17), 0x00);
    assert_eq!(drv.get_gain_mode().unwrap(), Gain::GainWideMode);
    drv.bus.set_reg(0x17, 0x30);
    assert!(matches!(drv.get_gain_mode(), Err(Sths34pf80Error::OutOfRange)));
}

#[test]
fn hysteresis_round_trip_all_kinds() {
    for kind in [ThresholdKind::Presence, ThresholdKind::Motion, ThresholdKind::AmbientShock] {
        let mut drv = fresh();
        drv.set_hysteresis(kind, 0xab).unwrap();
        assert_eq!(drv.get_hysteresis(kind).unwrap(), 0xab);
        assert_eq!(drv.bus.get_reg(0x21), 0x00);
        assert_eq!(drv.bus.get_reg(0x11), 0x00);
    }
}

#[test]
fn lpf_setters_hit_their_fields() {
    let mut drv = fresh();
    drv.set_lpf_m_p(LPF_DIV::STHS34PF80_LPF_ODR_DIV_100).unwrap();
    assert_eq!(drv.bus.get_reg(0x0c), 0x18);
    drv.set_lpf_m(LPF_DIV::STHS34PF80_LPF_ODR_DIV_800).unwrap();
    assert_eq!(drv.bus.get_reg(0x0c), 0x1e);
    drv.set_lpf_p(LPF_DIV::STHS34PF80_LPF_ODR_DIV_20).unwrap();
    assert_eq!(drv.bus.get_reg(0x0d), 0x08);
    drv.set_lpf_a_t(LPF_DIV::STHS34PF80_LPF_ODR_DIV_50).unwrap();
    assert_eq!(drv.bus.get_reg(0x0d), 0x0a);
}

#[test]
fn sensitivity_raw_round_trip() {
    let mut drv = fresh();
    drv.set_tmos_sensitivity_raw(0x55).unwrap();
    assert_eq!(drv.get_tmos_sensitivity_raw().unwrap(), 0x55);
}

#[test]
fn avg_trim_round_trip_and_limit() {
    let mut drv = fresh();
    drv.set_avg_tmos_num(AverageTrimTMOSFlag::AVG_TMOS32).unwrap();
    assert!(matches!(drv.get_avg_tmos_num().unwrap(), AverageTrimTMOSFlag::AVG_TMOS32));
    // a trim too slow for the current rate is rejected
    let mut drv2 = fresh();
    drv2.bus.set_reg(0x20, 0x08);
    let r = drv2.set_avg_tmos_num(AverageTrimTMOSFlag::AVG_TMOS2048);
    assert!(matches!(r, Err(Sths34pf80Error::OdrNewTooBig(2))));
}

#[test]
fn paged_read_readdresses_every_byte() {
    // auto-increment does not work for paged reads: each byte must come
    // from its own address-select write, which the simulated gateway
    // mirrors by never advancing the pointer on reads
    let mut drv = fresh();
    drv.bus.set_bank(0x20, 0xaa);
    drv.bus.set_bank(0x21, 0xbb);
    assert_eq!(drv.get_presence_threshold().unwrap(), 0xbbaa);
}

#[test]
fn paged_write_autoincrements_data_bytes() {
    // two data bytes written back-to-back land at consecutive sub-addresses
    let mut drv = fresh();
    drv.write_paged(0x30, 0xaa, Some(0xbb)).unwrap();
    assert_eq!(drv.bus.get_bank(0x30), 0xaa);
    assert_eq!(drv.bus.get_bank(0x31), 0xbb);
    let got = drv.read_paged(0x30, 2).unwrap();
    assert_eq!(got, [0xaa, 0xbb]);
    assert_eq!(drv.bus.get_reg(0x21), 0x00);
    assert_eq!(drv.bus.get_reg(0x11), 0x00);
}

#[test]
fn release_returns_the_transport() {
    let mut drv = fresh();
    drv.set_tmos_sensitivity_raw(0x11).unwrap();
    let bus = drv.release();
    assert_eq!(bus.log.len(), 1);
    assert_eq!(bus.get_reg(0x1d), 0x11);
}
