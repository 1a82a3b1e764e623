//! The driver: a register access layer over the transport capability, the
//! stateless single-register accessors, the operating-mode guard, the paged
//! function-configuration accessor, threshold and hysteresis configuration,
//! and measurement acquisition.
//!
//! Every operation's contract is stated over the transport's ghost trace:
//! which transactions the operation performs, and how its result relates to
//! the bytes the device answered.

use vstd::prelude::*;

use crate::bus::BusOp;
use crate::bus::Transport;
use crate::data::AverageTrimT1Flag;
use crate::data::AverageTrimTMOSFlag;
use crate::data::FuncStatus;
use crate::data::Gain;
use crate::data::InterruptPinConfig;
use crate::data::LPF_DIV;
use crate::data::Measurements;
use crate::data::Odr;
use crate::data::max_odr_for;
use crate::data::odr_code;
use crate::data::odr_of;
use crate::data::t1_trim_of;
use crate::data::tmos_trim_of;
use crate::data::gain_code;
use crate::data::lpf_div_code;
use crate::data::t1_trim_code;
use crate::data::ThresholdKind;
use crate::data::hyst_addr;
use crate::data::ths_addr;
use crate::data::tmos_trim_code;
use crate::error::Sths34pf80Error;
use crate::regmap::CTRL2_FUNC_CFG_ACCESS;
use crate::regmap::DEVICE_ADDR;
use crate::regmap::EMB_RESET_ALGO;
use crate::regmap::PAGE_READ_MODE;
use crate::regmap::PAGE_WRITE_MODE;
use crate::regmap::PART_ID;
use crate::regmap::REG_AMB_SHOCK_L;
use crate::regmap::REG_AMBIENT_L;
use crate::regmap::REG_AVG_TRIM;
use crate::regmap::REG_CTRL0;
use crate::regmap::REG_LPF1;
use crate::regmap::REG_LPF2;
use crate::regmap::REG_MOTION_L;
use crate::regmap::REG_PRESENCE_L;
use crate::regmap::CTRL2_BOOT;
use crate::regmap::REG_CTRL1;
use crate::regmap::REG_CTRL2;
use crate::regmap::REG_CTRL3;
use crate::regmap::REG_FUNC_CFG_ADDR;
use crate::regmap::REG_FUNC_CFG_DATA;
use crate::regmap::REG_FUNC_STATUS;
use crate::regmap::REG_PAGE_RW;
use crate::regmap::REG_SENS_DATA;
use crate::regmap::REG_STATUS;
use crate::regmap::REG_WHO_AM_I;
use crate::regmap::RESET_ALGO_CMD;
use crate::regmap::STATUS_DRDY_BIT;
use crate::trace::appended;
use crate::trace::extends;
use crate::trace::has_write_to;
use crate::trace::is_paged_data_write;
use crate::trace::is_read1_of;
use crate::trace::last_write_byte;
use crate::trace::count_delays;
use crate::trace::count_reads_of;
use crate::trace::lemma_count_delays_concat;
use crate::trace::lemma_count_delays_push;
use crate::trace::lemma_count_reads_concat;
use crate::trace::lemma_count_reads_push;
use crate::trace::lemma_rd1_not_of;
use crate::trace::lemma_extends_push;
use crate::trace::lemma_extends_refl;
use crate::trace::lemma_extends_trans;
use crate::trace::lemma_last_write_byte_concat;
use crate::trace::lemma_last_write_byte_push;
use crate::trace::lemma_paged_reads_concat;
use crate::trace::lemma_paged_reads_push_other;
use crate::trace::lemma_read_step;
use crate::trace::lemma_write_step;
use crate::trace::lemma_paged_reads_push_pair;
use crate::trace::lemma_paged_writes_concat;
use crate::trace::lemma_paged_writes_push_other;
use crate::trace::lemma_paged_writes_push_pair;
use crate::trace::no_writes;
use crate::trace::paged_reads;
use crate::trace::paged_writes;
use crate::trace::rd1;
use crate::trace::read1_val;
use crate::trace::read_data;
use crate::trace::wr1;

verus! {

/// The signed 16-bit value a little-endian register pair holds.
pub open spec fn i16_le(lo: u8, hi: u8) -> int {
    if hi >= 0x80 {
        lo + hi * 256 - 65536
    } else {
        lo + hi * 256
    }
}

/// The unsigned 16-bit value a little-endian register pair holds.
pub open spec fn u16_le(lo: u8, hi: u8) -> u16 {
    (lo + hi * 256) as u16
}

/// Assemble a signed 16-bit value from its little-endian register pair.
pub fn i16_from_le_pair(lo: u8, hi: u8) -> (r: i16)
    ensures
        r as int == i16_le(lo, hi),
{
    let mag: u32 = lo as u32 + (hi as u32) * 256;
    if mag >= 32768 {
        let neg: u32 = 65536 - mag;
        if neg == 32768 {
            i16::MIN
        } else {
            let pos: i16 = neg as i16;
            -pos
        }
    } else {
        mag as i16
    }
}

/// The two little-endian bytes a threshold value is stored as.
pub open spec fn threshold_bytes(v: u16) -> Seq<u8> {
    seq![(v % 256) as u8, (v / 256) as u8]
}

/// The output-data-rate field of a CTRL1 value (its low four bits).
pub open spec fn odr_bits(c1: u8) -> u8 {
    c1 & 0x0f
}

/// The paged-access window is closed at the end of the sequence: the last
/// CTRL2 write cleared the register (function-config access bit included)
/// and the last page-register write put the sub-mode bits back to zero.
pub open spec fn paged_window_closed(sub: Seq<BusOp>) -> bool {
    &&& has_write_to(sub, REG_CTRL2)
    &&& last_write_byte(sub, REG_CTRL2) == Some(0u8)
    &&& has_write_to(sub, REG_PAGE_RW)
    &&& last_write_byte(sub, REG_PAGE_RW) == Some(0u8)
}

/// The output-data-rate field ends at its pre-sequence value: the sequence
/// opens with a CTRL1 read, and either never writes CTRL1 again (the device
/// was already powered down) or last writes back exactly the value it first
/// read.
pub open spec fn odr_restored(sub: Seq<BusOp>) -> bool {
    &&& sub.len() >= 1
    &&& is_read1_of(sub[0], REG_CTRL1)
    &&& if odr_bits(read1_val(sub[0])) == 0 {
        !has_write_to(sub, REG_CTRL1)
    } else {
        last_write_byte(sub, REG_CTRL1) == Some(read1_val(sub[0]))
    }
}

/// A segment that touches neither the paged gateway nor the access window
/// nor the page register.
pub open spec fn quiet_seg(sub: Seq<BusOp>) -> bool {
    &&& paged_writes(sub) == Seq::<(u8, Seq<u8>)>::empty()
    &&& paged_reads(sub) == Seq::<(u8, u8)>::empty()
    &&& !has_write_to(sub, REG_CTRL2)
    &&& !has_write_to(sub, REG_PAGE_RW)
}

/// One or two data bytes for a paged write.
pub open spec fn data_bytes(d0: u8, d1: Option<u8>) -> Seq<u8> {
    match d1 {
        Some(b) => seq![d0, b],
        None => seq![d0],
    }
}

/// The exact transaction sequence of one write through the paged gateway:
/// open the access window, select the write sub-mode, select the
/// sub-address once, write the data bytes back-to-back (address
/// auto-increment works for paged writes), close the sub-mode, close the
/// window.
pub open spec fn core_write_seq(dev: u8, sub: u8, data: Seq<u8>) -> Seq<BusOp> {
    seq![
        wr1(dev, REG_CTRL2, CTRL2_FUNC_CFG_ACCESS),
        wr1(dev, REG_PAGE_RW, PAGE_WRITE_MODE),
        wr1(dev, REG_FUNC_CFG_ADDR, sub),
        BusOp::Write { dev, data: seq![REG_FUNC_CFG_DATA] + data },
        wr1(dev, REG_PAGE_RW, 0x00),
        wr1(dev, REG_CTRL2, 0x00),
    ]
}

/// The sub-address/byte pairs a paged read of `vals.len()` bytes starting
/// at `a0` extracts to.
pub open spec fn pr_pairs(a0: u8, vals: Seq<u8>) -> Seq<(u8, u8)> {
    Seq::new(vals.len(), |i: int| (((a0 + i) as u8), vals[i]))
}

/// One when the masked flag is set, zero otherwise.
pub open spec fn flag1(fs: u8, mask: u8) -> int {
    if fs & mask != 0 {
        1
    } else {
        0
    }
}

/// The transaction reads exactly two bytes back from the little-endian
/// register pair starting at `reg`.
pub open spec fn is_read2_of(op: BusOp, reg: u8) -> bool {
    match op {
        BusOp::Read { sent, data, .. } => sent == seq![reg] && data.len() == 2,
        _ => false,
    }
}

/// The signed value a two-byte little-endian read returned.
pub open spec fn read2_val(op: BusOp) -> int {
    i16_le(read_data(op)[0], read_data(op)[1])
}

/// One productive measurement pass: a status read showing data-ready, the
/// function-status read, and one two-byte value read for exactly each flag
/// that was set, in presence/motion/ambient-shock order. Each populated
/// field of the result carries the value its read answered.
pub open spec fn productive_pass(seg: Seq<BusOp>, m: Measurements) -> bool {
    &&& seg.len() >= 2
    &&& is_read1_of(seg[0], REG_STATUS)
    &&& read1_val(seg[0]) & STATUS_DRDY_BIT != 0
    &&& is_read1_of(seg[1], REG_FUNC_STATUS)
    &&& {
        let fs = read1_val(seg[1]);
        let pi = 2int;
        let mi = pi + flag1(fs, 0x04);
        let si = mi + flag1(fs, 0x02);
        &&& fs & 0x07 != 0
        &&& seg.len() == si + flag1(fs, 0x01)
        &&& (m.presence_value is Some <==> fs & 0x04 != 0)
        &&& (m.motion_value is Some <==> fs & 0x02 != 0)
        &&& (m.ambient_shock_value is Some <==> fs & 0x01 != 0)
        &&& (fs & 0x04 != 0 ==> is_read2_of(seg[pi], REG_PRESENCE_L) && (m.presence_value matches
        Some(v) && v as int == read2_val(seg[pi])))
        &&& (fs & 0x02 != 0 ==> is_read2_of(seg[mi], REG_MOTION_L) && (m.motion_value matches Some(
            v,
        ) && v as int == read2_val(seg[mi])))
        &&& (fs & 0x01 != 0 ==> is_read2_of(seg[si], REG_AMB_SHOCK_L) && (
        m.ambient_shock_value matches Some(v) && v as int == read2_val(seg[si])))
    }
}

/// How many transactions the productive pass for this result takes.
pub open spec fn pass_len(m: Measurements) -> int {
    2 + (if m.presence_value is Some {
        1int
    } else {
        0
    }) + (if m.motion_value is Some {
        1int
    } else {
        0
    }) + (if m.ambient_shock_value is Some {
        1int
    } else {
        0
    })
}

/// The trace ends with a productive pass that produced this result.
pub open spec fn productive_suffix(sub: Seq<BusOp>, m: Measurements) -> bool {
    &&& pass_len(m) <= sub.len()
    &&& productive_pass(sub.skip(sub.len() - pass_len(m)), m)
}

/// What a successful paged-write sequence leaves in the trace.
pub proof fn lemma_core_write_seq_facts(dev: u8, sub: u8, data: Seq<u8>)
    ensures
        paged_writes(core_write_seq(dev, sub, data)) == seq![(sub, data)],
        paged_reads(core_write_seq(dev, sub, data)) == Seq::<(u8, u8)>::empty(),
        has_write_to(core_write_seq(dev, sub, data), REG_CTRL2),
        last_write_byte(core_write_seq(dev, sub, data), REG_CTRL2) == Some(0u8),
        has_write_to(core_write_seq(dev, sub, data), REG_PAGE_RW),
        last_write_byte(core_write_seq(dev, sub, data), REG_PAGE_RW) == Some(0u8),
        !has_write_to(core_write_seq(dev, sub, data), REG_CTRL1),
        !has_write_to(core_write_seq(dev, sub, data), REG_AVG_TRIM),
        core_write_seq(dev, sub, data).len() == 6,
        !is_paged_data_write(core_write_seq(dev, sub, data)[0]),
        !is_read1_of(core_write_seq(dev, sub, data)[0], REG_FUNC_CFG_DATA),
{
    let e1 = wr1(dev, REG_CTRL2, CTRL2_FUNC_CFG_ACCESS);
    let e2 = wr1(dev, REG_PAGE_RW, PAGE_WRITE_MODE);
    let wa = wr1(dev, REG_FUNC_CFG_ADDR, sub);
    let wd = BusOp::Write { dev, data: seq![REG_FUNC_CFG_DATA] + data };
    let e5 = wr1(dev, REG_PAGE_RW, 0x00);
    let e6 = wr1(dev, REG_CTRL2, 0x00);
    let s0 = Seq::<BusOp>::empty();
    let s2 = s0.push(e1).push(e2);
    let s4 = s2.push(wa).push(wd);
    let s6 = s4.push(e5).push(e6);
    assert(core_write_seq(dev, sub, data) =~= s6);
    assert((seq![REG_FUNC_CFG_DATA] + data)[0] == REG_FUNC_CFG_DATA);
    lemma_paged_writes_push_other(s0, e1);
    lemma_paged_writes_push_other(s0.push(e1), e2);
    assert(paged_writes(s2) =~= Seq::<(u8, Seq<u8>)>::empty());
    lemma_paged_writes_push_pair(s2, dev, sub, data);
    lemma_paged_writes_push_other(s4, e5);
    lemma_paged_writes_push_other(s4.push(e5), e6);
    assert(paged_writes(s6) =~= seq![(sub, data)]);
    lemma_paged_reads_push_other(s0, e1);
    lemma_paged_reads_push_other(s0.push(e1), e2);
    lemma_paged_reads_push_other(s2, wa);
    lemma_paged_reads_push_other(s2.push(wa), wd);
    lemma_paged_reads_push_other(s4, e5);
    lemma_paged_reads_push_other(s4.push(e5), e6);
    assert(paged_reads(s6) =~= Seq::<(u8, u8)>::empty());
    lemma_last_write_byte_push(s0, e1, REG_CTRL2);
    lemma_last_write_byte_push(s0.push(e1), e2, REG_CTRL2);
    lemma_last_write_byte_push(s2, wa, REG_CTRL2);
    lemma_last_write_byte_push(s2.push(wa), wd, REG_CTRL2);
    lemma_last_write_byte_push(s4, e5, REG_CTRL2);
    lemma_last_write_byte_push(s4.push(e5), e6, REG_CTRL2);
    lemma_last_write_byte_push(s0, e1, REG_PAGE_RW);
    lemma_last_write_byte_push(s0.push(e1), e2, REG_PAGE_RW);
    lemma_last_write_byte_push(s2, wa, REG_PAGE_RW);
    lemma_last_write_byte_push(s2.push(wa), wd, REG_PAGE_RW);
    lemma_last_write_byte_push(s4, e5, REG_PAGE_RW);
    lemma_last_write_byte_push(s4.push(e5), e6, REG_PAGE_RW);
    lemma_last_write_byte_push(s0, e1, REG_CTRL1);
    lemma_last_write_byte_push(s0.push(e1), e2, REG_CTRL1);
    lemma_last_write_byte_push(s2, wa, REG_CTRL1);
    lemma_last_write_byte_push(s2.push(wa), wd, REG_CTRL1);
    lemma_last_write_byte_push(s4, e5, REG_CTRL1);
    lemma_last_write_byte_push(s4.push(e5), e6, REG_CTRL1);
    lemma_last_write_byte_push(s0, e1, REG_AVG_TRIM);
    lemma_last_write_byte_push(s0.push(e1), e2, REG_AVG_TRIM);
    lemma_last_write_byte_push(s2, wa, REG_AVG_TRIM);
    lemma_last_write_byte_push(s2.push(wa), wd, REG_AVG_TRIM);
    lemma_last_write_byte_push(s4, e5, REG_AVG_TRIM);
    lemma_last_write_byte_push(s4.push(e5), e6, REG_AVG_TRIM);
}

/// The driver. It owns the transport capability exclusively; the fixed bus
/// address is set at construction.
pub struct Sths34pf80<T: Transport> {
    /// The bus and delay capability.
    pub bus: T,
    /// The device's 7-bit bus address.
    pub address: u8,
}

impl<T: Transport> Sths34pf80<T> {
    /// The ghost trace of every bus transaction performed so far.
    pub open spec fn ops(&self) -> Seq<BusOp> {
        self.bus.ops()
    }

    /// Take exclusive ownership of the transport.
    pub fn new(bus: T) -> (r: Self)
        ensures
            r.bus == bus,
            r.address == DEVICE_ADDR,
    {
        Sths34pf80 { bus, address: DEVICE_ADDR }
    }

    /// Give the transport back.
    pub fn release(self) -> (r: T)
        ensures
            r == self.bus,
    {
        self.bus
    }

    /// One single-register write transaction.
    fn write_reg(&mut self, reg: u8, val: u8) -> (r: Result<(), Sths34pf80Error<T::TError>>)
        ensures
            final(self).address == old(self).address,
            extends(old(self).ops(), final(self).ops()),
            r is Ok ==> final(self).ops() == old(self).ops().push(
                wr1(old(self).address, reg, val),
            ),
            r is Err ==> final(self).ops() == old(self).ops() && r matches Err(
                Sths34pf80Error::WriteError(_),
            ),
    {
        let mut buf: Vec<u8> = Vec::new();
        buf.push(reg);
        buf.push(val);
        proof {
            assert(buf@ =~= seq![reg, val]);
        }
        let a = self.address;
        match self.bus.write(a, &buf) {
            Ok(()) => {
                proof {
                    lemma_extends_push(old(self).ops(), wr1(a, reg, val));
                }
                Ok(())
            },
            Err(e) => {
                proof {
                    lemma_extends_refl(old(self).ops());
                }
                Err(Sths34pf80Error::WriteError(e))
            },
        }
    }

    /// One combined transaction: select `reg`, then read `n` bytes back.
    fn read_regs(&mut self, reg: u8, n: usize) -> (r: Result<
        Vec<u8>,
        Sths34pf80Error<T::TError>,
    >)
        ensures
            final(self).address == old(self).address,
            extends(old(self).ops(), final(self).ops()),
            r matches Ok(v) ==> v@.len() == n && final(self).ops() == old(self).ops().push(
                BusOp::Read { dev: old(self).address, sent: seq![reg], data: v@ },
            ),
            r is Err ==> final(self).ops() == old(self).ops() && r matches Err(
                Sths34pf80Error::WriteReadError(_),
            ),
    {
        let mut sent: Vec<u8> = Vec::new();
        sent.push(reg);
        proof {
            assert(sent@ =~= seq![reg]);
        }
        let a = self.address;
        match self.bus.write_then_read(a, &sent, n) {
            Ok(v) => {
                proof {
                    lemma_extends_push(
                        old(self).ops(),
                        BusOp::Read { dev: a, sent: seq![reg], data: v@ },
                    );
                }
                Ok(v)
            },
            Err(e) => {
                proof {
                    lemma_extends_refl(old(self).ops());
                }
                Err(Sths34pf80Error::WriteReadError(e))
            },
        }
    }

    /// One single-register read transaction.
    fn read_reg(&mut self, reg: u8) -> (r: Result<u8, Sths34pf80Error<T::TError>>)
        ensures
            final(self).address == old(self).address,
            extends(old(self).ops(), final(self).ops()),
            r matches Ok(b) ==> final(self).ops() == old(self).ops().push(
                rd1(old(self).address, reg, b),
            ),
            r is Err ==> final(self).ops() == old(self).ops() && r matches Err(
                Sths34pf80Error::WriteReadError(_),
            ),
    {
        let v = self.read_regs(reg, 1)?;
        let b = v[0];
        proof {
            assert(v@ =~= seq![b]);
        }
        Ok(b)
    }

    /// One little-endian register-pair read transaction.
    fn read_i16(&mut self, reg: u8) -> (r: Result<i16, Sths34pf80Error<T::TError>>)
        ensures
            final(self).address == old(self).address,
            extends(old(self).ops(), final(self).ops()),
            r matches Ok(v) ==> {
                let sub = appended(old(self).ops(), final(self).ops());
                &&& sub.len() == 1
                &&& sub[0] matches BusOp::Read { dev, sent, data } && dev == old(self).address
                    && sent == seq![reg] && data.len() == 2 && v as int == i16_le(data[0], data[1])
            },
            r is Err ==> final(self).ops() == old(self).ops() && r matches Err(
                Sths34pf80Error::WriteReadError(_),
            ),
    {
        let v = self.read_regs(reg, 2)?;
        proof {
            lemma_extends_push(
                old(self).ops(),
                BusOp::Read { dev: old(self).address, sent: seq![reg], data: v@ },
            );
        }
        Ok(i16_from_le_pair(v[0], v[1]))
    }

    /// One block for `ms` milliseconds through the transport's delay.
    fn delay(&mut self, ms: u32)
        ensures
            final(self).address == old(self).address,
            extends(old(self).ops(), final(self).ops()),
            final(self).ops() == old(self).ops().push(BusOp::Delay { ms }),
    {
        self.bus.delay_ms(ms);
        proof {
            lemma_extends_push(old(self).ops(), BusOp::Delay { ms });
        }
    }

    /// One write transaction into the gateway's data register, carrying one
    /// or two data bytes back-to-back.
    fn write_gateway_data(&mut self, d0: u8, d1: Option<u8>) -> (r: Result<
        (),
        Sths34pf80Error<T::TError>,
    >)
        ensures
            final(self).address == old(self).address,
            extends(old(self).ops(), final(self).ops()),
            r is Ok ==> final(self).ops() == old(self).ops().push(
                BusOp::Write {
                    dev: old(self).address,
                    data: seq![REG_FUNC_CFG_DATA] + data_bytes(d0, d1),
                },
            ),
            r is Err ==> final(self).ops() == old(self).ops() && r matches Err(
                Sths34pf80Error::WriteError(_),
            ),
    {
        let mut buf: Vec<u8> = Vec::new();
        buf.push(REG_FUNC_CFG_DATA);
        buf.push(d0);
        match d1 {
            Some(b) => {
                buf.push(b);
                proof {
                    assert(buf@ =~= seq![REG_FUNC_CFG_DATA] + data_bytes(d0, d1));
                }
            },
            None => {
                proof {
                    assert(buf@ =~= seq![REG_FUNC_CFG_DATA] + data_bytes(d0, d1));
                }
            },
        }
        let a = self.address;
        match self.bus.write(a, &buf) {
            Ok(()) => {
                proof {
                    lemma_extends_push(
                        old(self).ops(),
                        BusOp::Write { dev: a, data: seq![REG_FUNC_CFG_DATA] + data_bytes(d0, d1) },
                    );
                }
                Ok(())
            },
            Err(e) => {
                proof {
                    lemma_extends_refl(old(self).ops());
                }
                Err(Sths34pf80Error::WriteError(e))
            },
        }
    }

    /// One complete write through the paged gateway, with the device already
    /// quiesced by the caller. On a failure part-way in, the sub-mode and
    /// the access window are still cleared on a best-effort basis before the
    /// error surfaces, so the device is not left with the window open.
    fn func_cfg_write_core(&mut self, sub: u8, d0: u8, d1: Option<u8>) -> (r: Result<
        (),
        Sths34pf80Error<T::TError>,
    >)
        ensures
            final(self).address == old(self).address,
            extends(old(self).ops(), final(self).ops()),
            r is Ok ==> appended(old(self).ops(), final(self).ops()) == core_write_seq(
                old(self).address,
                sub,
                data_bytes(d0, d1),
            ),
            r is Err ==> r matches Err(Sths34pf80Error::WriteError(_)),
    {
        let a = self.address;
        let ghost o0 = self.ops();
        match self.write_reg(REG_CTRL2, CTRL2_FUNC_CFG_ACCESS) {
            Ok(()) => {},
            Err(e) => {
                return Err(e);
            },
        }
        proof {
            assert(self.ops().take(o0.len() as int) =~= o0);
        }
        match self.write_reg(REG_PAGE_RW, PAGE_WRITE_MODE) {
            Ok(()) => {},
            Err(e) => {
                let ghost ek = self.ops();
                let _ = self.write_reg(REG_CTRL2, 0x00);
                proof {
                    lemma_extends_trans(o0, ek, self.ops());
                }
                return Err(e);
            },
        }
        proof {
            assert(self.ops().take(o0.len() as int) =~= o0);
        }
        match self.write_reg(REG_FUNC_CFG_ADDR, sub) {
            Ok(()) => {},
            Err(e) => {
                let ghost ek = self.ops();
                let _ = self.write_reg(REG_PAGE_RW, 0x00);
                let ghost em = self.ops();
                let _ = self.write_reg(REG_CTRL2, 0x00);
                proof {
                    lemma_extends_trans(ek, em, self.ops());
                    lemma_extends_trans(o0, ek, self.ops());
                }
                return Err(e);
            },
        }
        proof {
            assert(self.ops().take(o0.len() as int) =~= o0);
        }
        match self.write_gateway_data(d0, d1) {
            Ok(()) => {},
            Err(e) => {
                let ghost ek = self.ops();
                let _ = self.write_reg(REG_PAGE_RW, 0x00);
                let ghost em = self.ops();
                let _ = self.write_reg(REG_CTRL2, 0x00);
                proof {
                    lemma_extends_trans(ek, em, self.ops());
                    lemma_extends_trans(o0, ek, self.ops());
                }
                return Err(e);
            },
        }
        proof {
            assert(self.ops().take(o0.len() as int) =~= o0);
        }
        match self.write_reg(REG_PAGE_RW, 0x00) {
            Ok(()) => {},
            Err(e) => {
                let ghost ek = self.ops();
                let _ = self.write_reg(REG_CTRL2, 0x00);
                proof {
                    lemma_extends_trans(o0, ek, self.ops());
                }
                return Err(e);
            },
        }
        proof {
            assert(self.ops().take(o0.len() as int) =~= o0);
        }
        match self.write_reg(REG_CTRL2, 0x00) {
            Ok(()) => {},
            Err(e) => {
                return Err(e);
            },
        }
        proof {
            let fin = self.ops();
            assert(fin.take(o0.len() as int) =~= o0);
            assert(appended(o0, fin) =~= core_write_seq(a, sub, data_bytes(d0, d1)));
        }
        Ok(())
    }

    /// One complete read through the paged gateway, in whatever mode the
    /// device is currently in. Address auto-increment does not work for
    /// paged reads, so every byte is fetched by its own address-select
    /// write followed by a one-byte read of the data register. On a failure
    /// part-way in, the sub-mode and the access window are still cleared on
    /// a best-effort basis before the error surfaces.
    fn func_cfg_read_core(&mut self, sub: u8, n: usize) -> (r: Result<
        Vec<u8>,
        Sths34pf80Error<T::TError>,
    >)
        requires
            sub as int + n <= 256,
        ensures
            final(self).address == old(self).address,
            extends(old(self).ops(), final(self).ops()),
            r is Err ==> r matches Err(Sths34pf80Error::WriteError(_)) || r matches Err(
                Sths34pf80Error::WriteReadError(_),
            ),
            r matches Ok(v) ==> {
                let subt = appended(old(self).ops(), final(self).ops());
                &&& v@.len() == n
                &&& paged_writes(subt) == Seq::<(u8, Seq<u8>)>::empty()
                &&& paged_reads(subt) == pr_pairs(sub, v@)
                &&& paged_window_closed(subt)
                &&& !has_write_to(subt, REG_CTRL1)
                &&& subt.len() >= 2
                &&& !is_paged_data_write(subt[0])
                &&& !is_read1_of(subt[0], REG_FUNC_CFG_DATA)
            },
    {
        let a = self.address;
        let ghost o0 = self.ops();
        match self.write_reg(REG_CTRL2, CTRL2_FUNC_CFG_ACCESS) {
            Ok(()) => {},
            Err(e) => {
                return Err(e);
            },
        }
        proof {
            assert(self.ops().take(o0.len() as int) =~= o0);
        }
        match self.write_reg(REG_PAGE_RW, PAGE_READ_MODE) {
            Ok(()) => {},
            Err(e) => {
                let ghost ek = self.ops();
                let _ = self.write_reg(REG_CTRL2, 0x00);
                proof {
                    lemma_extends_trans(o0, ek, self.ops());
                }
                return Err(e);
            },
        }
        let ghost e1 = wr1(a, REG_CTRL2, CTRL2_FUNC_CFG_ACCESS);
        let ghost e2 = wr1(a, REG_PAGE_RW, PAGE_READ_MODE);
        proof {
            assert(self.ops().take(o0.len() as int) =~= o0);
            assert(appended(o0, self.ops()) =~= Seq::<BusOp>::empty().push(e1).push(e2));
            lemma_paged_writes_push_other(Seq::<BusOp>::empty(), e1);
            lemma_paged_writes_push_other(Seq::<BusOp>::empty().push(e1), e2);
            lemma_paged_reads_push_other(Seq::<BusOp>::empty(), e1);
            lemma_paged_reads_push_other(Seq::<BusOp>::empty().push(e1), e2);
            lemma_last_write_byte_push(Seq::<BusOp>::empty(), e1, REG_CTRL2);
            lemma_last_write_byte_push(Seq::<BusOp>::empty().push(e1), e2, REG_CTRL2);
            lemma_last_write_byte_push(Seq::<BusOp>::empty(), e1, REG_PAGE_RW);
            lemma_last_write_byte_push(Seq::<BusOp>::empty().push(e1), e2, REG_PAGE_RW);
            lemma_last_write_byte_push(Seq::<BusOp>::empty(), e1, REG_CTRL1);
            lemma_last_write_byte_push(Seq::<BusOp>::empty().push(e1), e2, REG_CTRL1);
            assert(pr_pairs(sub, Seq::<u8>::empty()) =~= Seq::<(u8, u8)>::empty());
        }
        let mut out: Vec<u8> = Vec::new();
        let mut i: usize = 0;
        while i < n
            invariant
                i <= n,
                out.len() == i,
                sub as int + n <= 256,
                self.address == a,
                a == old(self).address,
                o0 == old(self).ops(),
                extends(o0, self.ops()),
                appended(o0, self.ops()).len() >= 2,
                appended(o0, self.ops())[0] == wr1(a, REG_CTRL2, CTRL2_FUNC_CFG_ACCESS),
                paged_writes(appended(o0, self.ops())) == Seq::<(u8, Seq<u8>)>::empty(),
                paged_reads(appended(o0, self.ops())) == pr_pairs(sub, out@),
                has_write_to(appended(o0, self.ops()), REG_CTRL2),
                last_write_byte(appended(o0, self.ops()), REG_CTRL2) == Some(
                    CTRL2_FUNC_CFG_ACCESS,
                ),
                has_write_to(appended(o0, self.ops()), REG_PAGE_RW),
                last_write_byte(appended(o0, self.ops()), REG_PAGE_RW) == Some(PAGE_READ_MODE),
                !has_write_to(appended(o0, self.ops()), REG_CTRL1),
            decreases n - i,
        {
            let ghost cp = self.ops();
            let ghost subp = appended(o0, cp);
            let ai: u8 = sub + (i as u8);
            match self.write_reg(REG_FUNC_CFG_ADDR, ai) {
                Ok(()) => {},
                Err(e) => {
                    let ghost ek = self.ops();
                    let _ = self.write_reg(REG_PAGE_RW, 0x00);
                    let ghost em = self.ops();
                    let _ = self.write_reg(REG_CTRL2, 0x00);
                    proof {
                        lemma_extends_trans(ek, em, self.ops());
                        lemma_extends_trans(o0, ek, self.ops());
                    }
                    return Err(e);
                },
            }
            let b = match self.read_reg(REG_FUNC_CFG_DATA) {
                Ok(b) => b,
                Err(e) => {
                    let ghost ek = self.ops();
                    let _ = self.write_reg(REG_PAGE_RW, 0x00);
                    let ghost em = self.ops();
                    let _ = self.write_reg(REG_CTRL2, 0x00);
                    proof {
                        lemma_extends_trans(ek, em, self.ops());
                        lemma_extends_trans(cp, ek, self.ops());
                        lemma_extends_trans(o0, cp, self.ops());
                    }
                    return Err(e);
                },
            };
            let ghost wa = wr1(a, REG_FUNC_CFG_ADDR, ai);
            let ghost rdop = rd1(a, REG_FUNC_CFG_DATA, b);
            proof {
                assert(self.ops() == cp.push(wa).push(rdop));
                assert(self.ops().take(o0.len() as int) =~= o0);
                assert(appended(o0, self.ops()) =~= subp.push(wa).push(rdop));
                lemma_paged_reads_push_pair(subp, a, ai, b);
                lemma_last_write_byte_push(subp, wa, REG_CTRL2);
                lemma_last_write_byte_push(subp.push(wa), rdop, REG_CTRL2);
                lemma_last_write_byte_push(subp, wa, REG_PAGE_RW);
                lemma_last_write_byte_push(subp.push(wa), rdop, REG_PAGE_RW);
                lemma_last_write_byte_push(subp, wa, REG_CTRL1);
                lemma_last_write_byte_push(subp.push(wa), rdop, REG_CTRL1);
                assert(pr_pairs(sub, out@.push(b)) =~= pr_pairs(sub, out@).push((ai, b)));
            }
            out.push(b);
            i += 1;
        }
        let ghost cpc = self.ops();
        let ghost subc = appended(o0, cpc);
        match self.write_reg(REG_PAGE_RW, 0x00) {
            Ok(()) => {},
            Err(e) => {
                let ghost ek = self.ops();
                let _ = self.write_reg(REG_CTRL2, 0x00);
                proof {
                    lemma_extends_trans(o0, ek, self.ops());
                }
                return Err(e);
            },
        }
        match self.write_reg(REG_CTRL2, 0x00) {
            Ok(()) => {},
            Err(e) => {
                proof {
                    lemma_extends_trans(o0, cpc, self.ops());
                }
                return Err(e);
            },
        }
        let ghost c5 = wr1(a, REG_PAGE_RW, 0x00);
        let ghost c6 = wr1(a, REG_CTRL2, 0x00);
        proof {
            assert(self.ops() == cpc.push(c5).push(c6));
            assert(self.ops().take(o0.len() as int) =~= o0);
            assert(appended(o0, self.ops()) =~= subc.push(c5).push(c6));
            lemma_paged_writes_push_other(subc, c5);
            lemma_paged_writes_push_other(subc.push(c5), c6);
            lemma_paged_reads_push_other(subc, c5);
            lemma_paged_reads_push_other(subc.push(c5), c6);
            lemma_last_write_byte_push(subc, c5, REG_CTRL2);
            lemma_last_write_byte_push(subc.push(c5), c6, REG_CTRL2);
            lemma_last_write_byte_push(subc, c5, REG_PAGE_RW);
            lemma_last_write_byte_push(subc.push(c5), c6, REG_PAGE_RW);
            lemma_last_write_byte_push(subc, c5, REG_CTRL1);
            lemma_last_write_byte_push(subc.push(c5), c6, REG_CTRL1);
        }
        Ok(out)
    }

    /// The operating-mode guard's quiescing step: capture CTRL1, and if the
    /// device is in continuous mode, drain the latched function status,
    /// wait for data-ready (a busy poll, in practice unbounded: it gives up
    /// only after 2^32 - 1 polls, surfacing as a timeout), write the rate
    /// field to power-down, and drain once more. Returns the captured CTRL1
    /// value.
    fn enter_power_down(&mut self) -> (r: Result<u8, Sths34pf80Error<T::TError>>)
        ensures
            final(self).address == old(self).address,
            extends(old(self).ops(), final(self).ops()),
            r is Err ==> r matches Err(Sths34pf80Error::WriteError(_)) || r matches Err(
                Sths34pf80Error::WriteReadError(_),
            ) || r matches Err(Sths34pf80Error::MeasurementTimeout),
            r matches Ok(c1) ==> {
                let subt = appended(old(self).ops(), final(self).ops());
                &&& subt.len() >= 1
                &&& subt[0] == rd1(old(self).address, REG_CTRL1, c1)
                &&& quiet_seg(subt)
                &&& !has_write_to(subt, REG_AVG_TRIM)
                &&& odr_bits(c1) == 0 ==> subt == seq![rd1(old(self).address, REG_CTRL1, c1)]
                &&& odr_bits(c1) != 0 ==> has_write_to(subt, REG_CTRL1) && last_write_byte(
                    subt,
                    REG_CTRL1,
                ) == Some((c1 & 0xf0) as u8)
            },
    {
        let a = self.address;
        let ghost o0 = self.ops();
        let c1 = match self.read_reg(REG_CTRL1) {
            Ok(v) => v,
            Err(e) => {
                return Err(e);
            },
        };
        let ghost r0 = rd1(a, REG_CTRL1, c1);
        proof {
            lemma_extends_push(o0, r0);
            lemma_read_step(Seq::<BusOp>::empty(), a, REG_CTRL1, c1);
            lemma_last_write_byte_push(Seq::<BusOp>::empty(), r0, REG_CTRL2);
            lemma_last_write_byte_push(Seq::<BusOp>::empty(), r0, REG_PAGE_RW);
            lemma_last_write_byte_push(Seq::<BusOp>::empty(), r0, REG_CTRL1);
            lemma_last_write_byte_push(Seq::<BusOp>::empty(), r0, REG_AVG_TRIM);
            assert(appended(o0, self.ops()) =~= Seq::<BusOp>::empty().push(r0));
            assert(appended(o0, self.ops()) =~= seq![r0]);
        }
        if c1 & 0x0f == 0 {
            return Ok(c1);
        }
        let ghost oA = self.ops();
        let f1 = match self.read_reg(REG_FUNC_STATUS) {
            Ok(v) => v,
            Err(e) => {
                proof {
                    lemma_extends_trans(o0, oA, self.ops());
                }
                return Err(e);
            },
        };
        proof {
            let subp = appended(o0, oA);
            let fsop = rd1(a, REG_FUNC_STATUS, f1);
            assert(self.ops().take(o0.len() as int) =~= o0);
            assert(appended(o0, self.ops()) =~= subp.push(fsop));
            lemma_read_step(subp, a, REG_FUNC_STATUS, f1);
            lemma_last_write_byte_push(subp, fsop, REG_CTRL2);
            lemma_last_write_byte_push(subp, fsop, REG_PAGE_RW);
            lemma_last_write_byte_push(subp, fsop, REG_CTRL1);
            lemma_last_write_byte_push(subp, fsop, REG_AVG_TRIM);
        }
        let ghost oB = self.ops();
        let mut st = match self.read_reg(REG_STATUS) {
            Ok(v) => v,
            Err(e) => {
                proof {
                    lemma_extends_trans(o0, oB, self.ops());
                }
                return Err(e);
            },
        };
        proof {
            let subp = appended(o0, oB);
            let stop = rd1(a, REG_STATUS, st);
            assert(self.ops().take(o0.len() as int) =~= o0);
            assert(appended(o0, self.ops()) =~= subp.push(stop));
            lemma_read_step(subp, a, REG_STATUS, st);
            lemma_last_write_byte_push(subp, stop, REG_CTRL2);
            lemma_last_write_byte_push(subp, stop, REG_PAGE_RW);
            lemma_last_write_byte_push(subp, stop, REG_CTRL1);
            lemma_last_write_byte_push(subp, stop, REG_AVG_TRIM);
        }
        let mut fuel: u32 = 0xffff_ffff;
        while fuel > 0 && st & STATUS_DRDY_BIT == 0
            invariant
                self.address == a,
                a == old(self).address,
                o0 == old(self).ops(),
                extends(o0, self.ops()),
                appended(o0, self.ops()).len() >= 1,
                appended(o0, self.ops())[0] == rd1(a, REG_CTRL1, c1),
                quiet_seg(appended(o0, self.ops())),
                !has_write_to(appended(o0, self.ops()), REG_CTRL1),
                !has_write_to(appended(o0, self.ops()), REG_AVG_TRIM),
            decreases fuel,
        {
            fuel = fuel - 1;
            let ghost cp = self.ops();
            st = match self.read_reg(REG_STATUS) {
                Ok(v) => v,
                Err(e) => {
                    proof {
                        lemma_extends_trans(o0, cp, self.ops());
                    }
                    return Err(e);
                },
            };
            proof {
                let subp = appended(o0, cp);
                let stop = rd1(a, REG_STATUS, st);
                assert(self.ops().take(o0.len() as int) =~= o0);
                assert(appended(o0, self.ops()) =~= subp.push(stop));
                lemma_read_step(subp, a, REG_STATUS, st);
                lemma_last_write_byte_push(subp, stop, REG_CTRL2);
                lemma_last_write_byte_push(subp, stop, REG_PAGE_RW);
                lemma_last_write_byte_push(subp, stop, REG_CTRL1);
                lemma_last_write_byte_push(subp, stop, REG_AVG_TRIM);
            }
        }
        if st & STATUS_DRDY_BIT == 0 {
            return Err(Sths34pf80Error::MeasurementTimeout);
        }
        let ghost cpw = self.ops();
        match self.write_reg(REG_CTRL1, c1 & 0xf0) {
            Ok(()) => {},
            Err(e) => {
                proof {
                    lemma_extends_trans(o0, cpw, self.ops());
                }
                return Err(e);
            },
        }
        proof {
            let subp = appended(o0, cpw);
            let wop = wr1(a, REG_CTRL1, c1 & 0xf0);
            assert(self.ops() == cpw.push(wop));
            assert(self.ops().take(o0.len() as int) =~= o0);
            assert(appended(o0, self.ops()) =~= subp.push(wop));
            lemma_write_step(subp, a, REG_CTRL1, c1 & 0xf0);
            lemma_last_write_byte_push(subp, wop, REG_CTRL2);
            lemma_last_write_byte_push(subp, wop, REG_PAGE_RW);
            lemma_last_write_byte_push(subp, wop, REG_CTRL1);
            lemma_last_write_byte_push(subp, wop, REG_AVG_TRIM);
        }
        let ghost cpf = self.ops();
        let f2 = match self.read_reg(REG_FUNC_STATUS) {
            Ok(v) => v,
            Err(e) => {
                proof {
                    lemma_extends_trans(o0, cpf, self.ops());
                }
                return Err(e);
            },
        };
        proof {
            let subp = appended(o0, cpf);
            let fsop = rd1(a, REG_FUNC_STATUS, f2);
            assert(self.ops().take(o0.len() as int) =~= o0);
            assert(appended(o0, self.ops()) =~= subp.push(fsop));
            lemma_read_step(subp, a, REG_FUNC_STATUS, f2);
            lemma_last_write_byte_push(subp, fsop, REG_CTRL2);
            lemma_last_write_byte_push(subp, fsop, REG_PAGE_RW);
            lemma_last_write_byte_push(subp, fsop, REG_CTRL1);
            lemma_last_write_byte_push(subp, fsop, REG_AVG_TRIM);
        }
        Ok(c1)
    }

    /// The operating-mode guard's resume step: if the captured CTRL1 value
    /// names a continuous rate, force power-down first, issue the algorithm
    /// reset the chip requires when leaving power-down, and write the
    /// captured value back. A captured power-down value needs nothing.
    fn restore_odr(&mut self, saved: u8) -> (r: Result<(), Sths34pf80Error<T::TError>>)
        ensures
            final(self).address == old(self).address,
            extends(old(self).ops(), final(self).ops()),
            r is Err ==> r matches Err(Sths34pf80Error::WriteError(_)),
            r is Ok && odr_bits(saved) == 0 ==> final(self).ops() == old(self).ops(),
            r is Ok && odr_bits(saved) != 0 ==> {
                let subt = appended(old(self).ops(), final(self).ops());
                &&& paged_writes(subt) == seq![(EMB_RESET_ALGO, seq![RESET_ALGO_CMD])]
                &&& paged_reads(subt) == Seq::<(u8, u8)>::empty()
                &&& paged_window_closed(subt)
                &&& !has_write_to(subt, REG_AVG_TRIM)
                &&& has_write_to(subt, REG_CTRL1)
                &&& last_write_byte(subt, REG_CTRL1) == Some(saved)
                &&& subt.len() >= 1
                &&& !is_paged_data_write(subt[0])
                &&& !is_read1_of(subt[0], REG_FUNC_CFG_DATA)
            },
    {
        let a = self.address;
        let ghost o0 = self.ops();
        if saved & 0x0f == 0 {
            proof {
                lemma_extends_refl(o0);
            }
            return Ok(());
        }
        match self.write_reg(REG_CTRL1, saved & 0xf0) {
            Ok(()) => {},
            Err(e) => {
                return Err(e);
            },
        }
        let ghost o1 = self.ops();
        match self.func_cfg_write_core(EMB_RESET_ALGO, RESET_ALGO_CMD, None) {
            Ok(()) => {},
            Err(e) => {
                proof {
                    lemma_extends_trans(o0, o1, self.ops());
                }
                return Err(e);
            },
        }
        let ghost o2 = self.ops();
        match self.write_reg(REG_CTRL1, saved) {
            Ok(()) => {},
            Err(e) => {
                proof {
                    lemma_extends_trans(o1, o2, self.ops());
                    lemma_extends_trans(o0, o1, self.ops());
                }
                return Err(e);
            },
        }
        proof {
            let w1 = wr1(a, REG_CTRL1, saved & 0xf0);
            let w3 = wr1(a, REG_CTRL1, saved);
            let cs = core_write_seq(a, EMB_RESET_ALGO, data_bytes(RESET_ALGO_CMD, None));
            lemma_core_write_seq_facts(a, EMB_RESET_ALGO, data_bytes(RESET_ALGO_CMD, None));
            assert(data_bytes(RESET_ALGO_CMD, None) =~= seq![RESET_ALGO_CMD]);
            lemma_extends_trans(o1, o2, self.ops());
            lemma_extends_trans(o0, o1, self.ops());
            let subt = appended(o0, self.ops());
            assert(appended(o1, o2) == cs);
            assert(appended(o0, o1) =~= seq![w1]);
            assert(appended(o2, self.ops()) =~= seq![w3]);
            assert(subt =~= seq![w1] + cs + seq![w3]);
            let s12 = seq![w1] + cs;
            assert(subt =~= s12 + seq![w3]);
            lemma_paged_writes_concat(seq![w1], cs);
            lemma_paged_writes_concat(s12, seq![w3]);
            assert(paged_writes(seq![w1]) =~= Seq::<(u8, Seq<u8>)>::empty());
            assert(paged_writes(seq![w3]) =~= Seq::<(u8, Seq<u8>)>::empty());
            assert(paged_writes(subt) =~= seq![(EMB_RESET_ALGO, seq![RESET_ALGO_CMD])]);
            lemma_paged_reads_concat(seq![w1], cs);
            lemma_paged_reads_concat(s12, seq![w3]);
            assert(paged_reads(seq![w1]) =~= Seq::<(u8, u8)>::empty());
            assert(paged_reads(seq![w3]) =~= Seq::<(u8, u8)>::empty());
            assert(paged_reads(subt) =~= Seq::<(u8, u8)>::empty());
            lemma_last_write_byte_push(Seq::<BusOp>::empty(), w1, REG_CTRL2);
            lemma_last_write_byte_push(Seq::<BusOp>::empty(), w1, REG_PAGE_RW);
            lemma_last_write_byte_push(Seq::<BusOp>::empty(), w1, REG_CTRL1);
            lemma_last_write_byte_push(Seq::<BusOp>::empty(), w1, REG_AVG_TRIM);
            lemma_last_write_byte_push(Seq::<BusOp>::empty(), w3, REG_CTRL2);
            lemma_last_write_byte_push(Seq::<BusOp>::empty(), w3, REG_PAGE_RW);
            lemma_last_write_byte_push(Seq::<BusOp>::empty(), w3, REG_CTRL1);
            lemma_last_write_byte_push(Seq::<BusOp>::empty(), w3, REG_AVG_TRIM);
            assert(Seq::<BusOp>::empty().push(w1) =~= seq![w1]);
            assert(Seq::<BusOp>::empty().push(w3) =~= seq![w3]);
            lemma_last_write_byte_concat(seq![w1], cs, REG_CTRL2);
            lemma_last_write_byte_concat(s12, seq![w3], REG_CTRL2);
            lemma_last_write_byte_concat(seq![w1], cs, REG_PAGE_RW);
            lemma_last_write_byte_concat(s12, seq![w3], REG_PAGE_RW);
            lemma_last_write_byte_concat(seq![w1], cs, REG_CTRL1);
            lemma_last_write_byte_concat(s12, seq![w3], REG_CTRL1);
            lemma_last_write_byte_concat(seq![w1], cs, REG_AVG_TRIM);
            lemma_last_write_byte_concat(s12, seq![w3], REG_AVG_TRIM);
        }
        Ok(())
    }

    /// One paged write under the operating-mode guard: quiesce the device,
    /// perform the write through the gateway, and restore the captured
    /// rate (issuing the required algorithm reset when resuming continuous
    /// mode). On success the access window and the page sub-mode register
    /// are left cleared and the rate field is back at its pre-sequence
    /// value.
    pub fn write_paged(&mut self, sub: u8, d0: u8, d1: Option<u8>) -> (r: Result<
        (),
        Sths34pf80Error<T::TError>,
    >)
        ensures
            final(self).address == old(self).address,
            extends(old(self).ops(), final(self).ops()),
            r is Err ==> r matches Err(Sths34pf80Error::WriteError(_)) || r matches Err(
                Sths34pf80Error::WriteReadError(_),
            ) || r matches Err(Sths34pf80Error::MeasurementTimeout),
            r is Ok ==> {
                let subt = appended(old(self).ops(), final(self).ops());
                &&& subt.len() >= 1
                &&& is_read1_of(subt[0], REG_CTRL1)
                &&& paged_window_closed(subt)
                &&& odr_restored(subt)
                &&& !has_write_to(subt, REG_AVG_TRIM)
                &&& paged_reads(subt) == Seq::<(u8, u8)>::empty()
                &&& paged_writes(subt) == if odr_bits(read1_val(subt[0])) == 0 {
                    seq![(sub, data_bytes(d0, d1))]
                } else {
                    seq![(sub, data_bytes(d0, d1)), (EMB_RESET_ALGO, seq![RESET_ALGO_CMD])]
                }
            },
    {
        let a = self.address;
        let ghost o0 = self.ops();
        let c1 = match self.enter_power_down() {
            Ok(v) => v,
            Err(e) => {
                return Err(e);
            },
        };
        let ghost o1 = self.ops();
        match self.func_cfg_write_core(sub, d0, d1) {
            Ok(()) => {},
            Err(e) => {
                proof {
                    lemma_extends_trans(o0, o1, self.ops());
                }
                return Err(e);
            },
        }
        let ghost o2 = self.ops();
        match self.restore_odr(c1) {
            Ok(()) => {},
            Err(e) => {
                proof {
                    lemma_extends_trans(o1, o2, self.ops());
                    lemma_extends_trans(o0, o1, self.ops());
                }
                return Err(e);
            },
        }
        proof {
            let pd = appended(o0, o1);
            let cs = core_write_seq(a, sub, data_bytes(d0, d1));
            let rs = appended(o2, self.ops());
            lemma_core_write_seq_facts(a, sub, data_bytes(d0, d1));
            lemma_extends_trans(o1, o2, self.ops());
            lemma_extends_trans(o0, o1, self.ops());
            let subt = appended(o0, self.ops());
            assert(appended(o1, o2) == cs);
            assert(subt =~= pd + cs + rs);
            let s12 = pd + cs;
            assert(subt =~= s12 + rs);
            assert(subt[0] == pd[0]);
            lemma_paged_writes_concat(pd, cs);
            lemma_paged_reads_concat(pd, cs);
            lemma_last_write_byte_concat(pd, cs, REG_CTRL2);
            lemma_last_write_byte_concat(pd, cs, REG_PAGE_RW);
            lemma_last_write_byte_concat(pd, cs, REG_CTRL1);
            lemma_last_write_byte_concat(pd, cs, REG_AVG_TRIM);
            if odr_bits(c1) == 0 {
                let r0op = rd1(a, REG_CTRL1, c1);
                assert(Seq::<BusOp>::empty().push(r0op) =~= seq![r0op]);
                lemma_last_write_byte_push(Seq::<BusOp>::empty(), r0op, REG_CTRL1);
                assert(!has_write_to(pd, REG_CTRL1));
                assert(self.ops() == o2);
                assert(rs =~= Seq::<BusOp>::empty());
                assert(subt =~= s12);
                assert(paged_writes(subt) =~= seq![(sub, data_bytes(d0, d1))]);
                assert(paged_reads(subt) =~= Seq::<(u8, u8)>::empty());
            } else {
                lemma_paged_writes_concat(s12, rs);
                lemma_paged_reads_concat(s12, rs);
                lemma_last_write_byte_concat(s12, rs, REG_CTRL2);
                lemma_last_write_byte_concat(s12, rs, REG_PAGE_RW);
                lemma_last_write_byte_concat(s12, rs, REG_CTRL1);
                lemma_last_write_byte_concat(s12, rs, REG_AVG_TRIM);
                assert(paged_writes(subt) =~= seq![
                    (sub, data_bytes(d0, d1)),
                    (EMB_RESET_ALGO, seq![RESET_ALGO_CMD]),
                ]);
                assert(paged_reads(subt) =~= Seq::<(u8, u8)>::empty());
            }
        }
        Ok(())
    }

    /// One paged read under the operating-mode guard: capture CTRL1, fetch
    /// the bytes one at a time through the gateway, and restore the
    /// captured rate through the guard's resume rule (which includes the
    /// required algorithm reset when the device was in continuous mode).
    /// On success the access window and the page sub-mode register are left
    /// cleared and the rate field is back at its pre-sequence value.
    pub fn read_paged(&mut self, sub: u8, n: usize) -> (r: Result<
        Vec<u8>,
        Sths34pf80Error<T::TError>,
    >)
        requires
            sub as int + n <= 256,
        ensures
            final(self).address == old(self).address,
            extends(old(self).ops(), final(self).ops()),
            r is Err ==> r matches Err(Sths34pf80Error::WriteError(_)) || r matches Err(
                Sths34pf80Error::WriteReadError(_),
            ) || r matches Err(Sths34pf80Error::MeasurementTimeout),
            r matches Ok(v) ==> {
                let subt = appended(old(self).ops(), final(self).ops());
                &&& v@.len() == n
                &&& subt.len() >= 1
                &&& is_read1_of(subt[0], REG_CTRL1)
                &&& paged_window_closed(subt)
                &&& odr_restored(subt)
                &&& paged_reads(subt) == pr_pairs(sub, v@)
                &&& paged_writes(subt) == if odr_bits(read1_val(subt[0])) == 0 {
                    Seq::<(u8, Seq<u8>)>::empty()
                } else {
                    seq![(EMB_RESET_ALGO, seq![RESET_ALGO_CMD])]
                }
            },
    {
        let a = self.address;
        let ghost o0 = self.ops();
        let c1 = match self.read_reg(REG_CTRL1) {
            Ok(v) => v,
            Err(e) => {
                return Err(e);
            },
        };
        let ghost r0 = rd1(a, REG_CTRL1, c1);
        proof {
            lemma_extends_push(o0, r0);
            lemma_read_step(Seq::<BusOp>::empty(), a, REG_CTRL1, c1);
            lemma_last_write_byte_push(Seq::<BusOp>::empty(), r0, REG_CTRL2);
            lemma_last_write_byte_push(Seq::<BusOp>::empty(), r0, REG_PAGE_RW);
            lemma_last_write_byte_push(Seq::<BusOp>::empty(), r0, REG_CTRL1);
            assert(appended(o0, self.ops()) =~= seq![r0]);
        }
        let ghost o1 = self.ops();
        let out = match self.func_cfg_read_core(sub, n) {
            Ok(v) => v,
            Err(e) => {
                proof {
                    lemma_extends_trans(o0, o1, self.ops());
                }
                return Err(e);
            },
        };
        let ghost o2 = self.ops();
        match self.restore_odr(c1) {
            Ok(()) => {},
            Err(e) => {
                proof {
                    lemma_extends_trans(o1, o2, self.ops());
                    lemma_extends_trans(o0, o1, self.ops());
                }
                return Err(e);
            },
        }
        proof {
            let rc = appended(o1, o2);
            let rs = appended(o2, self.ops());
            lemma_extends_trans(o1, o2, self.ops());
            lemma_extends_trans(o0, o1, self.ops());
            let subt = appended(o0, self.ops());
            assert(subt =~= seq![r0] + rc + rs);
            let s12 = seq![r0] + rc;
            assert(subt =~= s12 + rs);
            assert(subt[0] == r0);
            lemma_paged_writes_concat(seq![r0], rc);
            lemma_paged_reads_concat(seq![r0], rc);
            lemma_last_write_byte_concat(seq![r0], rc, REG_CTRL2);
            lemma_last_write_byte_concat(seq![r0], rc, REG_PAGE_RW);
            lemma_last_write_byte_concat(seq![r0], rc, REG_CTRL1);
            assert(paged_writes(seq![r0]) =~= Seq::<(u8, Seq<u8>)>::empty());
            assert(paged_reads(seq![r0]) =~= Seq::<(u8, u8)>::empty());
            lemma_last_write_byte_push(Seq::<BusOp>::empty(), r0, REG_CTRL2);
            lemma_last_write_byte_push(Seq::<BusOp>::empty(), r0, REG_PAGE_RW);
            lemma_last_write_byte_push(Seq::<BusOp>::empty(), r0, REG_CTRL1);
            if odr_bits(c1) == 0 {
                assert(self.ops() == o2);
                assert(rs =~= Seq::<BusOp>::empty());
                assert(subt =~= s12);
                assert(paged_writes(subt) =~= Seq::<(u8, Seq<u8>)>::empty());
                assert(paged_reads(subt) =~= pr_pairs(sub, out@));
            } else {
                lemma_paged_writes_concat(s12, rs);
                lemma_paged_reads_concat(s12, rs);
                lemma_last_write_byte_concat(s12, rs, REG_CTRL2);
                lemma_last_write_byte_concat(s12, rs, REG_PAGE_RW);
                lemma_last_write_byte_concat(s12, rs, REG_CTRL1);
                assert(paged_writes(subt) =~= seq![(EMB_RESET_ALGO, seq![RESET_ALGO_CMD])]);
                assert(paged_reads(subt) =~= pr_pairs(sub, out@));
            }
        }
        Ok(out)
    }

    /// Validate and write one 15-bit detection threshold. A value above
    /// 0x7fff is rejected with `ThresholdTooBig` before any bus traffic.
    /// Otherwise the two little-endian bytes are written at the kind's
    /// paged-bank address and exactly one algorithm reset follows (the chip
    /// requires one after any threshold change), all under the
    /// operating-mode guard: the access window ends closed and the rate
    /// field ends at its pre-sequence value.
    pub fn set_threshold(&mut self, kind: ThresholdKind, value: u16) -> (r: Result<
        (),
        Sths34pf80Error<T::TError>,
    >)
        ensures
            final(self).address == old(self).address,
            extends(old(self).ops(), final(self).ops()),
            value > 0x7fff ==> r == Err::<(), Sths34pf80Error<T::TError>>(
                Sths34pf80Error::ThresholdTooBig(value),
            )
                && final(self).ops() == old(self).ops(),
            r matches Err(Sths34pf80Error::ThresholdTooBig(t)) ==> t == value && value > 0x7fff,
            r is Ok ==> value <= 0x7fff && {
                let subt = appended(old(self).ops(), final(self).ops());
                &&& subt.len() >= 1
                &&& is_read1_of(subt[0], REG_CTRL1)
                &&& paged_window_closed(subt)
                &&& odr_restored(subt)
                &&& paged_reads(subt) == Seq::<(u8, u8)>::empty()
                &&& paged_writes(subt) == seq![
                    (ths_addr(kind), threshold_bytes(value)),
                    (EMB_RESET_ALGO, seq![RESET_ALGO_CMD]),
                ]
            },
    {
        let a = self.address;
        let ghost o0 = self.ops();
        if value > 0x7fff {
            proof {
                lemma_extends_refl(o0);
            }
            return Err(Sths34pf80Error::ThresholdTooBig(value));
        }
        let lo = (value % 256) as u8;
        let hi = (value / 256) as u8;
        let c1 = match self.enter_power_down() {
            Ok(v) => v,
            Err(e) => {
                return Err(e);
            },
        };
        let ghost o1 = self.ops();
        let addr = kind.threshold_addr();
        match self.func_cfg_write_core(addr, lo, Some(hi)) {
            Ok(()) => {},
            Err(e) => {
                proof {
                    lemma_extends_trans(o0, o1, self.ops());
                }
                return Err(e);
            },
        }
        let ghost o2 = self.ops();
        if c1 & 0x0f == 0 {
            match self.func_cfg_write_core(EMB_RESET_ALGO, RESET_ALGO_CMD, None) {
                Ok(()) => {},
                Err(e) => {
                    proof {
                        lemma_extends_trans(o1, o2, self.ops());
                        lemma_extends_trans(o0, o1, self.ops());
                    }
                    return Err(e);
                },
            }
            proof {
                let pd = appended(o0, o1);
                let cs1 = core_write_seq(a, addr, data_bytes(lo, Some(hi)));
                let cs2 = core_write_seq(a, EMB_RESET_ALGO, data_bytes(RESET_ALGO_CMD, None));
                lemma_core_write_seq_facts(a, addr, data_bytes(lo, Some(hi)));
                lemma_core_write_seq_facts(a, EMB_RESET_ALGO, data_bytes(RESET_ALGO_CMD, None));
                assert(data_bytes(lo, Some(hi)) =~= threshold_bytes(value));
                assert(data_bytes(RESET_ALGO_CMD, None) =~= seq![RESET_ALGO_CMD]);
                lemma_extends_trans(o1, o2, self.ops());
                lemma_extends_trans(o0, o1, self.ops());
                let subt = appended(o0, self.ops());
                assert(appended(o1, o2) == cs1);
                assert(appended(o2, self.ops()) == cs2);
                assert(subt =~= pd + cs1 + cs2);
                let s12 = pd + cs1;
                assert(subt =~= s12 + cs2);
                assert(subt[0] == pd[0]);
                lemma_paged_writes_concat(pd, cs1);
                lemma_paged_reads_concat(pd, cs1);
                lemma_last_write_byte_concat(pd, cs1, REG_CTRL2);
                lemma_last_write_byte_concat(pd, cs1, REG_PAGE_RW);
                lemma_last_write_byte_concat(pd, cs1, REG_CTRL1);
                lemma_paged_writes_concat(s12, cs2);
                lemma_paged_reads_concat(s12, cs2);
                lemma_last_write_byte_concat(s12, cs2, REG_CTRL2);
                lemma_last_write_byte_concat(s12, cs2, REG_PAGE_RW);
                lemma_last_write_byte_concat(s12, cs2, REG_CTRL1);
                let r0op = rd1(a, REG_CTRL1, c1);
                assert(Seq::<BusOp>::empty().push(r0op) =~= seq![r0op]);
                lemma_last_write_byte_push(Seq::<BusOp>::empty(), r0op, REG_CTRL1);
                assert(!has_write_to(pd, REG_CTRL1));
                assert(paged_writes(subt) =~= seq![
                    (ths_addr(kind), threshold_bytes(value)),
                    (EMB_RESET_ALGO, seq![RESET_ALGO_CMD]),
                ]);
                assert(paged_reads(subt) =~= Seq::<(u8, u8)>::empty());
            }
            return Ok(());
        }
        match self.restore_odr(c1) {
            Ok(()) => {},
            Err(e) => {
                proof {
                    lemma_extends_trans(o1, o2, self.ops());
                    lemma_extends_trans(o0, o1, self.ops());
                }
                return Err(e);
            },
        }
        proof {
            let pd = appended(o0, o1);
            let cs1 = core_write_seq(a, addr, data_bytes(lo, Some(hi)));
            let rs = appended(o2, self.ops());
            lemma_core_write_seq_facts(a, addr, data_bytes(lo, Some(hi)));
            assert(data_bytes(lo, Some(hi)) =~= threshold_bytes(value));
            lemma_extends_trans(o1, o2, self.ops());
            lemma_extends_trans(o0, o1, self.ops());
            let subt = appended(o0, self.ops());
            assert(appended(o1, o2) == cs1);
            assert(subt =~= pd + cs1 + rs);
            let s12 = pd + cs1;
            assert(subt =~= s12 + rs);
            assert(subt[0] == pd[0]);
            lemma_paged_writes_concat(pd, cs1);
            lemma_paged_reads_concat(pd, cs1);
            lemma_last_write_byte_concat(pd, cs1, REG_CTRL2);
            lemma_last_write_byte_concat(pd, cs1, REG_PAGE_RW);
            lemma_last_write_byte_concat(pd, cs1, REG_CTRL1);
            lemma_paged_writes_concat(s12, rs);
            lemma_paged_reads_concat(s12, rs);
            lemma_last_write_byte_concat(s12, rs, REG_CTRL2);
            lemma_last_write_byte_concat(s12, rs, REG_PAGE_RW);
            lemma_last_write_byte_concat(s12, rs, REG_CTRL1);
            assert(paged_writes(subt) =~= seq![
                (ths_addr(kind), threshold_bytes(value)),
                (EMB_RESET_ALGO, seq![RESET_ALGO_CMD]),
            ]);
            assert(paged_reads(subt) =~= Seq::<(u8, u8)>::empty());
        }
        Ok(())
    }

    /// Read one 15-bit detection threshold back: a two-byte paged read at
    /// the kind's bank address, decoded little-endian.
    pub fn get_threshold(&mut self, kind: ThresholdKind) -> (r: Result<
        u16,
        Sths34pf80Error<T::TError>,
    >)
        ensures
            final(self).address == old(self).address,
            extends(old(self).ops(), final(self).ops()),
            r matches Ok(v) ==> {
                let subt = appended(old(self).ops(), final(self).ops());
                let prs = paged_reads(subt);
                &&& paged_window_closed(subt)
                &&& odr_restored(subt)
                &&& prs.len() == 2
                &&& prs[0].0 == ths_addr(kind)
                &&& prs[1].0 == ths_addr(kind) + 1
                &&& v == u16_le(prs[0].1, prs[1].1)
                &&& paged_writes(subt) == if odr_bits(read1_val(subt[0])) == 0 {
                    Seq::<(u8, Seq<u8>)>::empty()
                } else {
                    seq![(EMB_RESET_ALGO, seq![RESET_ALGO_CMD])]
                }
            },
    {
        let addr = kind.threshold_addr();
        let bytes = match self.read_paged(addr, 2) {
            Ok(v) => v,
            Err(e) => {
                return Err(e);
            },
        };
        let lo = bytes[0];
        let hi = bytes[1];
        proof {
            let subt = appended(old(self).ops(), self.ops());
            assert(paged_reads(subt)[0] == (addr, lo));
            assert(paged_reads(subt)[1] == ((addr + 1) as u8, hi));
        }
        Ok((lo as u16) + (hi as u16) * 256)
    }

    /// Validate nothing and write one 8-bit hysteresis byte at the kind's
    /// paged-bank address, under the operating-mode guard. No extra
    /// algorithm reset is mandated for hysteresis; the guard still issues
    /// its own when it resumes continuous mode.
    pub fn set_hysteresis(&mut self, kind: ThresholdKind, value: u8) -> (r: Result<
        (),
        Sths34pf80Error<T::TError>,
    >)
        ensures
            final(self).address == old(self).address,
            extends(old(self).ops(), final(self).ops()),
            r is Ok ==> {
                let subt = appended(old(self).ops(), final(self).ops());
                &&& paged_window_closed(subt)
                &&& odr_restored(subt)
                &&& paged_reads(subt) == Seq::<(u8, u8)>::empty()
                &&& paged_writes(subt) == if odr_bits(read1_val(subt[0])) == 0 {
                    seq![(hyst_addr(kind), seq![value])]
                } else {
                    seq![(hyst_addr(kind), seq![value]), (EMB_RESET_ALGO, seq![RESET_ALGO_CMD])]
                }
            },
    {
        let addr = kind.hysteresis_addr();
        match self.write_paged(addr, value, None) {
            Ok(()) => {
                proof {
                    assert(data_bytes(value, None) =~= seq![value]);
                }
                Ok(())
            },
            Err(e) => Err(e),
        }
    }

    /// Read one 8-bit hysteresis byte back from the kind's paged-bank
    /// address.
    pub fn get_hysteresis(&mut self, kind: ThresholdKind) -> (r: Result<
        u8,
        Sths34pf80Error<T::TError>,
    >)
        ensures
            final(self).address == old(self).address,
            extends(old(self).ops(), final(self).ops()),
            r matches Ok(v) ==> {
                let subt = appended(old(self).ops(), final(self).ops());
                &&& paged_window_closed(subt)
                &&& odr_restored(subt)
                &&& paged_reads(subt) == seq![(hyst_addr(kind), v)]
                &&& paged_writes(subt) == if odr_bits(read1_val(subt[0])) == 0 {
                    Seq::<(u8, Seq<u8>)>::empty()
                } else {
                    seq![(EMB_RESET_ALGO, seq![RESET_ALGO_CMD])]
                }
            },
    {
        let addr = kind.hysteresis_addr();
        let bytes = match self.read_paged(addr, 1) {
            Ok(v) => v,
            Err(e) => {
                return Err(e);
            },
        };
        let b = bytes[0];
        proof {
            let subt = appended(old(self).ops(), self.ops());
            assert(paged_reads(subt) =~= seq![(addr, b)]);
        }
        Ok(b)
    }

    /// Set the presence detection threshold (little-endian 15-bit value).
    pub fn set_presence_threshold_new(&mut self, value: u16) -> (r: Result<
        (),
        Sths34pf80Error<T::TError>,
    >)
        ensures
            final(self).address == old(self).address,
            extends(old(self).ops(), final(self).ops()),
            value > 0x7fff ==> r == Err::<(), Sths34pf80Error<T::TError>>(
                Sths34pf80Error::ThresholdTooBig(value),
            )
                && final(self).ops() == old(self).ops(),
            r matches Err(Sths34pf80Error::ThresholdTooBig(t)) ==> t == value && value > 0x7fff,
            r is Ok ==> value <= 0x7fff && {
                let subt = appended(old(self).ops(), final(self).ops());
                &&& paged_window_closed(subt)
                &&& odr_restored(subt)
                &&& paged_writes(subt) == seq![
                    (ths_addr(ThresholdKind::Presence), threshold_bytes(value)),
                    (EMB_RESET_ALGO, seq![RESET_ALGO_CMD]),
                ]
            },
    {
        self.set_threshold(ThresholdKind::Presence, value)
    }

    /// Read the presence detection threshold back.
    pub fn get_presence_threshold(&mut self) -> (r: Result<u16, Sths34pf80Error<T::TError>>)
        ensures
            final(self).address == old(self).address,
            extends(old(self).ops(), final(self).ops()),
            r matches Ok(v) ==> {
                let subt = appended(old(self).ops(), final(self).ops());
                let prs = paged_reads(subt);
                &&& paged_window_closed(subt)
                &&& odr_restored(subt)
                &&& prs.len() == 2
                &&& prs[0].0 == ths_addr(ThresholdKind::Presence)
                &&& prs[1].0 == ths_addr(ThresholdKind::Presence) + 1
                &&& v == u16_le(prs[0].1, prs[1].1)
                &&& paged_writes(subt) == if odr_bits(read1_val(subt[0])) == 0 {
                    Seq::<(u8, Seq<u8>)>::empty()
                } else {
                    seq![(EMB_RESET_ALGO, seq![RESET_ALGO_CMD])]
                }
            },
    {
        self.get_threshold(ThresholdKind::Presence)
    }

    /// Set the motion detection threshold (little-endian 15-bit value).
    pub fn set_tmotion_threshold_new(&mut self, value: u16) -> (r: Result<
        (),
        Sths34pf80Error<T::TError>,
    >)
        ensures
            final(self).address == old(self).address,
            extends(old(self).ops(), final(self).ops()),
            value > 0x7fff ==> r == Err::<(), Sths34pf80Error<T::TError>>(
                Sths34pf80Error::ThresholdTooBig(value),
            )
                && final(self).ops() == old(self).ops(),
            r matches Err(Sths34pf80Error::ThresholdTooBig(t)) ==> t == value && value > 0x7fff,
            r is Ok ==> value <= 0x7fff && {
                let subt = appended(old(self).ops(), final(self).ops());
                &&& paged_window_closed(subt)
                &&& odr_restored(subt)
                &&& paged_writes(subt) == seq![
                    (ths_addr(ThresholdKind::Motion), threshold_bytes(value)),
                    (EMB_RESET_ALGO, seq![RESET_ALGO_CMD]),
                ]
            },
    {
        self.set_threshold(ThresholdKind::Motion, value)
    }

    /// Read the motion detection threshold back.
    pub fn get_tmotion_threshold(&mut self) -> (r: Result<u16, Sths34pf80Error<T::TError>>)
        ensures
            final(self).address == old(self).address,
            extends(old(self).ops(), final(self).ops()),
            r matches Ok(v) ==> {
                let subt = appended(old(self).ops(), final(self).ops());
                let prs = paged_reads(subt);
                &&& paged_window_closed(subt)
                &&& odr_restored(subt)
                &&& prs.len() == 2
                &&& prs[0].0 == ths_addr(ThresholdKind::Motion)
                &&& prs[1].0 == ths_addr(ThresholdKind::Motion) + 1
                &&& v == u16_le(prs[0].1, prs[1].1)
                &&& paged_writes(subt) == if odr_bits(read1_val(subt[0])) == 0 {
                    Seq::<(u8, Seq<u8>)>::empty()
                } else {
                    seq![(EMB_RESET_ALGO, seq![RESET_ALGO_CMD])]
                }
            },
    {
        self.get_threshold(ThresholdKind::Motion)
    }

    /// Set the ambient-shock detection threshold (little-endian 15-bit
    /// value).
    pub fn set_tambient_shock_threshold_new(&mut self, value: u16) -> (r: Result<
        (),
        Sths34pf80Error<T::TError>,
    >)
        ensures
            final(self).address == old(self).address,
            extends(old(self).ops(), final(self).ops()),
            value > 0x7fff ==> r == Err::<(), Sths34pf80Error<T::TError>>(
                Sths34pf80Error::ThresholdTooBig(value),
            )
                && final(self).ops() == old(self).ops(),
            r matches Err(Sths34pf80Error::ThresholdTooBig(t)) ==> t == value && value > 0x7fff,
            r is Ok ==> value <= 0x7fff && {
                let subt = appended(old(self).ops(), final(self).ops());
                &&& paged_window_closed(subt)
                &&& odr_restored(subt)
                &&& paged_writes(subt) == seq![
                    (ths_addr(ThresholdKind::AmbientShock), threshold_bytes(value)),
                    (EMB_RESET_ALGO, seq![RESET_ALGO_CMD]),
                ]
            },
    {
        self.set_threshold(ThresholdKind::AmbientShock, value)
    }

    /// Read the ambient-shock detection threshold back.
    pub fn get_tambient_shock_threshold(&mut self) -> (r: Result<u16, Sths34pf80Error<T::TError>>)
        ensures
            final(self).address == old(self).address,
            extends(old(self).ops(), final(self).ops()),
            r matches Ok(v) ==> {
                let subt = appended(old(self).ops(), final(self).ops());
                let prs = paged_reads(subt);
                &&& paged_window_closed(subt)
                &&& odr_restored(subt)
                &&& prs.len() == 2
                &&& prs[0].0 == ths_addr(ThresholdKind::AmbientShock)
                &&& prs[1].0 == ths_addr(ThresholdKind::AmbientShock) + 1
                &&& v == u16_le(prs[0].1, prs[1].1)
                &&& paged_writes(subt) == if odr_bits(read1_val(subt[0])) == 0 {
                    Seq::<(u8, Seq<u8>)>::empty()
                } else {
                    seq![(EMB_RESET_ALGO, seq![RESET_ALGO_CMD])]
                }
            },
    {
        self.get_threshold(ThresholdKind::AmbientShock)
    }

    /// Read the current output data rate from CTRL1.
    pub fn get_tmos_odr(&mut self) -> (r: Result<Odr, Sths34pf80Error<T::TError>>)
        ensures
            final(self).address == old(self).address,
            extends(old(self).ops(), final(self).ops()),
            r matches Ok(o) ==> {
                let subt = appended(old(self).ops(), final(self).ops());
                &&& subt.len() == 1
                &&& is_read1_of(subt[0], REG_CTRL1)
                &&& o == odr_of(odr_bits(read1_val(subt[0])))
            },
            r is Err ==> final(self).ops() == old(self).ops() && r matches Err(
                Sths34pf80Error::WriteReadError(_),
            ),
    {
        let c1 = match self.read_reg(REG_CTRL1) {
            Ok(v) => v,
            Err(e) => {
                return Err(e);
            },
        };
        proof {
            lemma_extends_push(old(self).ops(), rd1(old(self).address, REG_CTRL1, c1));
        }
        Ok(Odr::from_bits(c1 & 0x0f))
    }

    /// Set the output data rate, validated against the current object
    /// averaging trim's documented maximum: a rate above the limit is
    /// rejected with `OdrNewTooBig` (carrying the highest permitted code)
    /// before any bus write. An accepted rate is applied through the
    /// operating-mode guard's transition rule: entering or remaining in
    /// continuous mode forces power-down first, issues the required
    /// algorithm reset, then writes the target rate; entering power-down
    /// drains the latched status, waits for data-ready, writes the rate,
    /// and drains once more.
    pub fn set_tmos_odr(&mut self, odr: Odr) -> (r: Result<(), Sths34pf80Error<T::TError>>)
        ensures
            final(self).address == old(self).address,
            extends(old(self).ops(), final(self).ops()),
            r is Err ==> r matches Err(Sths34pf80Error::WriteError(_)) || r matches Err(
                Sths34pf80Error::WriteReadError(_),
            ) || r matches Err(Sths34pf80Error::MeasurementTimeout) || r matches Err(
                Sths34pf80Error::OdrNewTooBig(_),
            ),
            r matches Err(Sths34pf80Error::OdrNewTooBig(m)) ==> {
                let subt = appended(old(self).ops(), final(self).ops());
                &&& subt.len() == 1
                &&& is_read1_of(subt[0], REG_AVG_TRIM)
                &&& m == odr_code(max_odr_for(tmos_trim_of(read1_val(subt[0]) & 0x07)))
                &&& odr_code(odr) > m
            },
            ({
                let subt = appended(old(self).ops(), final(self).ops());
                subt.len() >= 1 && is_read1_of(subt[0], REG_AVG_TRIM) && odr_code(odr) > odr_code(
                    max_odr_for(tmos_trim_of(read1_val(subt[0]) & 0x07)),
                )
            }) ==> r matches Err(Sths34pf80Error::OdrNewTooBig(_)),
            r is Ok ==> {
                let subt = appended(old(self).ops(), final(self).ops());
                &&& subt.len() >= 2
                &&& is_read1_of(subt[0], REG_AVG_TRIM)
                &&& odr_code(odr) <= odr_code(max_odr_for(tmos_trim_of(read1_val(subt[0]) & 0x07)))
                &&& is_read1_of(subt[1], REG_CTRL1)
                &&& !has_write_to(subt, REG_AVG_TRIM)
                &&& (odr != Odr::ODR_POWERDOWN ==> paged_window_closed(subt) && paged_writes(subt)
                    == seq![(EMB_RESET_ALGO, seq![RESET_ALGO_CMD])] && has_write_to(
                    subt,
                    REG_CTRL1,
                ) && last_write_byte(subt, REG_CTRL1) == Some(
                    ((read1_val(subt[1]) & 0xf0) | odr_code(odr)) as u8,
                ))
                &&& (odr == Odr::ODR_POWERDOWN ==> paged_writes(subt) == Seq::<
                    (u8, Seq<u8>),
                >::empty() && (odr_bits(read1_val(subt[1])) == 0 ==> !has_write_to(
                    subt,
                    REG_CTRL1,
                )) && (odr_bits(read1_val(subt[1])) != 0 ==> last_write_byte(subt, REG_CTRL1)
                    == Some((read1_val(subt[1]) & 0xf0) as u8)))
            },
    {
        let a = self.address;
        let ghost o0 = self.ops();
        let t = match self.read_reg(REG_AVG_TRIM) {
            Ok(v) => v,
            Err(e) => {
                return Err(e);
            },
        };
        let ghost ravg = rd1(a, REG_AVG_TRIM, t);
        proof {
            lemma_extends_push(o0, ravg);
            lemma_read_step(Seq::<BusOp>::empty(), a, REG_AVG_TRIM, t);
            lemma_last_write_byte_push(Seq::<BusOp>::empty(), ravg, REG_CTRL1);
            lemma_last_write_byte_push(Seq::<BusOp>::empty(), ravg, REG_CTRL2);
            lemma_last_write_byte_push(Seq::<BusOp>::empty(), ravg, REG_PAGE_RW);
            assert(appended(o0, self.ops()) =~= seq![ravg]);
        }
        proof {
            assert(t & 0x07 <= 0x07) by (bit_vector);
        }
        let trim = AverageTrimTMOSFlag::from_bits(t & 0x07);
        let maxb = trim.max_odr().to_bits();
        let ob = odr.to_bits();
        if ob > maxb {
            return Err(Sths34pf80Error::OdrNewTooBig(maxb));
        }
        let ghost o1 = self.ops();
        if ob == 0 {
            let c1v = match self.enter_power_down() {
                Ok(v) => v,
                Err(e) => {
                    proof {
                        lemma_extends_trans(o0, o1, self.ops());
                    }
                    return Err(e);
                },
            };
            proof {
                let pd = appended(o1, self.ops());
                lemma_extends_trans(o0, o1, self.ops());
                let subt = appended(o0, self.ops());
                assert(subt =~= seq![ravg] + pd);
                assert(subt[1] == pd[0]);
                lemma_paged_writes_concat(seq![ravg], pd);
                lemma_last_write_byte_concat(seq![ravg], pd, REG_CTRL1);
                lemma_last_write_byte_concat(seq![ravg], pd, REG_AVG_TRIM);
                assert(Seq::<BusOp>::empty().push(ravg) =~= seq![ravg]);
                lemma_last_write_byte_push(Seq::<BusOp>::empty(), ravg, REG_AVG_TRIM);
                assert(paged_writes(seq![ravg]) =~= Seq::<(u8, Seq<u8>)>::empty());
                let r0op = rd1(a, REG_CTRL1, c1v);
                assert(Seq::<BusOp>::empty().push(r0op) =~= seq![r0op]);
                lemma_last_write_byte_push(Seq::<BusOp>::empty(), r0op, REG_CTRL1);
                if odr_bits(c1v) == 0 {
                    assert(pd == seq![r0op]);
                    assert(!has_write_to(pd, REG_CTRL1));
                }
                assert(odr == Odr::ODR_POWERDOWN);
            }
            return Ok(());
        }
        let c1 = match self.read_reg(REG_CTRL1) {
            Ok(v) => v,
            Err(e) => {
                proof {
                    lemma_extends_trans(o0, o1, self.ops());
                }
                return Err(e);
            },
        };
        let ghost rc1 = rd1(a, REG_CTRL1, c1);
        let ghost o2 = self.ops();
        match self.write_reg(REG_CTRL1, c1 & 0xf0) {
            Ok(()) => {},
            Err(e) => {
                proof {
                    lemma_extends_trans(o1, o2, self.ops());
                    lemma_extends_trans(o0, o1, self.ops());
                }
                return Err(e);
            },
        }
        let ghost o3 = self.ops();
        proof {
            lemma_extends_trans(o1, o2, o3);
            lemma_extends_trans(o0, o1, o3);
        }
        match self.func_cfg_write_core(EMB_RESET_ALGO, RESET_ALGO_CMD, None) {
            Ok(()) => {},
            Err(e) => {
                proof {
                    lemma_extends_trans(o0, o3, self.ops());
                }
                return Err(e);
            },
        }
        let ghost o4 = self.ops();
        match self.write_reg(REG_CTRL1, (c1 & 0xf0) | ob) {
            Ok(()) => {},
            Err(e) => {
                proof {
                    lemma_extends_trans(o3, o4, self.ops());
                    lemma_extends_trans(o0, o3, self.ops());
                }
                return Err(e);
            },
        }
        proof {
            let wpd = wr1(a, REG_CTRL1, c1 & 0xf0);
            let wt = wr1(a, REG_CTRL1, (c1 & 0xf0) | ob);
            let cs = core_write_seq(a, EMB_RESET_ALGO, data_bytes(RESET_ALGO_CMD, None));
            lemma_core_write_seq_facts(a, EMB_RESET_ALGO, data_bytes(RESET_ALGO_CMD, None));
            assert(data_bytes(RESET_ALGO_CMD, None) =~= seq![RESET_ALGO_CMD]);
            lemma_extends_trans(o3, o4, self.ops());
            lemma_extends_trans(o0, o3, self.ops());
            let subt = appended(o0, self.ops());
            let pre = seq![ravg, rc1, wpd];
            assert(appended(o3, o4) == cs);
            assert(appended(o4, self.ops()) =~= seq![wt]);
            assert(subt =~= pre + cs + seq![wt]);
            let s12 = pre + cs;
            assert(subt =~= s12 + seq![wt]);
            assert(subt[0] == ravg);
            assert(subt[1] == rc1);
            let s0 = Seq::<BusOp>::empty();
            let p1 = s0.push(ravg);
            let p2 = p1.push(rc1);
            let p3 = p2.push(wpd);
            assert(pre =~= p3);
            lemma_read_step(s0, a, REG_AVG_TRIM, t);
            lemma_read_step(p1, a, REG_CTRL1, c1);
            lemma_write_step(p2, a, REG_CTRL1, c1 & 0xf0);
            lemma_last_write_byte_push(s0, ravg, REG_CTRL1);
            lemma_last_write_byte_push(p1, rc1, REG_CTRL1);
            lemma_last_write_byte_push(p2, wpd, REG_CTRL1);
            lemma_last_write_byte_push(s0, ravg, REG_CTRL2);
            lemma_last_write_byte_push(p1, rc1, REG_CTRL2);
            lemma_last_write_byte_push(p2, wpd, REG_CTRL2);
            lemma_last_write_byte_push(s0, ravg, REG_PAGE_RW);
            lemma_last_write_byte_push(p1, rc1, REG_PAGE_RW);
            lemma_last_write_byte_push(p2, wpd, REG_PAGE_RW);
            lemma_last_write_byte_push(s0, ravg, REG_AVG_TRIM);
            lemma_last_write_byte_push(p1, rc1, REG_AVG_TRIM);
            lemma_last_write_byte_push(p2, wpd, REG_AVG_TRIM);
            lemma_paged_writes_concat(pre, cs);
            lemma_paged_reads_concat(pre, cs);
            lemma_last_write_byte_concat(pre, cs, REG_CTRL2);
            lemma_last_write_byte_concat(pre, cs, REG_PAGE_RW);
            lemma_last_write_byte_concat(pre, cs, REG_CTRL1);
            lemma_last_write_byte_concat(pre, cs, REG_AVG_TRIM);
            lemma_paged_writes_concat(s12, seq![wt]);
            lemma_last_write_byte_concat(s12, seq![wt], REG_CTRL2);
            lemma_last_write_byte_concat(s12, seq![wt], REG_PAGE_RW);
            lemma_last_write_byte_concat(s12, seq![wt], REG_CTRL1);
            lemma_last_write_byte_concat(s12, seq![wt], REG_AVG_TRIM);
            lemma_last_write_byte_push(s0, wt, REG_CTRL1);
            lemma_last_write_byte_push(s0, wt, REG_CTRL2);
            lemma_last_write_byte_push(s0, wt, REG_PAGE_RW);
            lemma_last_write_byte_push(s0, wt, REG_AVG_TRIM);
            assert(s0.push(wt) =~= seq![wt]);
            assert(paged_writes(seq![wt]) =~= Seq::<(u8, Seq<u8>)>::empty());
            assert(paged_writes(subt) =~= seq![(EMB_RESET_ALGO, seq![RESET_ALGO_CMD])]);
        }
        Ok(())
    }

    /// Read the object averaging trim back.
    pub fn get_avg_tmos_num(&mut self) -> (r: Result<
        AverageTrimTMOSFlag,
        Sths34pf80Error<T::TError>,
    >)
        ensures
            final(self).address == old(self).address,
            extends(old(self).ops(), final(self).ops()),
            r matches Ok(t) ==> {
                let subt = appended(old(self).ops(), final(self).ops());
                &&& subt.len() == 1
                &&& is_read1_of(subt[0], REG_AVG_TRIM)
                &&& t == tmos_trim_of(read1_val(subt[0]) & 0x07)
            },
            r is Err ==> final(self).ops() == old(self).ops() && r matches Err(
                Sths34pf80Error::WriteReadError(_),
            ),
    {
        let t = match self.read_reg(REG_AVG_TRIM) {
            Ok(v) => v,
            Err(e) => {
                return Err(e);
            },
        };
        proof {
            lemma_extends_push(old(self).ops(), rd1(old(self).address, REG_AVG_TRIM, t));
            assert(t & 0x07 <= 0x07) by (bit_vector);
        }
        Ok(AverageTrimTMOSFlag::from_bits(t & 0x07))
    }

    /// Set the object averaging trim, rejecting a trim whose documented
    /// maximum rate is below the device's current rate (the device would
    /// otherwise run outside its limit table).
    pub fn set_avg_tmos_num(&mut self, trim: AverageTrimTMOSFlag) -> (r: Result<
        (),
        Sths34pf80Error<T::TError>,
    >)
        ensures
            final(self).address == old(self).address,
            extends(old(self).ops(), final(self).ops()),
            r is Err ==> r matches Err(Sths34pf80Error::WriteError(_)) || r matches Err(
                Sths34pf80Error::WriteReadError(_),
            ) || r matches Err(Sths34pf80Error::OdrNewTooBig(_)),
            r matches Err(Sths34pf80Error::OdrNewTooBig(m)) ==> {
                let subt = appended(old(self).ops(), final(self).ops());
                &&& subt.len() == 2
                &&& is_read1_of(subt[0], REG_AVG_TRIM)
                &&& is_read1_of(subt[1], REG_CTRL1)
                &&& m == odr_code(max_odr_for(trim))
                &&& odr_code(odr_of(odr_bits(read1_val(subt[1])))) > m
            },
            r is Ok ==> {
                let subt = appended(old(self).ops(), final(self).ops());
                &&& subt.len() == 3
                &&& is_read1_of(subt[0], REG_AVG_TRIM)
                &&& is_read1_of(subt[1], REG_CTRL1)
                &&& subt[2] == wr1(
                    old(self).address,
                    REG_AVG_TRIM,
                    ((read1_val(subt[0]) & 0xf8) | tmos_trim_code(trim)) as u8,
                )
                &&& odr_code(odr_of(odr_bits(read1_val(subt[1])))) <= odr_code(max_odr_for(trim))
            },
    {
        let a = self.address;
        let ghost o0 = self.ops();
        let t = match self.read_reg(REG_AVG_TRIM) {
            Ok(v) => v,
            Err(e) => {
                return Err(e);
            },
        };
        let ghost ravg = rd1(a, REG_AVG_TRIM, t);
        let ghost o1 = self.ops();
        let c1 = match self.read_reg(REG_CTRL1) {
            Ok(v) => v,
            Err(e) => {
                proof {
                    lemma_extends_trans(o0, o1, self.ops());
                }
                return Err(e);
            },
        };
        let ghost rc1 = rd1(a, REG_CTRL1, c1);
        proof {
            assert(self.ops().take(o0.len() as int) =~= o0);
            assert(appended(o0, self.ops()) =~= seq![ravg, rc1]);
        }
        let cur = Odr::from_bits(c1 & 0x0f).to_bits();
        let maxb = trim.max_odr().to_bits();
        if cur > maxb {
            return Err(Sths34pf80Error::OdrNewTooBig(maxb));
        }
        let ghost o2 = self.ops();
        let nv = (t & 0xf8) | trim.to_bits();
        match self.write_reg(REG_AVG_TRIM, nv) {
            Ok(()) => {},
            Err(e) => {
                proof {
                    lemma_extends_trans(o0, o2, self.ops());
                }
                return Err(e);
            },
        }
        proof {
            assert(self.ops().take(o0.len() as int) =~= o0);
            assert(appended(o0, self.ops()) =~= seq![ravg, rc1, wr1(a, REG_AVG_TRIM, nv)]);
        }
        Ok(())
    }

    /// Read the ambient averaging trim back.
    pub fn get_avg_tambient_num(&mut self) -> (r: Result<
        AverageTrimT1Flag,
        Sths34pf80Error<T::TError>,
    >)
        ensures
            final(self).address == old(self).address,
            extends(old(self).ops(), final(self).ops()),
            r matches Ok(t) ==> {
                let subt = appended(old(self).ops(), final(self).ops());
                &&& subt.len() == 1
                &&& is_read1_of(subt[0], REG_AVG_TRIM)
                &&& t == t1_trim_of((read1_val(subt[0]) >> 4) & 0x03)
            },
            r is Err ==> final(self).ops() == old(self).ops() && r matches Err(
                Sths34pf80Error::WriteReadError(_),
            ),
    {
        let t = match self.read_reg(REG_AVG_TRIM) {
            Ok(v) => v,
            Err(e) => {
                return Err(e);
            },
        };
        proof {
            lemma_extends_push(old(self).ops(), rd1(old(self).address, REG_AVG_TRIM, t));
            assert((t >> 4) & 0x03 <= 0x03) by (bit_vector);
        }
        Ok(AverageTrimT1Flag::from_bits((t >> 4) & 0x03))
    }

    /// Set the ambient averaging trim (a plain read-modify-write; no rate
    /// limit applies to the ambient channel).
    pub fn set_avg_tambient_num(&mut self, trim: AverageTrimT1Flag) -> (r: Result<
        (),
        Sths34pf80Error<T::TError>,
    >)
        ensures
            final(self).address == old(self).address,
            extends(old(self).ops(), final(self).ops()),
            r is Err ==> r matches Err(Sths34pf80Error::WriteError(_)) || r matches Err(
                Sths34pf80Error::WriteReadError(_),
            ),
            r is Ok ==> {
                let subt = appended(old(self).ops(), final(self).ops());
                &&& subt.len() == 2
                &&& is_read1_of(subt[0], REG_AVG_TRIM)
                &&& subt[1] == wr1(
                    old(self).address,
                    REG_AVG_TRIM,
                    ((read1_val(subt[0]) & 0xcf) | (t1_trim_code(trim) << 4)) as u8,
                )
            },
    {
        let a = self.address;
        let ghost o0 = self.ops();
        let t = match self.read_reg(REG_AVG_TRIM) {
            Ok(v) => v,
            Err(e) => {
                return Err(e);
            },
        };
        let ghost ravg = rd1(a, REG_AVG_TRIM, t);
        let ghost o1 = self.ops();
        let nv = (t & 0xcf) | (trim.to_bits() << 4);
        match self.write_reg(REG_AVG_TRIM, nv) {
            Ok(()) => {},
            Err(e) => {
                proof {
                    lemma_extends_trans(o0, o1, self.ops());
                }
                return Err(e);
            },
        }
        proof {
            assert(self.ops().take(o0.len() as int) =~= o0);
            assert(appended(o0, self.ops()) =~= seq![ravg, wr1(a, REG_AVG_TRIM, nv)]);
        }
        Ok(())
    }

    /// Read the gain mode back; an undocumented gain code surfaces as
    /// `OutOfRange` rather than a panic.
    pub fn get_gain_mode(&mut self) -> (r: Result<Gain, Sths34pf80Error<T::TError>>)
        ensures
            final(self).address == old(self).address,
            extends(old(self).ops(), final(self).ops()),
            r matches Ok(g) ==> {
                let subt = appended(old(self).ops(), final(self).ops());
                &&& subt.len() == 1
                &&& is_read1_of(subt[0], REG_CTRL0)
                &&& gain_code(g) == (read1_val(subt[0]) >> 4) & 0x07
            },
            r matches Err(Sths34pf80Error::OutOfRange) ==> {
                let subt = appended(old(self).ops(), final(self).ops());
                &&& subt.len() == 1
                &&& is_read1_of(subt[0], REG_CTRL0)
                &&& (read1_val(subt[0]) >> 4) & 0x07 != 0x00
                &&& (read1_val(subt[0]) >> 4) & 0x07 != 0x07
            },
            r is Err ==> r matches Err(Sths34pf80Error::WriteReadError(_)) || r matches Err(
                Sths34pf80Error::OutOfRange,
            ),
            r matches Err(Sths34pf80Error::WriteReadError(_)) ==> final(self).ops() == old(
                self,
            ).ops(),
    {
        let d = match self.read_reg(REG_CTRL0) {
            Ok(v) => v,
            Err(e) => {
                return Err(e);
            },
        };
        proof {
            lemma_extends_push(old(self).ops(), rd1(old(self).address, REG_CTRL0, d));
        }
        let bits = (d >> 4) & 0x07;
        if bits == 0x00 {
            Ok(Gain::GainWideMode)
        } else if bits == 0x07 {
            Ok(Gain::GainDefault)
        } else {
            Err(Sths34pf80Error::OutOfRange)
        }
    }

    /// Set the gain mode: a read-modify-write of CTRL0's three gain bits.
    pub fn set_gain_mode(&mut self, gain: Gain) -> (r: Result<(), Sths34pf80Error<T::TError>>)
        ensures
            final(self).address == old(self).address,
            extends(old(self).ops(), final(self).ops()),
            r is Err ==> r matches Err(Sths34pf80Error::WriteError(_)) || r matches Err(
                Sths34pf80Error::WriteReadError(_),
            ),
            r is Ok ==> {
                let subt = appended(old(self).ops(), final(self).ops());
                &&& subt.len() == 2
                &&& is_read1_of(subt[0], REG_CTRL0)
                &&& subt[1] == wr1(
                    old(self).address,
                    REG_CTRL0,
                    ((read1_val(subt[0]) & 0x8f) | (gain_code(gain) << 4)) as u8,
                )
            },
    {
        let a = self.address;
        let ghost o0 = self.ops();
        let d = match self.read_reg(REG_CTRL0) {
            Ok(v) => v,
            Err(e) => {
                return Err(e);
            },
        };
        let ghost rop = rd1(a, REG_CTRL0, d);
        let ghost o1 = self.ops();
        let nv = (d & 0x8f) | (gain.to_bits() << 4);
        match self.write_reg(REG_CTRL0, nv) {
            Ok(()) => {},
            Err(e) => {
                proof {
                    lemma_extends_trans(o0, o1, self.ops());
                }
                return Err(e);
            },
        }
        proof {
            assert(self.ops().take(o0.len() as int) =~= o0);
            assert(appended(o0, self.ops()) =~= seq![rop, wr1(a, REG_CTRL0, nv)]);
        }
        Ok(())
    }

    /// One read-modify-write of a three-bit low-pass-filter field.
    fn set_lpf_field(&mut self, reg: u8, keep_mask: u8, shift: u8, div: LPF_DIV) -> (r: Result<
        (),
        Sths34pf80Error<T::TError>,
    >)
        requires
            shift == 0 || shift == 3,
        ensures
            final(self).address == old(self).address,
            extends(old(self).ops(), final(self).ops()),
            r is Err ==> r matches Err(Sths34pf80Error::WriteError(_)) || r matches Err(
                Sths34pf80Error::WriteReadError(_),
            ),
            r is Ok ==> {
                let subt = appended(old(self).ops(), final(self).ops());
                &&& subt.len() == 2
                &&& is_read1_of(subt[0], reg)
                &&& subt[1] == wr1(
                    old(self).address,
                    reg,
                    ((read1_val(subt[0]) & keep_mask) | (lpf_div_code(div) << shift)) as u8,
                )
            },
    {
        let a = self.address;
        let ghost o0 = self.ops();
        let d = match self.read_reg(reg) {
            Ok(v) => v,
            Err(e) => {
                return Err(e);
            },
        };
        let ghost rop = rd1(a, reg, d);
        let ghost o1 = self.ops();
        let nv = (d & keep_mask) | (div.to_bits() << shift);
        match self.write_reg(reg, nv) {
            Ok(()) => {},
            Err(e) => {
                proof {
                    lemma_extends_trans(o0, o1, self.ops());
                }
                return Err(e);
            },
        }
        proof {
            assert(self.ops().take(o0.len() as int) =~= o0);
            assert(appended(o0, self.ops()) =~= seq![rop, wr1(a, reg, nv)]);
        }
        Ok(())
    }

    /// Set the motion-and-presence low-pass-filter divider (LPF1 bits 5:3).
    pub fn set_lpf_m_p(&mut self, div: LPF_DIV) -> (r: Result<(), Sths34pf80Error<T::TError>>)
        ensures
            final(self).address == old(self).address,
            extends(old(self).ops(), final(self).ops()),
            r is Ok ==> {
                let subt = appended(old(self).ops(), final(self).ops());
                &&& subt.len() == 2
                &&& is_read1_of(subt[0], REG_LPF1)
                &&& subt[1] == wr1(
                    old(self).address,
                    REG_LPF1,
                    ((read1_val(subt[0]) & 0xc7) | (lpf_div_code(div) << 3)) as u8,
                )
            },
    {
        self.set_lpf_field(REG_LPF1, 0xc7, 3, div)
    }

    /// Set the motion-detection low-pass-filter divider (LPF1 bits 2:0).
    pub fn set_lpf_m(&mut self, div: LPF_DIV) -> (r: Result<(), Sths34pf80Error<T::TError>>)
        ensures
            final(self).address == old(self).address,
            extends(old(self).ops(), final(self).ops()),
            r is Ok ==> {
                let subt = appended(old(self).ops(), final(self).ops());
                &&& subt.len() == 2
                &&& is_read1_of(subt[0], REG_LPF1)
                &&& subt[1] == wr1(
                    old(self).address,
                    REG_LPF1,
                    ((read1_val(subt[0]) & 0xf8) | lpf_div_code(div)) as u8,
                )
            },
    {
        let r = self.set_lpf_field(REG_LPF1, 0xf8, 0, div);
        proof {
            let c = lpf_div_code(div);
            assert(c << 0 == c) by (bit_vector);
        }
        r
    }

    /// Set the presence-detection low-pass-filter divider (LPF2 bits 5:3).
    pub fn set_lpf_p(&mut self, div: LPF_DIV) -> (r: Result<(), Sths34pf80Error<T::TError>>)
        ensures
            final(self).address == old(self).address,
            extends(old(self).ops(), final(self).ops()),
            r is Ok ==> {
                let subt = appended(old(self).ops(), final(self).ops());
                &&& subt.len() == 2
                &&& is_read1_of(subt[0], REG_LPF2)
                &&& subt[1] == wr1(
                    old(self).address,
                    REG_LPF2,
                    ((read1_val(subt[0]) & 0xc7) | (lpf_div_code(div) << 3)) as u8,
                )
            },
    {
        self.set_lpf_field(REG_LPF2, 0xc7, 3, div)
    }

    /// Set the ambient-shock low-pass-filter divider (LPF2 bits 2:0).
    pub fn set_lpf_a_t(&mut self, div: LPF_DIV) -> (r: Result<(), Sths34pf80Error<T::TError>>)
        ensures
            final(self).address == old(self).address,
            extends(old(self).ops(), final(self).ops()),
            r is Ok ==> {
                let subt = appended(old(self).ops(), final(self).ops());
                &&& subt.len() == 2
                &&& is_read1_of(subt[0], REG_LPF2)
                &&& subt[1] == wr1(
                    old(self).address,
                    REG_LPF2,
                    ((read1_val(subt[0]) & 0xf8) | lpf_div_code(div)) as u8,
                )
            },
    {
        let r = self.set_lpf_field(REG_LPF2, 0xf8, 0, div);
        proof {
            let c = lpf_div_code(div);
            assert(c << 0 == c) by (bit_vector);
        }
        r
    }

    /// Write the raw sensitivity trimming byte.
    pub fn set_tmos_sensitivity_raw(&mut self, value: u8) -> (r: Result<
        (),
        Sths34pf80Error<T::TError>,
    >)
        ensures
            final(self).address == old(self).address,
            extends(old(self).ops(), final(self).ops()),
            r is Ok ==> appended(old(self).ops(), final(self).ops()) == seq![
                wr1(old(self).address, REG_SENS_DATA, value),
            ],
            r is Err ==> final(self).ops() == old(self).ops() && r matches Err(
                Sths34pf80Error::WriteError(_),
            ),
    {
        match self.write_reg(REG_SENS_DATA, value) {
            Ok(()) => {
                proof {
                    lemma_extends_push(
                        old(self).ops(),
                        wr1(old(self).address, REG_SENS_DATA, value),
                    );
                }
                Ok(())
            },
            Err(e) => Err(e),
        }
    }

    /// Read the raw sensitivity trimming byte back.
    pub fn get_tmos_sensitivity_raw(&mut self) -> (r: Result<u8, Sths34pf80Error<T::TError>>)
        ensures
            final(self).address == old(self).address,
            extends(old(self).ops(), final(self).ops()),
            r matches Ok(v) ==> {
                let subt = appended(old(self).ops(), final(self).ops());
                &&& subt.len() == 1
                &&& is_read1_of(subt[0], REG_SENS_DATA)
                &&& v == read1_val(subt[0])
            },
            r is Err ==> final(self).ops() == old(self).ops() && r matches Err(
                Sths34pf80Error::WriteReadError(_),
            ),
    {
        let v = match self.read_reg(REG_SENS_DATA) {
            Ok(v) => v,
            Err(e) => {
                return Err(e);
            },
        };
        proof {
            lemma_extends_push(old(self).ops(), rd1(old(self).address, REG_SENS_DATA, v));
        }
        Ok(v)
    }

    /// Write the interrupt pin configuration to CTRL3 and hand back what
    /// the device then reports.
    pub fn set_config_interrupt_pin(&mut self, config: u8) -> (r: Result<
        InterruptPinConfig,
        Sths34pf80Error<T::TError>,
    >)
        ensures
            final(self).address == old(self).address,
            extends(old(self).ops(), final(self).ops()),
            r is Err ==> r matches Err(Sths34pf80Error::WriteError(_)) || r matches Err(
                Sths34pf80Error::WriteReadError(_),
            ),
            r matches Ok(c) ==> {
                let subt = appended(old(self).ops(), final(self).ops());
                &&& subt.len() == 2
                &&& subt[0] == wr1(old(self).address, REG_CTRL3, config)
                &&& is_read1_of(subt[1], REG_CTRL3)
                &&& c.0 == read1_val(subt[1])
            },
    {
        let a = self.address;
        let ghost o0 = self.ops();
        match self.write_reg(REG_CTRL3, config) {
            Ok(()) => {},
            Err(e) => {
                return Err(e);
            },
        }
        let ghost o1 = self.ops();
        let d = match self.read_reg(REG_CTRL3) {
            Ok(v) => v,
            Err(e) => {
                proof {
                    lemma_extends_trans(o0, o1, self.ops());
                }
                return Err(e);
            },
        };
        proof {
            assert(self.ops().take(o0.len() as int) =~= o0);
            assert(appended(o0, self.ops()) =~= seq![
                wr1(a, REG_CTRL3, config),
                rd1(a, REG_CTRL3, d),
            ]);
        }
        Ok(InterruptPinConfig(d))
    }

    /// Verify the chip identifier: one read of the identifier register,
    /// answering the id on a match and `UnexpectedChipId` with the value
    /// actually read otherwise.
    pub fn check_chip_id(&mut self) -> (r: Result<u8, Sths34pf80Error<T::TError>>)
        ensures
            final(self).address == old(self).address,
            extends(old(self).ops(), final(self).ops()),
            r is Err ==> r matches Err(Sths34pf80Error::WriteReadError(_)) || r matches Err(
                Sths34pf80Error::UnexpectedChipId(_),
            ),
            r matches Err(Sths34pf80Error::WriteReadError(_)) ==> final(self).ops() == old(
                self,
            ).ops(),
            r matches Ok(id) ==> id == PART_ID && appended(old(self).ops(), final(self).ops())
                == seq![rd1(old(self).address, REG_WHO_AM_I, id)],
            r matches Err(Sths34pf80Error::UnexpectedChipId(got)) ==> got != PART_ID && appended(
                old(self).ops(),
                final(self).ops(),
            ) == seq![rd1(old(self).address, REG_WHO_AM_I, got)],
    {
        let id = match self.read_reg(REG_WHO_AM_I) {
            Ok(v) => v,
            Err(e) => {
                return Err(e);
            },
        };
        proof {
            lemma_extends_push(old(self).ops(), rd1(old(self).address, REG_WHO_AM_I, id));
        }
        if id != PART_ID {
            Err(Sths34pf80Error::UnexpectedChipId(id))
        } else {
            Ok(id)
        }
    }

    /// Bring the device up: verify the chip identifier (failing with
    /// `NotConnected` before any write when it differs), issue the boot
    /// bit, settle, reset the detection algorithm, set the documented
    /// default averaging trims, enable block-data-update, and set the
    /// documented default rate through the guarded rate setter. The success
    /// contract pins each of those steps in the trace: the boot write and
    /// the settle delay follow the identifier read directly; the averaging
    /// trims end at their documented default; the only paged-bank writes
    /// are algorithm-reset commands, and at least two occur (the explicit
    /// one and the guard's own when the default rate is applied); a CTRL1
    /// write sets the block-data-update bit on the value just read; and the
    /// last CTRL1 write carries the default rate with the access window
    /// closed behind it.
    pub fn initialize(&mut self) -> (r: Result<(), Sths34pf80Error<T::TError>>)
        ensures
            final(self).address == old(self).address,
            extends(old(self).ops(), final(self).ops()),
            r matches Err(Sths34pf80Error::NotConnected) ==> {
                let subt = appended(old(self).ops(), final(self).ops());
                &&& subt.len() == 1
                &&& is_read1_of(subt[0], REG_WHO_AM_I)
                &&& read1_val(subt[0]) != PART_ID
                &&& no_writes(subt)
            },
            ({
                let subt = appended(old(self).ops(), final(self).ops());
                subt.len() >= 1 && is_read1_of(subt[0], REG_WHO_AM_I) && read1_val(subt[0])
                    != PART_ID
            }) ==> r matches Err(Sths34pf80Error::NotConnected),
            r matches Err(Sths34pf80Error::MeasurementTimeout) ==> {
                let subt = appended(old(self).ops(), final(self).ops());
                &&& subt.len() >= 3
                &&& subt[0] == rd1(old(self).address, REG_WHO_AM_I, PART_ID)
                &&& subt[1] == wr1(old(self).address, REG_CTRL2, CTRL2_BOOT)
                &&& subt[2] == (BusOp::Delay { ms: 3 })
            },
            r is Ok ==> {
                let subt = appended(old(self).ops(), final(self).ops());
                &&& subt.len() >= 3
                &&& subt[0] == rd1(old(self).address, REG_WHO_AM_I, PART_ID)
                &&& subt[1] == wr1(old(self).address, REG_CTRL2, CTRL2_BOOT)
                &&& subt[2] == (BusOp::Delay { ms: 3 })
                &&& last_write_byte(subt, REG_AVG_TRIM) == Some(0x03u8)
                &&& paged_writes(subt).len() >= 2
                &&& forall|i: int|
                    0 <= i < paged_writes(subt).len() ==> #[trigger] paged_writes(subt)[i] == (
                    EMB_RESET_ALGO,
                    seq![RESET_ALGO_CMD],
                )
                &&& exists|i: int|
                    0 <= i && i + 1 < subt.len() && is_read1_of(#[trigger] subt[i], REG_CTRL1)
                        && subt[i + 1] == wr1(
                        old(self).address,
                        REG_CTRL1,
                        read1_val(subt[i]) | 0x10,
                    )
                &&& (last_write_byte(subt, REG_CTRL1) matches Some(v) && odr_bits(v) == odr_code(
                    Odr::ODR_HZ1,
                ))
                &&& paged_window_closed(subt)
            },
    {
        let a = self.address;
        let ghost o0 = self.ops();
        let id = match self.check_chip_id() {
            Ok(v) => v,
            Err(Sths34pf80Error::UnexpectedChipId(_)) => {
                return Err(Sths34pf80Error::NotConnected);
            },
            Err(e) => {
                return Err(e);
            },
        };
        let ghost rid = rd1(a, REG_WHO_AM_I, PART_ID);
        let ghost boot = wr1(a, REG_CTRL2, CTRL2_BOOT);
        let ghost dly = BusOp::Delay { ms: 3 };
        let ghost o1 = self.ops();
        match self.write_reg(REG_CTRL2, CTRL2_BOOT) {
            Ok(()) => {},
            Err(e) => {
                proof {
                    lemma_extends_trans(o0, o1, self.ops());
                }
                return Err(e);
            },
        }
        proof {
            lemma_extends_trans(o0, o1, self.ops());
        }
        let ghost o2 = self.ops();
        self.delay(3);
        proof {
            lemma_extends_trans(o0, o2, self.ops());
            assert(appended(o0, self.ops()) =~= seq![rid, boot, dly]);
        }
        let ghost o3 = self.ops();
        match self.write_paged(EMB_RESET_ALGO, RESET_ALGO_CMD, None) {
            Ok(()) => {},
            Err(e) => {
                proof {
                    lemma_extends_trans(o0, o3, self.ops());
                    assert(appended(o0, self.ops())[0] == rid);
                    assert(appended(o0, self.ops())[1] == boot);
                    assert(appended(o0, self.ops())[2] == dly);
                }
                return Err(e);
            },
        }
        proof {
            lemma_extends_trans(o0, o3, self.ops());
            assert(appended(o0, self.ops())[0] == rid);
            assert(appended(o0, self.ops())[1] == boot);
            assert(appended(o0, self.ops())[2] == dly);
        }
        let ghost o4 = self.ops();
        match self.write_reg(REG_AVG_TRIM, 0x03) {
            Ok(()) => {},
            Err(e) => {
                proof {
                    lemma_extends_trans(o0, o4, self.ops());
                }
                return Err(e);
            },
        }
        proof {
            lemma_extends_trans(o0, o4, self.ops());
        }
        let ghost o5 = self.ops();
        let c1 = match self.read_reg(REG_CTRL1) {
            Ok(v) => v,
            Err(e) => {
                proof {
                    lemma_extends_trans(o0, o5, self.ops());
                }
                return Err(e);
            },
        };
        proof {
            lemma_extends_trans(o0, o5, self.ops());
        }
        let ghost o6 = self.ops();
        match self.write_reg(REG_CTRL1, c1 | 0x10) {
            Ok(()) => {},
            Err(e) => {
                proof {
                    lemma_extends_trans(o0, o6, self.ops());
                }
                return Err(e);
            },
        }
        proof {
            lemma_extends_trans(o0, o6, self.ops());
            assert(appended(o0, self.ops())[0] == rid);
            assert(appended(o0, self.ops())[1] == boot);
            assert(appended(o0, self.ops())[2] == dly);
        }
        let ghost o7 = self.ops();
        match self.set_tmos_odr(Odr::ODR_HZ1) {
            Ok(()) => {},
            Err(e) => {
                proof {
                    lemma_extends_trans(o0, o7, self.ops());
                    assert(appended(o0, self.ops())[0] == rid);
                    assert(appended(o0, self.ops())[1] == boot);
                    assert(appended(o0, self.ops())[2] == dly);
                }
                return Err(e);
            },
        }
        proof {
            let fin = self.ops();
            let wavg = wr1(a, REG_AVG_TRIM, 0x03);
            let rc1 = rd1(a, REG_CTRL1, c1);
            let wbdu = wr1(a, REG_CTRL1, c1 | 0x10);
            let rc = (EMB_RESET_ALGO, seq![RESET_ALGO_CMD]);
            let sA0 = appended(o0, o1);
            let sA1 = appended(o1, o2);
            let sA2 = appended(o2, o3);
            let sA3 = appended(o3, o4);
            let sA4 = appended(o4, o5);
            let sA5 = appended(o5, o6);
            let sA6 = appended(o6, o7);
            let sA7 = appended(o7, fin);
            assert(sA0 =~= seq![rid]);
            assert(sA1 =~= seq![boot]);
            assert(sA2 =~= seq![dly]);
            assert(sA4 =~= seq![wavg]);
            assert(sA5 =~= seq![rc1]);
            assert(sA6 =~= seq![wbdu]);
            assert(Seq::<BusOp>::empty().push(rid) =~= seq![rid]);
            assert(Seq::<BusOp>::empty().push(boot) =~= seq![boot]);
            assert(Seq::<BusOp>::empty().push(dly) =~= seq![dly]);
            assert(Seq::<BusOp>::empty().push(wavg) =~= seq![wavg]);
            assert(Seq::<BusOp>::empty().push(rc1) =~= seq![rc1]);
            assert(Seq::<BusOp>::empty().push(wbdu) =~= seq![wbdu]);
            lemma_last_write_byte_push(Seq::<BusOp>::empty(), rid, REG_CTRL2);
            lemma_last_write_byte_push(Seq::<BusOp>::empty(), rid, REG_PAGE_RW);
            lemma_last_write_byte_push(Seq::<BusOp>::empty(), rid, REG_CTRL1);
            lemma_last_write_byte_push(Seq::<BusOp>::empty(), rid, REG_AVG_TRIM);
            lemma_last_write_byte_push(Seq::<BusOp>::empty(), boot, REG_CTRL2);
            lemma_last_write_byte_push(Seq::<BusOp>::empty(), boot, REG_PAGE_RW);
            lemma_last_write_byte_push(Seq::<BusOp>::empty(), boot, REG_CTRL1);
            lemma_last_write_byte_push(Seq::<BusOp>::empty(), boot, REG_AVG_TRIM);
            lemma_last_write_byte_push(Seq::<BusOp>::empty(), dly, REG_CTRL2);
            lemma_last_write_byte_push(Seq::<BusOp>::empty(), dly, REG_PAGE_RW);
            lemma_last_write_byte_push(Seq::<BusOp>::empty(), dly, REG_CTRL1);
            lemma_last_write_byte_push(Seq::<BusOp>::empty(), dly, REG_AVG_TRIM);
            lemma_last_write_byte_push(Seq::<BusOp>::empty(), wavg, REG_CTRL2);
            lemma_last_write_byte_push(Seq::<BusOp>::empty(), wavg, REG_PAGE_RW);
            lemma_last_write_byte_push(Seq::<BusOp>::empty(), wavg, REG_CTRL1);
            lemma_last_write_byte_push(Seq::<BusOp>::empty(), wavg, REG_AVG_TRIM);
            lemma_last_write_byte_push(Seq::<BusOp>::empty(), rc1, REG_CTRL2);
            lemma_last_write_byte_push(Seq::<BusOp>::empty(), rc1, REG_PAGE_RW);
            lemma_last_write_byte_push(Seq::<BusOp>::empty(), rc1, REG_CTRL1);
            lemma_last_write_byte_push(Seq::<BusOp>::empty(), rc1, REG_AVG_TRIM);
            lemma_last_write_byte_push(Seq::<BusOp>::empty(), wbdu, REG_CTRL2);
            lemma_last_write_byte_push(Seq::<BusOp>::empty(), wbdu, REG_PAGE_RW);
            lemma_last_write_byte_push(Seq::<BusOp>::empty(), wbdu, REG_CTRL1);
            lemma_last_write_byte_push(Seq::<BusOp>::empty(), wbdu, REG_AVG_TRIM);
            lemma_extends_trans(o0, o1, o2);
            lemma_extends_trans(o0, o2, o3);
            lemma_extends_trans(o0, o3, o4);
            lemma_extends_trans(o0, o4, o5);
            lemma_extends_trans(o0, o5, o6);
            lemma_extends_trans(o0, o6, o7);
            lemma_extends_trans(o0, o7, fin);
            let s1 = appended(o0, o1);
            let s2 = appended(o0, o2);
            let s3 = appended(o0, o3);
            let s4 = appended(o0, o4);
            let s5 = appended(o0, o5);
            let s6 = appended(o0, o6);
            let s7 = appended(o0, o7);
            let subt = appended(o0, fin);
            lemma_paged_writes_concat(s1, sA1);
            lemma_paged_writes_concat(s2, sA2);
            lemma_paged_writes_concat(s3, sA3);
            lemma_paged_writes_concat(s4, sA4);
            lemma_paged_writes_concat(s5, sA5);
            lemma_paged_writes_concat(s6, sA6);
            lemma_paged_writes_concat(s7, sA7);
            lemma_last_write_byte_concat(s1, sA1, REG_CTRL2);
            lemma_last_write_byte_concat(s2, sA2, REG_CTRL2);
            lemma_last_write_byte_concat(s3, sA3, REG_CTRL2);
            lemma_last_write_byte_concat(s4, sA4, REG_CTRL2);
            lemma_last_write_byte_concat(s5, sA5, REG_CTRL2);
            lemma_last_write_byte_concat(s6, sA6, REG_CTRL2);
            lemma_last_write_byte_concat(s7, sA7, REG_CTRL2);
            lemma_last_write_byte_concat(s1, sA1, REG_PAGE_RW);
            lemma_last_write_byte_concat(s2, sA2, REG_PAGE_RW);
            lemma_last_write_byte_concat(s3, sA3, REG_PAGE_RW);
            lemma_last_write_byte_concat(s4, sA4, REG_PAGE_RW);
            lemma_last_write_byte_concat(s5, sA5, REG_PAGE_RW);
            lemma_last_write_byte_concat(s6, sA6, REG_PAGE_RW);
            lemma_last_write_byte_concat(s7, sA7, REG_PAGE_RW);
            lemma_last_write_byte_concat(s1, sA1, REG_CTRL1);
            lemma_last_write_byte_concat(s2, sA2, REG_CTRL1);
            lemma_last_write_byte_concat(s3, sA3, REG_CTRL1);
            lemma_last_write_byte_concat(s4, sA4, REG_CTRL1);
            lemma_last_write_byte_concat(s5, sA5, REG_CTRL1);
            lemma_last_write_byte_concat(s6, sA6, REG_CTRL1);
            lemma_last_write_byte_concat(s7, sA7, REG_CTRL1);
            lemma_last_write_byte_concat(s1, sA1, REG_AVG_TRIM);
            lemma_last_write_byte_concat(s2, sA2, REG_AVG_TRIM);
            lemma_last_write_byte_concat(s3, sA3, REG_AVG_TRIM);
            lemma_last_write_byte_concat(s4, sA4, REG_AVG_TRIM);
            lemma_last_write_byte_concat(s5, sA5, REG_AVG_TRIM);
            lemma_last_write_byte_concat(s6, sA6, REG_AVG_TRIM);
            lemma_last_write_byte_concat(s7, sA7, REG_AVG_TRIM);
            assert(subt[0] == rid);
            assert(subt[1] == boot);
            assert(subt[2] == dly);
            let k = s5.len() as int;
            assert(s6[k] == rc1);
            assert(s7[k] == rc1);
            assert(s7[k + 1] == wbdu);
            assert(subt[k] == rc1);
            assert(subt[k + 1] == wbdu);
            assert(is_read1_of(subt[k], REG_CTRL1));
            assert(read1_val(subt[k]) == c1);
            assert(subt[k + 1] == wr1(a, REG_CTRL1, read1_val(subt[k]) | 0x10));
            assert(exists|i: int|
                0 <= i && i + 1 < subt.len() && is_read1_of(#[trigger] subt[i], REG_CTRL1) && subt[
                    i + 1
                ] == wr1(a, REG_CTRL1, read1_val(subt[i]) | 0x10));
            let x = read1_val(sA7[1]);
            assert(((x & 0xf0) | 3) & 0x0f == 3) by (bit_vector);
            assert(last_write_byte(subt, REG_CTRL1) == Some(((x & 0xf0) | 3) as u8));
            if odr_bits(read1_val(sA3[0])) == 0 {
                assert(paged_writes(subt) =~= seq![rc, rc]);
                assert forall|i: int| 0 <= i < paged_writes(subt).len() implies #[trigger]
                    paged_writes(subt)[i] == rc by {}
            } else {
                assert(paged_writes(subt) =~= seq![rc, rc, rc]);
                assert forall|i: int| 0 <= i < paged_writes(subt).len() implies #[trigger]
                    paged_writes(subt)[i] == rc by {}
            }
        }
        Ok(())
    }

    /// Whether the status register reports new data ready (its bit 2).
    pub fn get_data_ready(&mut self) -> (r: Result<bool, Sths34pf80Error<T::TError>>)
        ensures
            final(self).address == old(self).address,
            extends(old(self).ops(), final(self).ops()),
            r matches Ok(b) ==> {
                let sub = appended(old(self).ops(), final(self).ops());
                &&& sub.len() == 1
                &&& is_read1_of(sub[0], REG_STATUS)
                &&& b == (read1_val(sub[0]) & STATUS_DRDY_BIT != 0)
            },
            r is Err ==> final(self).ops() == old(self).ops() && r matches Err(
                Sths34pf80Error::WriteReadError(_),
            ),
    {
        let st = self.read_reg(REG_STATUS)?;
        proof {
            lemma_extends_push(old(self).ops(), rd1(old(self).address, REG_STATUS, st));
        }
        Ok(st & STATUS_DRDY_BIT != 0)
    }

    /// The function-status register's three latched ready flags; reading
    /// them clears them on the device.
    pub fn get_func_status(&mut self) -> (r: Result<FuncStatus, Sths34pf80Error<T::TError>>)
        ensures
            final(self).address == old(self).address,
            extends(old(self).ops(), final(self).ops()),
            r matches Ok(fs) ==> {
                let sub = appended(old(self).ops(), final(self).ops());
                &&& sub.len() == 1
                &&& is_read1_of(sub[0], REG_FUNC_STATUS)
                &&& fs.0 == read1_val(sub[0])
            },
            r is Err ==> final(self).ops() == old(self).ops() && r matches Err(
                Sths34pf80Error::WriteReadError(_),
            ),
    {
        let b = self.read_reg(REG_FUNC_STATUS)?;
        proof {
            lemma_extends_push(old(self).ops(), rd1(old(self).address, REG_FUNC_STATUS, b));
        }
        Ok(FuncStatus(b))
    }
}

impl<T: Transport> Sths34pf80<T> {
    /// Read the presence value (little-endian signed 16-bit).
    pub fn get_presence(&mut self) -> (r: Result<i16, Sths34pf80Error<T::TError>>)
        ensures
            final(self).address == old(self).address,
            extends(old(self).ops(), final(self).ops()),
            r matches Ok(v) ==> {
                let subt = appended(old(self).ops(), final(self).ops());
                &&& subt.len() == 1
                &&& is_read2_of(subt[0], REG_PRESENCE_L)
                &&& v as int == read2_val(subt[0])
            },
            r is Err ==> final(self).ops() == old(self).ops() && r matches Err(
                Sths34pf80Error::WriteReadError(_),
            ),
    {
        self.read_i16(REG_PRESENCE_L)
    }

    /// Read the motion value (little-endian signed 16-bit).
    pub fn get_tmotion(&mut self) -> (r: Result<i16, Sths34pf80Error<T::TError>>)
        ensures
            final(self).address == old(self).address,
            extends(old(self).ops(), final(self).ops()),
            r matches Ok(v) ==> {
                let subt = appended(old(self).ops(), final(self).ops());
                &&& subt.len() == 1
                &&& is_read2_of(subt[0], REG_MOTION_L)
                &&& v as int == read2_val(subt[0])
            },
            r is Err ==> final(self).ops() == old(self).ops() && r matches Err(
                Sths34pf80Error::WriteReadError(_),
            ),
    {
        self.read_i16(REG_MOTION_L)
    }

    /// Read the ambient-shock value (little-endian signed 16-bit).
    pub fn get_shock_temperature(&mut self) -> (r: Result<i16, Sths34pf80Error<T::TError>>)
        ensures
            final(self).address == old(self).address,
            extends(old(self).ops(), final(self).ops()),
            r matches Ok(v) ==> {
                let subt = appended(old(self).ops(), final(self).ops());
                &&& subt.len() == 1
                &&& is_read2_of(subt[0], REG_AMB_SHOCK_L)
                &&& v as int == read2_val(subt[0])
            },
            r is Err ==> final(self).ops() == old(self).ops() && r matches Err(
                Sths34pf80Error::WriteReadError(_),
            ),
    {
        self.read_i16(REG_AMB_SHOCK_L)
    }

    /// Read the ambient temperature value (little-endian signed 16-bit).
    pub fn get_ambient_temperature(&mut self) -> (r: Result<i16, Sths34pf80Error<T::TError>>)
        ensures
            final(self).address == old(self).address,
            extends(old(self).ops(), final(self).ops()),
            r matches Ok(v) ==> {
                let subt = appended(old(self).ops(), final(self).ops());
                &&& subt.len() == 1
                &&& is_read2_of(subt[0], REG_AMBIENT_L)
                &&& v as int == read2_val(subt[0])
            },
            r is Err ==> final(self).ops() == old(self).ops() && r matches Err(
                Sths34pf80Error::WriteReadError(_),
            ),
    {
        self.read_i16(REG_AMBIENT_L)
    }

    /// One polling pass of the shared measurement core. `Ok(None)` is an
    /// unproductive pass: not ready, the function-status read failed, or no
    /// flag was set. A transport failure on the ready check itself, or on a
    /// value read, is a hard failure.
    fn poll_once(&mut self) -> (r: Result<Option<Measurements>, Sths34pf80Error<T::TError>>)
        ensures
            final(self).address == old(self).address,
            extends(old(self).ops(), final(self).ops()),
            r is Err ==> r matches Err(Sths34pf80Error::WriteReadError(_)),
            r matches Ok(o) ==> count_reads_of(
                appended(old(self).ops(), final(self).ops()),
                REG_STATUS,
            ) == 1 && count_delays(appended(old(self).ops(), final(self).ops())) == 0,
            r matches Ok(Some(m)) ==> productive_pass(
                appended(old(self).ops(), final(self).ops()),
                m,
            ),
    {
        let a = self.address;
        let ghost o0 = self.ops();
        let st = match self.read_reg(REG_STATUS) {
            Ok(v) => v,
            Err(e) => {
                return Err(e);
            },
        };
        let ghost stop = rd1(a, REG_STATUS, st);
        proof {
            lemma_extends_push(o0, stop);
            assert(appended(o0, self.ops()) =~= Seq::<BusOp>::empty().push(stop));
            lemma_count_reads_push(Seq::<BusOp>::empty(), stop, REG_STATUS);
            lemma_count_delays_push(Seq::<BusOp>::empty(), stop);
        }
        if st & STATUS_DRDY_BIT == 0 {
            return Ok(None);
        }
        let ghost o1 = self.ops();
        let fs = match self.read_reg(REG_FUNC_STATUS) {
            Ok(v) => v,
            Err(_e) => {
                return Ok(None);
            },
        };
        let ghost fsop = rd1(a, REG_FUNC_STATUS, fs);
        proof {
            lemma_extends_trans(o0, o1, self.ops());
            assert(appended(o0, self.ops()) =~= Seq::<BusOp>::empty().push(stop).push(fsop));
            lemma_rd1_not_of(a, REG_FUNC_STATUS, fs, REG_STATUS);
            lemma_count_reads_push(Seq::<BusOp>::empty().push(stop), fsop, REG_STATUS);
            lemma_count_delays_push(Seq::<BusOp>::empty().push(stop), fsop);
        }
        if fs & 0x07 == 0 {
            return Ok(None);
        }
        let mut m = Measurements {
            presence_value: None,
            motion_value: None,
            ambient_shock_value: None,
        };
        let ghost o2 = self.ops();
        let ghost base = Seq::<BusOp>::empty().push(stop).push(fsop);
        if fs & 0x04 != 0 {
            let v = match self.read_i16(REG_PRESENCE_L) {
                Ok(v) => v,
                Err(e) => {
                    proof {
                        lemma_extends_trans(o0, o2, self.ops());
                    }
                    return Err(e);
                },
            };
            m.presence_value = Some(v);
        }
        proof {
            lemma_extends_refl(self.ops());
            lemma_extends_trans(o0, o2, self.ops());
        }
        let ghost o3 = self.ops();
        if fs & 0x02 != 0 {
            let v = match self.read_i16(REG_MOTION_L) {
                Ok(v) => v,
                Err(e) => {
                    proof {
                        lemma_extends_trans(o0, o3, self.ops());
                    }
                    return Err(e);
                },
            };
            m.motion_value = Some(v);
        }
        proof {
            lemma_extends_refl(self.ops());
            lemma_extends_trans(o0, o3, self.ops());
        }
        let ghost o4 = self.ops();
        if fs & 0x01 != 0 {
            let v = match self.read_i16(REG_AMB_SHOCK_L) {
                Ok(v) => v,
                Err(e) => {
                    proof {
                        lemma_extends_trans(o0, o4, self.ops());
                    }
                    return Err(e);
                },
            };
            m.ambient_shock_value = Some(v);
        }
        proof {
            lemma_extends_refl(self.ops());
            lemma_extends_trans(o0, o4, self.ops());
            let subt = appended(o0, self.ops());
            let pseg = appended(o2, o3);
            let mseg = appended(o3, o4);
            let sseg = appended(o4, self.ops());
            assert(subt =~= base + pseg + mseg + sseg);
            if fs & 0x04 != 0 {
                assert(pseg.len() == 1);
                assert(subt[2] == pseg[0]);
            } else {
                assert(pseg.len() == 0);
            }
            if fs & 0x02 != 0 {
                assert(mseg.len() == 1);
                assert(subt[2 + pseg.len() as int] == mseg[0]);
            } else {
                assert(mseg.len() == 0);
            }
            if fs & 0x01 != 0 {
                assert(sseg.len() == 1);
                assert(subt[2 + pseg.len() as int + mseg.len() as int] == sseg[0]);
            } else {
                assert(sseg.len() == 0);
            }
            assert(subt[0] == stop);
            assert(subt[1] == fsop);
            assert(productive_pass(subt, m));
            lemma_count_reads_concat(base, subt.skip(2), REG_STATUS);
            assert(base + subt.skip(2) =~= subt);
            assert forall|i: int| 0 <= i < subt.skip(2).len() implies !is_read1_of(
                #[trigger] subt.skip(2)[i],
                REG_STATUS,
            ) by {
                assert(read_data(subt.skip(2)[i]).len() == 2);
            }
            lemma_no_status_reads(subt.skip(2));
            lemma_count_delays_concat(base, subt.skip(2));
            assert forall|i: int| 0 <= i < subt.skip(2).len() implies !(#[trigger] subt.skip(2)[i]
                matches BusOp::Delay { .. }) by {}
            lemma_no_delays(subt.skip(2));
        }
        Ok(Some(m))
    }

    /// Acquire a measurement under a tick-counted bound: poll the shared
    /// core once per tick, sleeping 50 ms after every unproductive pass,
    /// and fail with `MeasurementTimeout` once `ticks` unproductive passes
    /// have been counted. A transport failure on the ready check fails
    /// immediately without waiting for the bound.
    pub fn get_measurements_timeout(&mut self, ticks: u32) -> (r: Result<
        Measurements,
        Sths34pf80Error<T::TError>,
    >)
        ensures
            final(self).address == old(self).address,
            extends(old(self).ops(), final(self).ops()),
            r matches Err(Sths34pf80Error::MeasurementTimeout) ==> count_reads_of(
                appended(old(self).ops(), final(self).ops()),
                REG_STATUS,
            ) == ticks && count_delays(appended(old(self).ops(), final(self).ops())) == ticks,
            r is Err ==> r matches Err(Sths34pf80Error::WriteReadError(_)) || r matches Err(
                Sths34pf80Error::MeasurementTimeout,
            ),
            r matches Ok(m) ==> productive_suffix(appended(old(self).ops(), final(self).ops()), m)
                && (m.presence_value is Some || m.motion_value is Some || m.ambient_shock_value
                is Some) && count_delays(appended(old(self).ops(), final(self).ops())) < ticks,
    {
        let a = self.address;
        let ghost o0 = self.ops();
        let mut t: u32 = 0;
        proof {
            lemma_extends_refl(o0);
            assert(appended(o0, o0) =~= Seq::<BusOp>::empty());
        }
        while t < ticks
            invariant
                t <= ticks,
                self.address == a,
                a == old(self).address,
                o0 == old(self).ops(),
                extends(o0, self.ops()),
                count_reads_of(appended(o0, self.ops()), REG_STATUS) == t,
                count_delays(appended(o0, self.ops())) == t,
            decreases ticks - t,
        {
            let ghost cp = self.ops();
            match self.poll_once() {
                Ok(Some(m)) => {
                    proof {
                        lemma_extends_trans(o0, cp, self.ops());
                        let subt = appended(o0, self.ops());
                        let prior = appended(o0, cp);
                        let pass = appended(cp, self.ops());
                        assert(subt =~= prior + pass);
                        lemma_count_reads_concat(prior, pass, REG_STATUS);
                        lemma_count_delays_concat(prior, pass);
                        let fsv = read1_val(pass[1]);
                        assert(fsv & 0x07 != 0 ==> (fsv & 0x04 != 0 || fsv & 0x02 != 0 || fsv
                            & 0x01 != 0)) by (bit_vector);
                        assert(pass.len() == pass_len(m));
                        assert(subt.skip(subt.len() - pass_len(m)) =~= pass);
                    }
                    return Ok(m);
                },
                Ok(None) => {},
                Err(e) => {
                    proof {
                        lemma_extends_trans(o0, cp, self.ops());
                    }
                    return Err(e);
                },
            }
            let ghost cq = self.ops();
            self.delay(50);
            proof {
                lemma_extends_trans(cp, cq, self.ops());
                lemma_extends_trans(o0, cp, self.ops());
                let prior = appended(o0, cp);
                let pass = appended(cp, cq);
                let dseg = appended(cq, self.ops());
                let subt = appended(o0, self.ops());
                assert(subt =~= prior + pass + dseg);
                assert(dseg =~= Seq::<BusOp>::empty().push(BusOp::Delay { ms: 50 }));
                lemma_count_reads_concat(prior, pass, REG_STATUS);
                lemma_count_delays_concat(prior, pass);
                lemma_count_reads_concat(prior + pass, dseg, REG_STATUS);
                lemma_count_delays_concat(prior + pass, dseg);
                lemma_count_reads_push(Seq::<BusOp>::empty(), BusOp::Delay { ms: 50 }, REG_STATUS);
                lemma_count_delays_push(Seq::<BusOp>::empty(), BusOp::Delay { ms: 50 });
            }
            t = t + 1;
        }
        Err(Sths34pf80Error::MeasurementTimeout)
    }

    /// Acquire a measurement, polling until something is ready: the same
    /// shared core, under a bound so large (2^32 - 1 passes of 50 ms each)
    /// that the wait is in practice indefinite.
    pub fn get_measurements(&mut self) -> (r: Result<Measurements, Sths34pf80Error<T::TError>>)
        ensures
            final(self).address == old(self).address,
            extends(old(self).ops(), final(self).ops()),
            r is Err ==> r matches Err(Sths34pf80Error::WriteReadError(_)) || r matches Err(
                Sths34pf80Error::MeasurementTimeout,
            ),
            r matches Err(Sths34pf80Error::MeasurementTimeout) ==> count_reads_of(
                appended(old(self).ops(), final(self).ops()),
                REG_STATUS,
            ) == 0xffff_ffffu32 && count_delays(appended(old(self).ops(), final(self).ops()))
                == 0xffff_ffffu32,
            r matches Ok(m) ==> productive_suffix(appended(old(self).ops(), final(self).ops()), m)
                && (m.presence_value is Some || m.motion_value is Some || m.ambient_shock_value
                is Some),
    {
        self.get_measurements_timeout(0xffff_ffff)
    }
}

/// A trace of two-byte reads holds no one-byte status reads.
proof fn lemma_no_status_reads(s: Seq<BusOp>)
    requires
        forall|i: int| 0 <= i < s.len() ==> !is_read1_of(#[trigger] s[i], REG_STATUS),
    ensures
        count_reads_of(s, REG_STATUS) == 0,
    decreases s.len(),
{
    if s.len() > 0 {
        lemma_no_status_reads(s.drop_last());
    }
}

/// A trace without delay transactions counts none.
proof fn lemma_no_delays(s: Seq<BusOp>)
    requires
        forall|i: int| 0 <= i < s.len() ==> !(#[trigger] s[i] matches BusOp::Delay { .. }),
    ensures
        count_delays(s) == 0,
    decreases s.len(),
{
    if s.len() > 0 {
        lemma_no_delays(s.drop_last());
    }
}

} // verus!
