//! A deterministic in-memory transport: a simulated register bank that
//! echoes writes, models the paged-bank gateway (address-select register,
//! auto-increment on paged writes but not on paged reads), and the latched
//! function-status flags that clear on read.
//!
//! The simulation satisfies the `Transport` contract by proof, not by
//! assumption: its transaction log is the ghost trace. Beyond the trait's
//! contract, each method also states the register-bank model itself — what
//! every write leaves in the banks ([`sim_write_fold`]) and what every read
//! answers and clears ([`sim_read_fold`]) — so the simulated device's
//! behaviour is specification, not just exercised code.

use vstd::prelude::*;

use crate::bus::BusOp;
use crate::bus::Transport;

verus! {

/// One recorded transaction of the simulated bus, inspectable by callers.
#[derive(Debug, Clone, PartialEq)]
pub enum SimOp {
    /// A write transaction and every byte it sent after the device address.
    Write { dev: u8, data: Vec<u8> },
    /// A write-then-read transaction: the bytes sent, then the bytes read.
    Read { dev: u8, sent: Vec<u8>, data: Vec<u8> },
    /// A requested blocking delay.
    Delay { ms: u32 },
}

/// The ghost transaction a recorded one stands for.
pub open spec fn op_view(e: SimOp) -> BusOp {
    match e {
        SimOp::Write { dev, data } => BusOp::Write { dev, data: data@ },
        SimOp::Read { dev, sent, data } => BusOp::Read { dev, sent: sent@, data: data@ },
        SimOp::Delay { ms } => BusOp::Delay { ms },
    }
}

/// The ghost trace a recorded log stands for.
pub open spec fn log_view(l: Seq<SimOp>) -> Seq<BusOp>
    decreases l.len(),
{
    if l.len() == 0 {
        seq![]
    } else {
        log_view(l.drop_last()).push(op_view(l.last()))
    }
}

pub proof fn lemma_log_view_push(l: Seq<SimOp>, e: SimOp)
    ensures
        log_view(l.push(e)) == log_view(l).push(op_view(e)),
{
    assert(l.push(e).drop_last() =~= l);
}

/// The simulated device's architectural state while a write transaction is
/// in flight: main registers, paged bank, gateway pointer, and the current
/// target register.
pub struct SimState {
    /// The main register bank.
    pub regs: Seq<u8>,
    /// The paged function-configuration bank.
    pub bank: Seq<u8>,
    /// The gateway's sub-address pointer.
    pub ptr: u8,
    /// The register the next data byte lands in.
    pub cur: u8,
}

/// The register address after `x`, with the device's address counter
/// wrapping around.
pub open spec fn wrap_inc(x: u8) -> u8 {
    if x == 255 {
        0
    } else {
        (x + 1) as u8
    }
}

/// One data byte applied to the simulated device: it lands in the paged
/// bank (advancing the gateway pointer) when the access window is open, the
/// write sub-mode is selected and the target is the data register;
/// otherwise it lands in the main bank at the current target, which
/// auto-increments, and a write to the address-select register also moves
/// the gateway pointer.
pub open spec fn sim_write_step(s: SimState, b: u8) -> SimState {
    if s.regs[0x21] & 0x10 != 0 && s.regs[0x11] & 0x40 != 0 && s.cur == 0x09 {
        SimState { regs: s.regs, bank: s.bank.update(s.ptr as int, b), ptr: wrap_inc(s.ptr), cur: s.cur }
    } else if s.cur == 0x08 {
        SimState { regs: s.regs.update(s.cur as int, b), bank: s.bank, ptr: b, cur: wrap_inc(s.cur) }
    } else {
        SimState { regs: s.regs.update(s.cur as int, b), bank: s.bank, ptr: s.ptr, cur: wrap_inc(s.cur) }
    }
}

/// A write transaction's data bytes applied in order.
pub open spec fn sim_write_fold(s: SimState, data: Seq<u8>) -> SimState
    decreases data.len(),
{
    if data.len() == 0 {
        s
    } else {
        sim_write_fold(sim_write_step(s, data[0]), data.skip(1))
    }
}

pub proof fn lemma_sim_write_fold_snoc(s: SimState, data: Seq<u8>, b: u8)
    ensures
        sim_write_fold(s, data.push(b)) == sim_write_step(sim_write_fold(s, data), b),
    decreases data.len(),
{
    reveal_with_fuel(sim_write_fold, 3);
    if data.len() == 0 {
        assert(data.push(b).skip(1) =~= Seq::<u8>::empty());
        assert(data.push(b)[0] == b);
    } else {
        assert(data.push(b).skip(1) =~= data.skip(1).push(b));
        assert(data.push(b)[0] == data[0]);
        lemma_sim_write_fold_snoc(sim_write_step(s, data[0]), data.skip(1), b);
    }
}

/// What one step of a read transaction answers and leaves behind.
pub struct SimReadOut {
    /// The main register bank after the step (latched flags may clear).
    pub regs: Seq<u8>,
    /// The bytes answered so far.
    pub out: Seq<u8>,
    /// The register the next byte would come from.
    pub cur: u8,
}

/// One byte of a read transaction: it comes from the paged bank without
/// advancing the gateway pointer when the access window is open, the read
/// sub-mode is selected and the target is the data register; otherwise from
/// the main bank at the current target, which auto-increments, with a read
/// of the function-status register clearing its latched flags.
pub open spec fn sim_read_step(regs: Seq<u8>, bank: Seq<u8>, ptr: u8, cur: u8) -> SimReadOut {
    if regs[0x21] & 0x10 != 0 && regs[0x11] & 0x20 != 0 && cur == 0x09 {
        SimReadOut { regs, out: seq![bank[ptr as int]], cur }
    } else {
        SimReadOut {
            regs: if cur == 0x25 {
                regs.update(cur as int, 0u8)
            } else {
                regs
            },
            out: seq![regs[cur as int]],
            cur: wrap_inc(cur),
        }
    }
}

/// A read transaction of `n` bytes, step by step.
pub open spec fn sim_read_fold(regs: Seq<u8>, bank: Seq<u8>, ptr: u8, cur: u8, n: nat) -> SimReadOut
    decreases n,
{
    if n == 0 {
        SimReadOut { regs, out: seq![], cur }
    } else {
        let h = sim_read_step(regs, bank, ptr, cur);
        let t = sim_read_fold(h.regs, bank, ptr, h.cur, (n - 1) as nat);
        SimReadOut { regs: t.regs, out: h.out + t.out, cur: t.cur }
    }
}

pub proof fn lemma_sim_read_fold_snoc(regs: Seq<u8>, bank: Seq<u8>, ptr: u8, cur: u8, n: nat)
    ensures
        ({
            let f = sim_read_fold(regs, bank, ptr, cur, n);
            let h = sim_read_step(f.regs, bank, ptr, f.cur);
            sim_read_fold(regs, bank, ptr, cur, n + 1) == (SimReadOut {
                regs: h.regs,
                out: f.out + h.out,
                cur: h.cur,
            })
        }),
    decreases n,
{
    reveal_with_fuel(sim_read_fold, 3);
    let f = sim_read_fold(regs, bank, ptr, cur, n);
    let h = sim_read_step(f.regs, bank, ptr, f.cur);
    if n == 0 {
        let h0 = sim_read_step(regs, bank, ptr, cur);
        assert(sim_read_fold(regs, bank, ptr, cur, 1).out =~= h0.out);
        assert((f.out + h.out) =~= h0.out);
    } else {
        let h0 = sim_read_step(regs, bank, ptr, cur);
        lemma_sim_read_fold_snoc(h0.regs, bank, ptr, h0.cur, (n - 1) as nat);
        let fi = sim_read_fold(h0.regs, bank, ptr, h0.cur, (n - 1) as nat);
        let hi = sim_read_step(fi.regs, bank, ptr, fi.cur);
        assert(sim_read_fold(regs, bank, ptr, cur, n + 1).out =~= h0.out + (fi.out + hi.out));
        assert(f.out + h.out =~= h0.out + (fi.out + hi.out));
    }
}

/// The simulated bus: 256 main registers, a 256-byte paged bank behind the
/// gateway, and a log of every transaction. All fields are public so a test
/// can preset registers and inspect the traffic.
pub struct SimBus {
    /// The main register bank.
    pub regs: Vec<u8>,
    /// The paged function-configuration bank.
    pub bank: Vec<u8>,
    /// The gateway's current sub-address pointer.
    pub page_ptr: u8,
    /// Every transaction completed so far.
    pub log: Vec<SimOp>,
    /// When set, every bus transaction fails.
    pub fail: bool,
}

impl SimBus {
    /// A fresh bus: all registers zero, empty log.
    pub fn new() -> (r: SimBus)
        ensures
            r.regs@ == Seq::new(256, |i: int| 0u8),
            r.bank@ == Seq::new(256, |i: int| 0u8),
            r.page_ptr == 0,
            r.log@ == Seq::<SimOp>::empty(),
            r.ops() == Seq::<BusOp>::empty(),
            !r.fail,
    {
        let mut regs: Vec<u8> = Vec::new();
        let mut bank: Vec<u8> = Vec::new();
        let mut i: usize = 0;
        while i < 256
            invariant
                i <= 256,
                regs@ =~= Seq::new(i as nat, |j: int| 0u8),
                bank@ =~= Seq::new(i as nat, |j: int| 0u8),
            decreases 256 - i,
        {
            regs.push(0);
            bank.push(0);
            i += 1;
            proof {
                assert(regs@ =~= Seq::new(i as nat, |j: int| 0u8));
                assert(bank@ =~= Seq::new(i as nat, |j: int| 0u8));
            }
        }
        let r = SimBus { regs, bank, page_ptr: 0, log: Vec::new(), fail: false };
        proof {
            assert(r.ops() =~= Seq::<BusOp>::empty());
        }
        r
    }

    /// Preset one main register (for arranging a scenario).
    pub fn set_reg(&mut self, reg: u8, v: u8)
        ensures
            final(self).ops() == old(self).ops(),
            old(self).regs.len() == 256 ==> final(self).regs@ == old(self).regs@.update(
                reg as int,
                v,
            ),
    {
        if self.regs.len() == 256 {
            let i = reg as usize;
            self.regs[i] = v;
        }
    }

    /// Read one main register back (for checking a scenario).
    pub fn get_reg(&self, reg: u8) -> (r: u8)
        ensures
            self.regs.len() == 256 ==> r == self.regs@[reg as int],
    {
        if self.regs.len() == 256 {
            self.regs[reg as usize]
        } else {
            0
        }
    }

    /// Preset one byte of the paged bank.
    pub fn set_bank(&mut self, sub: u8, v: u8)
        ensures
            final(self).ops() == old(self).ops(),
            old(self).bank.len() == 256 ==> final(self).bank@ == old(self).bank@.update(
                sub as int,
                v,
            ),
    {
        if self.bank.len() == 256 {
            let i = sub as usize;
            self.bank[i] = v;
        }
    }

    /// Read one byte of the paged bank back.
    pub fn get_bank(&self, sub: u8) -> (r: u8)
        ensures
            self.bank.len() == 256 ==> r == self.bank@[sub as int],
    {
        if self.bank.len() == 256 {
            self.bank[sub as usize]
        } else {
            0
        }
    }
}

impl Transport for SimBus {
    type TError = u8;

    open spec fn ops(&self) -> Seq<BusOp> {
        log_view(self.log@)
    }

    fn write(&mut self, dev: u8, bytes: &Vec<u8>) -> (r: Result<(), u8>)
        ensures
            r is Ok <==> !old(self).fail && old(self).regs.len() == 256 && old(self).bank.len()
                == 256 && bytes.len() >= 1,
            final(self).fail == old(self).fail,
            r is Err ==> final(self).regs@ == old(self).regs@ && final(self).bank@ == old(
                self,
            ).bank@ && final(self).page_ptr == old(self).page_ptr,
            r is Ok ==> ({
                let s1 = sim_write_fold(
                    (SimState {
                        regs: old(self).regs@,
                        bank: old(self).bank@,
                        ptr: old(self).page_ptr,
                        cur: bytes@[0],
                    }),
                    bytes@.skip(1),
                );
                &&& final(self).regs@ == s1.regs
                &&& final(self).bank@ == s1.bank
                &&& final(self).page_ptr == s1.ptr
            }),
    {
        if self.fail || self.regs.len() != 256 || self.bank.len() != 256 || bytes.len() == 0 {
            return Err(1u8);
        }
        let ghost s0 = SimState {
            regs: self.regs@,
            bank: self.bank@,
            ptr: self.page_ptr,
            cur: bytes@[0],
        };
        let mut cur: u8 = bytes[0];
        let mut i: usize = 1;
        proof {
            assert(bytes@.subrange(1, 1) =~= Seq::<u8>::empty());
        }
        while i < bytes.len()
            invariant
                1 <= i <= bytes.len(),
                self.regs.len() == 256,
                self.bank.len() == 256,
                self.log@ == old(self).log@,
                self.fail == old(self).fail,
                s0 == (SimState {
                    regs: old(self).regs@,
                    bank: old(self).bank@,
                    ptr: old(self).page_ptr,
                    cur: bytes@[0],
                }),
                ({
                    let s1 = sim_write_fold(s0, bytes@.subrange(1, i as int));
                    &&& self.regs@ == s1.regs
                    &&& self.bank@ == s1.bank
                    &&& self.page_ptr == s1.ptr
                    &&& cur == s1.cur
                }),
            decreases bytes.len() - i,
        {
            let b = bytes[i];
            let ghost pre = sim_write_fold(s0, bytes@.subrange(1, i as int));
            let access = self.regs[0x21] & 0x10 != 0;
            let wmode = self.regs[0x11] & 0x40 != 0;
            if access && wmode && cur == 0x09 {
                let p = self.page_ptr as usize;
                self.bank[p] = b;
                self.page_ptr = if self.page_ptr == 255 {
                    0
                } else {
                    self.page_ptr + 1
                };
            } else {
                if cur == 0x08 {
                    self.page_ptr = b;
                }
                let c = cur as usize;
                self.regs[c] = b;
                cur = if cur == 255 {
                    0
                } else {
                    cur + 1
                };
            }
            i += 1;
            proof {
                assert(bytes@.subrange(1, i as int) =~= bytes@.subrange(1, i - 1).push(b));
                lemma_sim_write_fold_snoc(s0, bytes@.subrange(1, i - 1), b);
                assert(self.regs@ =~= sim_write_step(pre, b).regs);
                assert(self.bank@ =~= sim_write_step(pre, b).bank);
            }
        }
        proof {
            assert(bytes@.subrange(1, bytes@.len() as int) =~= bytes@.skip(1));
        }
        let e = SimOp::Write { dev, data: bytes.clone() };
        proof {
            lemma_log_view_push(self.log@, e);
        }
        self.log.push(e);
        Ok(())
    }

    fn write_then_read(&mut self, dev: u8, sent: &Vec<u8>, n: usize) -> (r: Result<Vec<u8>, u8>)
        ensures
            r is Ok <==> !old(self).fail && old(self).regs.len() == 256 && old(self).bank.len()
                == 256 && sent.len() == 1,
            final(self).fail == old(self).fail,
            final(self).bank@ == old(self).bank@,
            final(self).page_ptr == old(self).page_ptr,
            r is Err ==> final(self).regs@ == old(self).regs@,
            r matches Ok(v) ==> ({
                let f = sim_read_fold(
                    old(self).regs@,
                    old(self).bank@,
                    old(self).page_ptr,
                    sent@[0],
                    n as nat,
                );
                &&& v@ == f.out
                &&& final(self).regs@ == f.regs
            }),
    {
        if self.fail || self.regs.len() != 256 || self.bank.len() != 256 || sent.len() != 1 {
            return Err(1u8);
        }
        let ghost r0 = self.regs@;
        let ghost b0 = self.bank@;
        let ghost p0 = self.page_ptr;
        let ghost c0 = sent@[0];
        let mut out: Vec<u8> = Vec::new();
        let mut cur: u8 = sent[0];
        let mut i: usize = 0;
        while i < n
            invariant
                i <= n,
                out.len() == i,
                self.regs.len() == 256,
                self.bank.len() == 256,
                self.log@ == old(self).log@,
                self.fail == old(self).fail,
                self.bank@ == b0,
                self.page_ptr == p0,
                r0 == old(self).regs@,
                b0 == old(self).bank@,
                p0 == old(self).page_ptr,
                c0 == sent@[0],
                ({
                    let f = sim_read_fold(r0, b0, p0, c0, i as nat);
                    &&& self.regs@ == f.regs
                    &&& out@ == f.out
                    &&& cur == f.cur
                }),
            decreases n - i,
        {
            let ghost f = sim_read_fold(r0, b0, p0, c0, i as nat);
            let access = self.regs[0x21] & 0x10 != 0;
            let rmode = self.regs[0x11] & 0x20 != 0;
            if access && rmode && cur == 0x09 {
                // Auto-increment does not work for paged reads: the pointer
                // stays where the address-select write put it.
                let p = self.page_ptr as usize;
                out.push(self.bank[p]);
            } else {
                let c = cur as usize;
                let v = self.regs[c];
                if cur == 0x25 {
                    // The latched ready flags clear as a side effect of the
                    // status read.
                    self.regs[c] = 0;
                }
                out.push(v);
                cur = if cur == 255 {
                    0
                } else {
                    cur + 1
                };
            }
            i += 1;
            proof {
                lemma_sim_read_fold_snoc(r0, b0, p0, c0, (i - 1) as nat);
                let h = sim_read_step(f.regs, b0, p0, f.cur);
                assert(out@ =~= f.out + h.out);
                assert(self.regs@ =~= h.regs);
            }
        }
        let e = SimOp::Read { dev, sent: sent.clone(), data: out.clone() };
        proof {
            lemma_log_view_push(self.log@, e);
        }
        self.log.push(e);
        Ok(out)
    }

    fn delay_ms(&mut self, ms: u32)
        ensures
            final(self).regs@ == old(self).regs@,
            final(self).bank@ == old(self).bank@,
            final(self).page_ptr == old(self).page_ptr,
            final(self).fail == old(self).fail,
    {
        let e = SimOp::Delay { ms };
        proof {
            lemma_log_view_push(self.log@, e);
        }
        self.log.push(e);
    }
}

} // verus!
