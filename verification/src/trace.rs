//! Spec-level vocabulary over traces of bus transactions: how a trace grows,
//! which register writes and reads it holds, and the paged-bank access
//! patterns (address-select write followed by a data exchange) that the
//! protocol contracts are stated over.

use vstd::prelude::*;

use crate::bus::BusOp;
use crate::regmap::REG_FUNC_CFG_ADDR;
use crate::regmap::REG_FUNC_CFG_DATA;

verus! {

/// `post` is `pre` with zero or more transactions appended at the end.
pub open spec fn extends(pre: Seq<BusOp>, post: Seq<BusOp>) -> bool {
    pre.len() <= post.len() && post.take(pre.len() as int) == pre
}

/// The transactions that `post` adds beyond `pre`.
pub open spec fn appended(pre: Seq<BusOp>, post: Seq<BusOp>) -> Seq<BusOp> {
    post.skip(pre.len() as int)
}

pub proof fn lemma_extends_refl(s: Seq<BusOp>)
    ensures
        extends(s, s),
        appended(s, s) == Seq::<BusOp>::empty(),
{
    assert(s.take(s.len() as int) =~= s);
    assert(appended(s, s) =~= Seq::<BusOp>::empty());
}

pub proof fn lemma_extends_push(s: Seq<BusOp>, op: BusOp)
    ensures
        extends(s, s.push(op)),
        appended(s, s.push(op)) == seq![op],
{
    assert(s.push(op).take(s.len() as int) =~= s);
    assert(appended(s, s.push(op)) =~= seq![op]);
}

pub proof fn lemma_extends_trans(a: Seq<BusOp>, b: Seq<BusOp>, c: Seq<BusOp>)
    requires
        extends(a, b),
        extends(b, c),
    ensures
        extends(a, c),
        appended(a, c) == appended(a, b) + appended(b, c),
{
    assert(c.take(a.len() as int) =~= a) by {
        assert forall|i: int| 0 <= i < a.len() implies c[i] == a[i] by {
            assert(b.take(a.len() as int)[i] == b[i]);
            assert(c.take(b.len() as int)[i] == c[i]);
        }
    }
    assert(appended(a, c) =~= appended(a, b) + appended(b, c)) by {
        assert forall|i: int| 0 <= i < c.len() - a.len() implies appended(a, c)[i] == (appended(
            a,
            b,
        ) + appended(b, c))[i] by {
            if i < b.len() - a.len() {
                assert(c.take(b.len() as int)[a.len() + i] == c[a.len() + i]);
            }
        }
    }
}

/// The bytes a write transaction sent after the device address.
pub open spec fn write_data(op: BusOp) -> Seq<u8> {
    match op {
        BusOp::Write { data, .. } => data,
        _ => seq![],
    }
}

/// The bytes a write-then-read transaction read back.
pub open spec fn read_data(op: BusOp) -> Seq<u8> {
    match op {
        BusOp::Read { data, .. } => data,
        _ => seq![],
    }
}

/// The transaction writes to register `reg` (its first sent byte selects it).
pub open spec fn is_write_to(op: BusOp, reg: u8) -> bool {
    match op {
        BusOp::Write { data, .. } => data.len() >= 1 && data[0] == reg,
        _ => false,
    }
}

/// A single-register write of `val` to `reg`, addressed to device `dev`.
pub open spec fn wr1(dev: u8, reg: u8, val: u8) -> BusOp {
    BusOp::Write { dev, data: seq![reg, val] }
}

/// A one-byte read of register `reg` that answered `val`, addressed to
/// device `dev`.
pub open spec fn rd1(dev: u8, reg: u8, val: u8) -> BusOp {
    BusOp::Read { dev, sent: seq![reg], data: seq![val] }
}

/// The transaction reads exactly one byte back from register `reg`.
pub open spec fn is_read1_of(op: BusOp, reg: u8) -> bool {
    match op {
        BusOp::Read { sent, data, .. } => sent == seq![reg] && data.len() == 1,
        _ => false,
    }
}

/// The byte a one-byte read returned.
pub open spec fn read1_val(op: BusOp) -> u8 {
    read_data(op)[0]
}

/// Whether the trace holds any write transaction to register `reg`.
pub open spec fn has_write_to(ops: Seq<BusOp>, reg: u8) -> bool
    decreases ops.len(),
{
    ops.len() > 0 && (is_write_to(ops.last(), reg) || has_write_to(ops.drop_last(), reg))
}

/// The data byte of the last single-register write to `reg`, if the trace
/// holds one.
pub open spec fn last_write_byte(ops: Seq<BusOp>, reg: u8) -> Option<u8>
    decreases ops.len(),
{
    if ops.len() == 0 {
        None
    } else if is_write_to(ops.last(), reg) {
        if write_data(ops.last()).len() == 2 {
            Some(write_data(ops.last())[1])
        } else {
            None
        }
    } else {
        last_write_byte(ops.drop_last(), reg)
    }
}

/// Whether the trace holds no write transactions at all.
pub open spec fn no_writes(ops: Seq<BusOp>) -> bool {
    forall|i: int| 0 <= i < ops.len() ==> !(#[trigger] ops[i] matches BusOp::Write { .. })
}

/// An address-select write into the paged bank's gateway.
pub open spec fn is_paged_addr_write(op: BusOp) -> bool {
    is_write_to(op, REG_FUNC_CFG_ADDR) && write_data(op).len() == 2
}

/// A data write into the paged bank's gateway.
pub open spec fn is_paged_data_write(op: BusOp) -> bool {
    is_write_to(op, REG_FUNC_CFG_DATA)
}

/// The paged-bank writes a trace performs: each is an address-select write
/// immediately followed by a data write, and is extracted as the pair of the
/// selected sub-address and the data bytes written through the gateway.
pub open spec fn paged_writes(ops: Seq<BusOp>) -> Seq<(u8, Seq<u8>)>
    decreases ops.len(),
{
    let n = ops.len() as int;
    if n < 2 {
        seq![]
    } else if is_paged_data_write(ops.last()) && is_paged_addr_write(ops[n - 2]) {
        paged_writes(ops.take(n - 2)).push(
            (write_data(ops[n - 2])[1], write_data(ops.last()).skip(1)),
        )
    } else {
        paged_writes(ops.drop_last())
    }
}

/// The paged-bank reads a trace performs: each is an address-select write
/// immediately followed by a one-byte read of the gateway's data register,
/// extracted as the pair of the selected sub-address and the byte read.
pub open spec fn paged_reads(ops: Seq<BusOp>) -> Seq<(u8, u8)>
    decreases ops.len(),
{
    let n = ops.len() as int;
    if n < 2 {
        seq![]
    } else if is_read1_of(ops.last(), REG_FUNC_CFG_DATA) && is_paged_addr_write(ops[n - 2]) {
        paged_reads(ops.take(n - 2)).push((write_data(ops[n - 2])[1], read1_val(ops.last())))
    } else {
        paged_reads(ops.drop_last())
    }
}

/// How many one-byte reads of register `reg` the trace holds.
pub open spec fn count_reads_of(ops: Seq<BusOp>, reg: u8) -> nat
    decreases ops.len(),
{
    if ops.len() == 0 {
        0
    } else {
        count_reads_of(ops.drop_last(), reg) + if is_read1_of(ops.last(), reg) {
            1nat
        } else {
            0nat
        }
    }
}

/// How many delay transactions the trace holds.
pub open spec fn count_delays(ops: Seq<BusOp>) -> nat
    decreases ops.len(),
{
    if ops.len() == 0 {
        0
    } else {
        count_delays(ops.drop_last()) + if ops.last() matches BusOp::Delay { .. } {
            1nat
        } else {
            0nat
        }
    }
}

pub proof fn lemma_push_drop(s: Seq<BusOp>, op: BusOp)
    ensures
        s.push(op).drop_last() == s,
        s.push(op).last() == op,
        s.push(op).len() == s.len() + 1,
{
    assert(s.push(op).drop_last() =~= s);
}

/// Appending one transaction that is not a write to `reg` leaves
/// `last_write_byte` and `has_write_to` unchanged; appending a
/// single-register write to `reg` makes its byte the last one.
pub proof fn lemma_last_write_byte_push(s: Seq<BusOp>, op: BusOp, reg: u8)
    ensures
        !is_write_to(op, reg) ==> last_write_byte(s.push(op), reg) == last_write_byte(s, reg)
            && has_write_to(s.push(op), reg) == has_write_to(s, reg),
        forall|dev: u8, val: u8|
            op == wr1(dev, reg, val) ==> last_write_byte(s.push(op), reg) == Some(val)
                && has_write_to(s.push(op), reg),
{
    lemma_push_drop(s, op);
    assert forall|dev: u8, val: u8| op == wr1(dev, reg, val) implies last_write_byte(
        s.push(op),
        reg,
    ) == Some(val) && has_write_to(s.push(op), reg) by {
        assert(write_data(op) == seq![reg, val]);
        assert(is_write_to(op, reg));
    }
}

/// Appending a transaction that is no data write into the gateway leaves the
/// extracted paged writes unchanged.
pub proof fn lemma_paged_writes_push_other(s: Seq<BusOp>, op: BusOp)
    requires
        !is_paged_data_write(op),
    ensures
        paged_writes(s.push(op)) == paged_writes(s),
{
    lemma_push_drop(s, op);
    if s.len() == 0 {
        assert(paged_writes(s.push(op)) =~= paged_writes(s));
    }
}

/// Appending an address-select write immediately followed by a data write
/// appends exactly one extracted paged write.
pub proof fn lemma_paged_writes_push_pair(s: Seq<BusOp>, dev: u8, sub: u8, data: Seq<u8>)
    ensures
        paged_writes(
            s.push(wr1(dev, REG_FUNC_CFG_ADDR, sub)).push(
                BusOp::Write { dev, data: seq![REG_FUNC_CFG_DATA] + data },
            ),
        ) == paged_writes(s).push((sub, data)),
{
    let wa = wr1(dev, REG_FUNC_CFG_ADDR, sub);
    let wd = BusOp::Write { dev, data: seq![REG_FUNC_CFG_DATA] + data };
    let t = s.push(wa).push(wd);
    assert((seq![REG_FUNC_CFG_DATA] + data)[0] == REG_FUNC_CFG_DATA);
    assert(is_paged_data_write(wd));
    assert(is_paged_addr_write(wa));
    assert(t[t.len() - 2] == wa);
    assert(t.last() == wd);
    assert(t.take(t.len() - 2) =~= s);
    assert(write_data(wd).skip(1) =~= data);
}

/// Appending a transaction that is no one-byte read of the gateway's data
/// register leaves the extracted paged reads unchanged.
pub proof fn lemma_paged_reads_push_other(s: Seq<BusOp>, op: BusOp)
    requires
        !is_read1_of(op, REG_FUNC_CFG_DATA),
    ensures
        paged_reads(s.push(op)) == paged_reads(s),
{
    lemma_push_drop(s, op);
    if s.len() == 0 {
        assert(paged_reads(s.push(op)) =~= paged_reads(s));
    }
}

/// Appending an address-select write immediately followed by a one-byte read
/// of the data register appends exactly one extracted paged read.
pub proof fn lemma_paged_reads_push_pair(s: Seq<BusOp>, dev: u8, sub: u8, val: u8)
    ensures
        paged_reads(
            s.push(wr1(dev, REG_FUNC_CFG_ADDR, sub)).push(rd1(dev, REG_FUNC_CFG_DATA, val)),
        ) == paged_reads(s).push((sub, val)),
        paged_writes(
            s.push(wr1(dev, REG_FUNC_CFG_ADDR, sub)).push(rd1(dev, REG_FUNC_CFG_DATA, val)),
        ) == paged_writes(s),
{
    let wa = wr1(dev, REG_FUNC_CFG_ADDR, sub);
    let rdop = rd1(dev, REG_FUNC_CFG_DATA, val);
    let t = s.push(wa).push(rdop);
    assert(is_paged_addr_write(wa));
    assert(is_read1_of(rdop, REG_FUNC_CFG_DATA));
    assert(t[t.len() - 2] == wa);
    assert(t.last() == rdop);
    assert(t.take(t.len() - 2) =~= s);
    lemma_paged_writes_push_other(s, wa);
    lemma_paged_writes_push_other(s.push(wa), rdop);
}

/// A one-byte read of one register is no one-byte read of another.
pub proof fn lemma_rd1_not_of(dev: u8, reg: u8, val: u8, other: u8)
    requires
        reg != other,
    ensures
        !is_read1_of(rd1(dev, reg, val), other),
{
    assert(seq![reg][0] == reg);
    if is_read1_of(rd1(dev, reg, val), other) {
        assert(seq![reg] == seq![other]);
        assert(seq![reg][0] == seq![other][0]);
    }
}

/// Appending a one-byte read of any register other than the gateway's data
/// register changes neither extraction.
pub proof fn lemma_read_step(s: Seq<BusOp>, dev: u8, reg: u8, val: u8)
    requires
        reg != REG_FUNC_CFG_DATA,
    ensures
        paged_reads(s.push(rd1(dev, reg, val))) == paged_reads(s),
        paged_writes(s.push(rd1(dev, reg, val))) == paged_writes(s),
{
    let op = rd1(dev, reg, val);
    assert(seq![reg][0] == reg);
    if is_read1_of(op, REG_FUNC_CFG_DATA) {
        assert(seq![reg] == seq![REG_FUNC_CFG_DATA]);
        assert(seq![reg][0] == seq![REG_FUNC_CFG_DATA][0]);
        assert(false);
    }
    lemma_paged_reads_push_other(s, op);
    lemma_paged_writes_push_other(s, op);
}

/// Appending a write whose target register is not the gateway's data
/// register changes neither extraction.
pub proof fn lemma_write_step(s: Seq<BusOp>, dev: u8, reg: u8, val: u8)
    requires
        reg != REG_FUNC_CFG_DATA,
    ensures
        paged_reads(s.push(wr1(dev, reg, val))) == paged_reads(s),
        paged_writes(s.push(wr1(dev, reg, val))) == paged_writes(s),
{
    let op = wr1(dev, reg, val);
    assert(write_data(op)[0] == reg);
    lemma_paged_reads_push_other(s, op);
    lemma_paged_writes_push_other(s, op);
}

/// How a pushed transaction changes the read counter for a register.
pub proof fn lemma_count_reads_push(s: Seq<BusOp>, op: BusOp, reg: u8)
    ensures
        count_reads_of(s.push(op), reg) == count_reads_of(s, reg) + if is_read1_of(op, reg) {
            1nat
        } else {
            0nat
        },
{
    lemma_push_drop(s, op);
}

/// How a pushed transaction changes the delay counter.
pub proof fn lemma_count_delays_push(s: Seq<BusOp>, op: BusOp)
    ensures
        count_delays(s.push(op)) == count_delays(s) + if op matches BusOp::Delay { .. } {
            1nat
        } else {
            0nat
        },
{
    lemma_push_drop(s, op);
}

/// Extracted paged writes distribute over a concatenation whose boundary
/// does not split an address-select/data pair.
pub proof fn lemma_paged_writes_concat(x: Seq<BusOp>, y: Seq<BusOp>)
    requires
        y.len() == 0 || !is_paged_data_write(y[0]),
    ensures
        paged_writes(x + y) == paged_writes(x) + paged_writes(y),
    decreases y.len(),
{
    if y.len() == 0 {
        assert(x + y =~= x);
        assert(paged_writes(x) + paged_writes(y) =~= paged_writes(x));
    } else {
        let t = x + y;
        let n = t.len() as int;
        assert(t.last() == y.last());
        if y.len() == 1 {
            assert(t.drop_last() =~= x);
            lemma_paged_writes_push_other(x, y[0]);
            assert(x.push(y[0]) =~= t);
            assert(paged_writes(y) =~= Seq::<(u8, Seq<u8>)>::empty());
            assert(paged_writes(x) + paged_writes(y) =~= paged_writes(x));
        } else {
            let m = y.len() as int;
            if is_paged_data_write(y.last()) && is_paged_addr_write(y[m - 2]) {
                assert(t[n - 2] == y[m - 2]);
                assert(t.take(n - 2) =~= x + y.take(m - 2));
                lemma_paged_writes_concat(x, y.take(m - 2));
                assert(paged_writes(x) + paged_writes(y) =~= (paged_writes(x) + paged_writes(
                    y.take(m - 2),
                )).push((write_data(y[m - 2])[1], write_data(y.last()).skip(1))));
            } else {
                assert(t.drop_last() =~= x + y.drop_last());
                lemma_paged_writes_concat(x, y.drop_last());
                if is_paged_data_write(t.last()) && is_paged_addr_write(t[n - 2]) {
                    assert(t[n - 2] == y[m - 2]);
                    assert(false);
                }
            }
        }
    }
}

/// Extracted paged reads distribute over a concatenation whose boundary does
/// not split an address-select/read pair.
pub proof fn lemma_paged_reads_concat(x: Seq<BusOp>, y: Seq<BusOp>)
    requires
        y.len() == 0 || !is_read1_of(y[0], REG_FUNC_CFG_DATA),
    ensures
        paged_reads(x + y) == paged_reads(x) + paged_reads(y),
    decreases y.len(),
{
    if y.len() == 0 {
        assert(x + y =~= x);
        assert(paged_reads(x) + paged_reads(y) =~= paged_reads(x));
    } else {
        let t = x + y;
        let n = t.len() as int;
        assert(t.last() == y.last());
        if y.len() == 1 {
            assert(t.drop_last() =~= x);
            lemma_paged_reads_push_other(x, y[0]);
            assert(x.push(y[0]) =~= t);
            assert(paged_reads(y) =~= Seq::<(u8, u8)>::empty());
            assert(paged_reads(x) + paged_reads(y) =~= paged_reads(x));
        } else {
            let m = y.len() as int;
            if is_read1_of(y.last(), REG_FUNC_CFG_DATA) && is_paged_addr_write(y[m - 2]) {
                assert(t[n - 2] == y[m - 2]);
                assert(t.take(n - 2) =~= x + y.take(m - 2));
                lemma_paged_reads_concat(x, y.take(m - 2));
                assert(paged_reads(x) + paged_reads(y) =~= (paged_reads(x) + paged_reads(
                    y.take(m - 2),
                )).push((write_data(y[m - 2])[1], read1_val(y.last()))));
            } else {
                assert(t.drop_last() =~= x + y.drop_last());
                lemma_paged_reads_concat(x, y.drop_last());
                if is_read1_of(t.last(), REG_FUNC_CFG_DATA) && is_paged_addr_write(t[n - 2]) {
                    assert(t[n - 2] == y[m - 2]);
                    assert(false);
                }
            }
        }
    }
}

/// The read counter distributes over concatenation.
pub proof fn lemma_count_reads_concat(x: Seq<BusOp>, y: Seq<BusOp>, reg: u8)
    ensures
        count_reads_of(x + y, reg) == count_reads_of(x, reg) + count_reads_of(y, reg),
    decreases y.len(),
{
    if y.len() == 0 {
        assert(x + y =~= x);
    } else {
        assert((x + y).drop_last() =~= x + y.drop_last());
        assert((x + y).last() == y.last());
        lemma_count_reads_concat(x, y.drop_last(), reg);
    }
}

/// The delay counter distributes over concatenation.
pub proof fn lemma_count_delays_concat(x: Seq<BusOp>, y: Seq<BusOp>)
    ensures
        count_delays(x + y) == count_delays(x) + count_delays(y),
    decreases y.len(),
{
    if y.len() == 0 {
        assert(x + y =~= x);
    } else {
        assert((x + y).drop_last() =~= x + y.drop_last());
        assert((x + y).last() == y.last());
        lemma_count_delays_concat(x, y.drop_last());
    }
}

/// `last_write_byte` over a concatenation comes from the right part when the
/// right part holds a write to `reg`, and from the left part otherwise.
pub proof fn lemma_last_write_byte_concat(a: Seq<BusOp>, b: Seq<BusOp>, reg: u8)
    ensures
        last_write_byte(a + b, reg) == if has_write_to(b, reg) {
            last_write_byte(b, reg)
        } else {
            last_write_byte(a, reg)
        },
        has_write_to(a + b, reg) == (has_write_to(a, reg) || has_write_to(b, reg)),
    decreases b.len(),
{
    if b.len() == 0 {
        assert(a + b =~= a);
    } else {
        let ab = a + b;
        assert(ab.drop_last() =~= a + b.drop_last());
        assert(ab.last() == b.last());
        lemma_last_write_byte_concat(a, b.drop_last(), reg);
        assert(b.drop_last().push(b.last()) =~= b);
        lemma_push_drop(b.drop_last(), b.last());
    }
}

} // verus!
