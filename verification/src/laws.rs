//! Laws relating the driver's operations to one another, proved from the
//! same spec functions the operations' own contracts use.

use vstd::arithmetic::div_mod::lemma_fundamental_div_mod;
use vstd::prelude::*;

use crate::bus::BusOp;
use crate::data::AverageTrimTMOSFlag;
use crate::data::ThresholdKind;
use crate::data::max_odr_for;
use crate::data::odr_code;
use crate::data::ths_addr;
use crate::data::tmos_trim_code;
use crate::driver::threshold_bytes;
use crate::driver::u16_le;
use crate::regmap::EMB_RESET_ALGO;
use crate::regmap::RESET_ALGO_CMD;
use crate::trace::paged_reads;
use crate::trace::paged_writes;

verus! {

/// The two little-endian bytes a threshold is stored as decode back to
/// exactly the value they encode.
pub proof fn lemma_threshold_bytes_value(v: u16)
    ensures
        u16_le(threshold_bytes(v)[0], threshold_bytes(v)[1]) == v,
{
    lemma_fundamental_div_mod(v as int, 256);
}

/// Threshold round trip: take a trace segment in which `set_threshold`
/// succeeded for `v` (its contract pins the paged writes) and a later
/// segment in which `get_threshold` of the same kind succeeded and
/// answered `r` (its contract pins `r` to the bytes the paged reads
/// returned). If the bank echoes — each byte read back equals the byte the
/// write placed at that sub-address — then `r` is `v` exactly.
pub proof fn lemma_threshold_round_trip(
    kind: ThresholdKind,
    v: u16,
    sub1: Seq<BusOp>,
    sub2: Seq<BusOp>,
    r: u16,
)
    requires
        v <= 0x7fff,
        paged_writes(sub1) == seq![
            (ths_addr(kind), threshold_bytes(v)),
            (EMB_RESET_ALGO, seq![RESET_ALGO_CMD]),
        ],
        paged_reads(sub2).len() == 2,
        paged_reads(sub2)[0].0 == ths_addr(kind),
        paged_reads(sub2)[1].0 == ths_addr(kind) + 1,
        r == u16_le(paged_reads(sub2)[0].1, paged_reads(sub2)[1].1),
        paged_reads(sub2)[0].1 == paged_writes(sub1)[0].1[0],
        paged_reads(sub2)[1].1 == paged_writes(sub1)[0].1[1],
    ensures
        r == v,
{
    lemma_threshold_bytes_value(v);
}

/// The limit table is monotone: a wider averaging window never permits a
/// faster output data rate than a narrower one.
pub proof fn lemma_max_odr_monotone(a: AverageTrimTMOSFlag, b: AverageTrimTMOSFlag)
    requires
        tmos_trim_code(a) <= tmos_trim_code(b),
    ensures
        odr_code(max_odr_for(b)) <= odr_code(max_odr_for(a)),
{
}

} // verus!
