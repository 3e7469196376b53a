//! Mathematical model of a write plan: how a window splits into
//! comparison units, which units are rewritten, and what applying the
//! resulting writes does to a destination.
use vstd::prelude::*;

verus! {

pub open spec fn min(a: int, b: int) -> int {
    if a <= b {
        a
    } else {
        b
    }
}

/// Number of units that `[0, limit)` splits into when each unit is `unit`
/// bytes long (the last one possibly shorter).
pub open spec fn chunk_count(limit: int, unit: int) -> int {
    if limit <= 0 {
        0
    } else {
        (limit - 1) / unit + 1
    }
}

/// First byte of unit `k`.
pub open spec fn chunk_start(k: int, unit: int) -> int {
    k * unit
}

/// One past the last byte of unit `k`, truncated to the compared length.
pub open spec fn chunk_end(k: int, unit: int, limit: int) -> int {
    min(k * unit + unit, limit)
}

/// Whether unit `k` holds different bytes in `src` and `dst`.
pub open spec fn chunk_differs(src: Seq<u8>, dst: Seq<u8>, limit: int, unit: int, k: int) -> bool {
    src.subrange(chunk_start(k, unit), chunk_end(k, unit, limit)) != dst.subrange(
        chunk_start(k, unit),
        chunk_end(k, unit, limit),
    )
}

/// One write of a plan: bytes `[start, end)` of the compacted data go to
/// absolute position `dest`.
pub struct BlockModel {
    pub start: int,
    pub end: int,
    pub dest: int,
}

/// A plan: the compacted bytes and the ordered writes that place them.
pub struct PlanModel {
    pub data: Seq<u8>,
    pub blocks: Seq<BlockModel>,
}

pub open spec fn empty_plan() -> PlanModel {
    PlanModel { data: Seq::empty(), blocks: Seq::empty() }
}

/// The plan built from the first `k` units of a window at `offset`.
pub open spec fn plan_upto(
    src: Seq<u8>,
    dst: Seq<u8>,
    limit: int,
    unit: int,
    offset: int,
    k: int,
) -> PlanModel
    decreases k,
{
    if k <= 0 {
        empty_plan()
    } else {
        let p = plan_upto(src, dst, limit, unit, offset, k - 1);
        let s = chunk_start(k - 1, unit);
        let e = chunk_end(k - 1, unit, limit);
        if chunk_differs(src, dst, limit, unit, k - 1) {
            PlanModel {
                data: p.data + src.subrange(s, e),
                blocks: p.blocks.push(
                    BlockModel { start: p.data.len() as int, end: p.data.len() + (e - s), dest: offset + s },
                ),
            }
        } else {
            p
        }
    }
}

/// The plan for comparing the first `limit` bytes of `src` against `dst`,
/// unit by unit, for a window that starts at absolute position `offset`.
pub open spec fn diff_plan(src: Seq<u8>, dst: Seq<u8>, limit: int, unit: int, offset: int) -> PlanModel {
    plan_upto(src, dst, limit, unit, offset, chunk_count(limit, unit))
}

/// The blocks cut the data into consecutive, non-empty pieces that cover it
/// exactly.
pub open spec fn partitions_data(p: PlanModel) -> bool {
    &&& p.blocks.len() == 0 ==> p.data.len() == 0
    &&& p.blocks.len() > 0 ==> p.blocks[0].start == 0 && p.blocks.last().end == p.data.len()
    &&& forall|i: int|
        0 <= i < p.blocks.len() ==> 0 <= #[trigger] p.blocks[i].start < p.blocks[i].end
            <= p.data.len()
    &&& forall|i: int|
        0 <= i < p.blocks.len() - 1 ==> #[trigger] p.blocks[i].end == p.blocks[i + 1].start
}

/// `s` with `bytes` written over it from position `at`.
pub open spec fn update_bytes(s: Seq<u8>, at: int, bytes: Seq<u8>) -> Seq<u8> {
    Seq::new(s.len(), |i: int| if at <= i < at + bytes.len() { bytes[i - at] } else { s[i] })
}

/// `file` after the first `n` writes of `p`.
pub open spec fn apply_blocks(file: Seq<u8>, p: PlanModel, n: int) -> Seq<u8>
    decreases n,
{
    if n <= 0 {
        file
    } else {
        let b = p.blocks[n - 1];
        update_bytes(apply_blocks(file, p, n - 1), b.dest, p.data.subrange(b.start, b.end))
    }
}

/// `file` after every write of `p`, in order.
pub open spec fn apply_plan(file: Seq<u8>, p: PlanModel) -> Seq<u8> {
    apply_blocks(file, p, p.blocks.len() as int)
}

/// Every write of `p` lies inside a destination of `len` bytes.
pub open spec fn fits_in(p: PlanModel, len: int) -> bool {
    forall|i: int|
        0 <= i < p.blocks.len() ==> 0 <= #[trigger] p.blocks[i].dest && p.blocks[i].dest
            + (p.blocks[i].end - p.blocks[i].start) <= len
}

/// The plans of a whole run, one per window of `window` bytes, from position
/// `pos` to the end; each window of `dst` is read before any write.
pub open spec fn run_plans(src: Seq<u8>, dst: Seq<u8>, window: int, unit: int, pos: int) -> Seq<
    PlanModel,
>
    decreases src.len() - pos,
{
    if pos < 0 || pos >= src.len() || window <= 0 || dst.len() != src.len() {
        Seq::empty()
    } else {
        let e = min(pos + window, src.len() as int);
        let here = diff_plan(src.subrange(pos, e), dst.subrange(pos, e), e - pos, unit, pos);
        if e == src.len() {
            seq![here]
        } else {
            seq![here] + run_plans(src, dst, window, unit, e)
        }
    }
}

/// `file` after applying each plan of `plans` in order.
pub open spec fn apply_all(file: Seq<u8>, plans: Seq<PlanModel>) -> Seq<u8>
    decreases plans.len(),
{
    if plans.len() == 0 {
        file
    } else {
        apply_all(apply_plan(file, plans[0]), plans.drop_first())
    }
}

/// Unit `k` exists exactly when it starts before `limit`.
pub proof fn lemma_chunk_index(limit: int, unit: int, k: int)
    requires
        unit > 0,
        limit >= 0,
        k >= 0,
    ensures
        (k < chunk_count(limit, unit)) <==> (k * unit < limit),
{
    if limit == 0 {
        assert(k * unit >= 0) by (nonlinear_arith)
            requires
                k >= 0,
                unit > 0,
        ;
    } else {
        let q = (limit - 1) / unit;
        let r = (limit - 1) % unit;
        vstd::arithmetic::div_mod::lemma_fundamental_div_mod(limit - 1, unit);
        assert(0 <= r < unit);
        assert((k <= q) ==> k * unit <= q * unit) by (nonlinear_arith)
            requires
                unit > 0,
        ;
        assert((k >= q + 1) ==> k * unit >= q * unit + unit) by (nonlinear_arith)
            requires
                unit > 0,
        ;
        assert(q * unit == unit * q) by (nonlinear_arith);
    }
}

/// Consecutive units follow each other without a gap.
pub proof fn lemma_next_chunk(unit: int, k: int)
    ensures
        (k + 1) * unit == k * unit + unit,
{
    assert((k + 1) * unit == k * unit + unit) by (nonlinear_arith);
}

} // verus!
