//! What holds of every plan the differencer builds, and of the writes that
//! a whole run performs.
use vstd::prelude::*;

use crate::model::{
    apply_all, apply_blocks, apply_plan, chunk_count, chunk_differs, chunk_end, chunk_start,
    diff_plan, lemma_chunk_index, lemma_next_chunk, min, partitions_data, plan_upto, run_plans,
    update_bytes, PlanModel,
};

verus! {

/// Block `i` of `p` rewrites one whole differing unit `c < k`, with that
/// unit's bytes of `src`.
spec fn block_matches_unit(
    src: Seq<u8>,
    dst: Seq<u8>,
    limit: int,
    unit: int,
    offset: int,
    k: int,
    p: PlanModel,
    i: int,
) -> bool {
    let b = p.blocks[i];
    let c = (b.dest - offset) / unit;
    &&& 0 <= c < k
    &&& b.dest == offset + chunk_start(c, unit)
    &&& chunk_differs(src, dst, limit, unit, c)
    &&& b.end - b.start == chunk_end(c, unit, limit) - chunk_start(c, unit)
    &&& p.data.subrange(b.start, b.end) == src.subrange(
        chunk_start(c, unit),
        chunk_end(c, unit, limit),
    )
}

/// Everything the induction over units carries for the plan of the first
/// `k` units.
#[verifier::opaque]
spec fn prefix_facts(
    src: Seq<u8>,
    dst: Seq<u8>,
    limit: int,
    unit: int,
    offset: int,
    k: int,
    p: PlanModel,
) -> bool {
    &&& partitions_data(p)
    &&& forall|i: int|
        0 <= i < p.blocks.len() ==> 0 <= #[trigger] p.blocks[i].start && p.blocks[i].end
            <= p.data.len()
    &&& forall|i: int|
        0 <= i < p.blocks.len() ==> #[trigger] block_matches_unit(
            src,
            dst,
            limit,
            unit,
            offset,
            k,
            p,
            i,
        )
    &&& forall|i: int, j: int|
        0 <= i < j < p.blocks.len() ==> #[trigger] p.blocks[i].dest + (p.blocks[i].end
            - p.blocks[i].start) <= #[trigger] p.blocks[j].dest
    &&& forall|c: int|
        0 <= c < k && #[trigger] chunk_differs(src, dst, limit, unit, c) ==> exists|i: int|
            0 <= i < p.blocks.len() && p.blocks[i].dest == offset + chunk_start(c, unit)
}

proof fn lemma_unit_before(c: int, k: int, unit: int)
    requires
        0 <= c < k,
        unit > 0,
    ensures
        c * unit + unit <= k * unit,
{
    assert(c * unit + unit <= k * unit) by (nonlinear_arith)
        requires
            0 <= c < k,
            unit > 0,
    ;
}

proof fn lemma_unit_of_start(c: int, unit: int)
    requires
        unit > 0,
    ensures
        (c * unit) / unit == c,
{
    assert(c * unit == unit * c) by (nonlinear_arith);
    vstd::arithmetic::div_mod::lemma_div_multiples_vanish(c, unit);
}

/// Every earlier block ends before unit `k - 1` starts.
proof fn lemma_blocks_before(
    src: Seq<u8>,
    dst: Seq<u8>,
    limit: int,
    unit: int,
    offset: int,
    k: int,
    p: PlanModel,
)
    requires
        unit > 0,
        k > 0,
        0 <= limit <= src.len(),
        limit <= dst.len(),
        prefix_facts(src, dst, limit, unit, offset, k - 1, p),
    ensures
        forall|i: int|
            0 <= i < p.blocks.len() ==> #[trigger] p.blocks[i].dest + (p.blocks[i].end
                - p.blocks[i].start) <= offset + chunk_start(k - 1, unit),
{
    reveal(prefix_facts);
    assert forall|i: int| 0 <= i < p.blocks.len() implies #[trigger] p.blocks[i].dest + (
    p.blocks[i].end - p.blocks[i].start) <= offset + chunk_start(k - 1, unit) by {
        assert(block_matches_unit(src, dst, limit, unit, offset, k - 1, p, i));
        let c = (p.blocks[i].dest - offset) / unit;
        lemma_unit_before(c, k - 1, unit);
    }
}

proof fn lemma_step_unchanged(
    src: Seq<u8>,
    dst: Seq<u8>,
    limit: int,
    unit: int,
    offset: int,
    k: int,
    p: PlanModel,
)
    requires
        unit > 0,
        k > 0,
        0 <= limit <= src.len(),
        limit <= dst.len(),
        prefix_facts(src, dst, limit, unit, offset, k - 1, p),
        !chunk_differs(src, dst, limit, unit, k - 1),
    ensures
        prefix_facts(src, dst, limit, unit, offset, k, p),
{
    reveal(prefix_facts);
    assert forall|i: int| 0 <= i < p.blocks.len() implies #[trigger] block_matches_unit(
        src,
        dst,
        limit,
        unit,
        offset,
        k,
        p,
        i,
    ) by {
        assert(block_matches_unit(src, dst, limit, unit, offset, k - 1, p, i));
    }
    assert forall|c: int|
        0 <= c < k && #[trigger] chunk_differs(src, dst, limit, unit, c) implies exists|i: int|
        0 <= i < p.blocks.len() && p.blocks[i].dest == offset + chunk_start(c, unit) by {
        assert(c < k - 1);
    }
}

proof fn lemma_step_rewritten(
    src: Seq<u8>,
    dst: Seq<u8>,
    limit: int,
    unit: int,
    offset: int,
    k: int,
    p: PlanModel,
    q: PlanModel,
)
    requires
        unit > 0,
        k > 0,
        0 <= limit <= src.len(),
        limit <= dst.len(),
        chunk_start(k - 1, unit) < chunk_end(k - 1, unit, limit),
        prefix_facts(src, dst, limit, unit, offset, k - 1, p),
        chunk_differs(src, dst, limit, unit, k - 1),
        q.data == p.data + src.subrange(chunk_start(k - 1, unit), chunk_end(k - 1, unit, limit)),
        q.blocks == p.blocks.push(
            crate::model::BlockModel {
                start: p.data.len() as int,
                end: p.data.len() + (chunk_end(k - 1, unit, limit) - chunk_start(k - 1, unit)),
                dest: offset + chunk_start(k - 1, unit),
            },
        ),
    ensures
        prefix_facts(src, dst, limit, unit, offset, k, q),
{
    reveal(prefix_facts);
    let s = chunk_start(k - 1, unit);
    let e = chunk_end(k - 1, unit, limit);
    let n = p.blocks.len() as int;
    lemma_blocks_before(src, dst, limit, unit, offset, k, p);
    assert forall|i: int| 0 <= i < q.blocks.len() implies #[trigger] block_matches_unit(
        src,
        dst,
        limit,
        unit,
        offset,
        k,
        q,
        i,
    ) by {
        if i < n {
            assert(block_matches_unit(src, dst, limit, unit, offset, k - 1, p, i));
            assert(q.data.subrange(q.blocks[i].start, q.blocks[i].end) =~= p.data.subrange(
                p.blocks[i].start,
                p.blocks[i].end,
            ));
        } else {
            lemma_unit_of_start(k - 1, unit);
            assert(q.data.subrange(q.blocks[i].start, q.blocks[i].end) =~= src.subrange(s, e));
        }
    }
    assert forall|c: int|
        0 <= c < k && #[trigger] chunk_differs(src, dst, limit, unit, c) implies exists|i: int|
        0 <= i < q.blocks.len() && q.blocks[i].dest == offset + chunk_start(c, unit) by {
        if c == k - 1 {
            assert(q.blocks[n].dest == offset + chunk_start(c, unit));
        } else {
            let i = choose|i: int|
                0 <= i < p.blocks.len() && p.blocks[i].dest == offset + chunk_start(c, unit);
            assert(q.blocks[i] == p.blocks[i]);
        }
    }
    assert forall|i: int, j: int| 0 <= i < j < q.blocks.len() implies #[trigger] q.blocks[i].dest
        + (q.blocks[i].end - q.blocks[i].start) <= #[trigger] q.blocks[j].dest by {
        if j < n {
            assert(q.blocks[i] == p.blocks[i] && q.blocks[j] == p.blocks[j]);
        } else {
            assert(q.blocks[i] == p.blocks[i]);
        }
    }
}

proof fn lemma_prefix_facts(src: Seq<u8>, dst: Seq<u8>, limit: int, unit: int, offset: int, k: int)
    requires
        unit > 0,
        0 <= limit <= src.len(),
        limit <= dst.len(),
        0 <= k <= chunk_count(limit, unit),
    ensures
        prefix_facts(src, dst, limit, unit, offset, k, plan_upto(src, dst, limit, unit, offset, k)),
    decreases k,
{
    if k > 0 {
        lemma_prefix_facts(src, dst, limit, unit, offset, k - 1);
        let p = plan_upto(src, dst, limit, unit, offset, k - 1);
        lemma_chunk_index(limit, unit, k - 1);
        if chunk_differs(src, dst, limit, unit, k - 1) {
            let q = plan_upto(src, dst, limit, unit, offset, k);
            lemma_step_rewritten(src, dst, limit, unit, offset, k, p, q);
        } else {
            lemma_step_unchanged(src, dst, limit, unit, offset, k, p);
        }
    } else {
        reveal(prefix_facts);
    }
}

proof fn lemma_plan_facts(src: Seq<u8>, dst: Seq<u8>, limit: int, unit: int, offset: int)
    requires
        unit > 0,
        0 <= limit <= src.len(),
        src.len() == dst.len(),
    ensures
        prefix_facts(
            src,
            dst,
            limit,
            unit,
            offset,
            chunk_count(limit, unit),
            diff_plan(src, dst, limit, unit, offset),
        ),
{
    assert(chunk_count(limit, unit) >= 0) by {
        if limit > 0 {
            assert((limit - 1) / unit >= 0);
        }
    }
    lemma_prefix_facts(src, dst, limit, unit, offset, chunk_count(limit, unit));
}

/// The writes of a plan cut its compacted data into consecutive, non-empty
/// pieces that together cover it exactly.
pub proof fn lemma_plan_partitions_data(
    src: Seq<u8>,
    dst: Seq<u8>,
    limit: int,
    unit: int,
    offset: int,
)
    requires
        unit > 0,
        0 <= limit <= src.len(),
        src.len() == dst.len(),
    ensures
        partitions_data(diff_plan(src, dst, limit, unit, offset)),
{
    reveal(prefix_facts);
    lemma_plan_facts(src, dst, limit, unit, offset);
}

/// Within a plan the destination positions strictly increase, and each lies
/// in the compared part of the window, `[offset, offset + limit)`.
pub proof fn lemma_plan_offsets(src: Seq<u8>, dst: Seq<u8>, limit: int, unit: int, offset: int)
    requires
        unit > 0,
        0 <= limit <= src.len(),
        src.len() == dst.len(),
    ensures
        ({
            let p = diff_plan(src, dst, limit, unit, offset);
            &&& forall|i: int, j: int|
                0 <= i < j < p.blocks.len() ==> #[trigger] p.blocks[i].dest
                    < #[trigger] p.blocks[j].dest
            &&& forall|i: int|
                0 <= i < p.blocks.len() ==> offset <= #[trigger] p.blocks[i].dest < offset + limit
        }),
{
    reveal(prefix_facts);
    let p = diff_plan(src, dst, limit, unit, offset);
    let n = chunk_count(limit, unit);
    lemma_plan_facts(src, dst, limit, unit, offset);
    assert forall|i: int| 0 <= i < p.blocks.len() implies offset <= #[trigger] p.blocks[i].dest
        < offset + limit by {
        assert(block_matches_unit(src, dst, limit, unit, offset, n, p, i));
        let c = (p.blocks[i].dest - offset) / unit;
        lemma_chunk_index(limit, unit, c);
        assert(c * unit >= 0) by (nonlinear_arith)
            requires
                c >= 0,
                unit > 0,
        ;
    }
    assert forall|i: int, j: int| 0 <= i < j < p.blocks.len() implies #[trigger] p.blocks[i].dest
        < #[trigger] p.blocks[j].dest by {
        assert(p.blocks[i].start < p.blocks[i].end);
    }
}

proof fn lemma_unit_written_iff_differs(
    src: Seq<u8>,
    dst: Seq<u8>,
    limit: int,
    unit: int,
    offset: int,
    p: PlanModel,
    c: int,
)
    requires
        unit > 0,
        0 <= c < chunk_count(limit, unit),
        prefix_facts(src, dst, limit, unit, offset, chunk_count(limit, unit), p),
    ensures
        chunk_differs(src, dst, limit, unit, c) <==> exists|i: int|
            0 <= i < p.blocks.len() && p.blocks[i].dest == offset + chunk_start(c, unit),
{
    reveal(prefix_facts);
    if exists|i: int| 0 <= i < p.blocks.len() && p.blocks[i].dest == offset + chunk_start(c, unit) {
        let i = choose|i: int|
            0 <= i < p.blocks.len() && p.blocks[i].dest == offset + chunk_start(c, unit);
        assert(block_matches_unit(src, dst, limit, unit, offset, chunk_count(limit, unit), p, i));
        lemma_unit_of_start(c, unit);
    }
}

proof fn lemma_block_is_unit(
    src: Seq<u8>,
    dst: Seq<u8>,
    limit: int,
    unit: int,
    offset: int,
    p: PlanModel,
    i: int,
)
    requires
        0 <= i < p.blocks.len(),
        prefix_facts(src, dst, limit, unit, offset, chunk_count(limit, unit), p),
    ensures
        block_matches_unit(src, dst, limit, unit, offset, chunk_count(limit, unit), p, i),
{
    reveal(prefix_facts);
}

/// Some write of `p` goes to the position of unit `c`.
pub open spec fn unit_written(p: PlanModel, offset: int, unit: int, c: int) -> bool {
    exists|i: int| 0 <= i < p.blocks.len() && p.blocks[i].dest == offset + chunk_start(c, unit)
}

/// Write `i` of `p` goes to the position of a differing unit and carries
/// that unit's bytes of `src`.
pub open spec fn writes_source_unit(
    src: Seq<u8>,
    dst: Seq<u8>,
    limit: int,
    unit: int,
    offset: int,
    p: PlanModel,
    i: int,
) -> bool {
    exists|c: int|
        0 <= c < chunk_count(limit, unit) && #[trigger] chunk_differs(src, dst, limit, unit, c)
            && p.blocks[i].dest == offset + chunk_start(c, unit) && p.data.subrange(
            p.blocks[i].start,
            p.blocks[i].end,
        ) == src.subrange(chunk_start(c, unit), chunk_end(c, unit, limit))
}

/// A unit is rewritten exactly when its bytes differ: each differing unit
/// has a write at its position, no other unit has one, and each write
/// carries the source bytes of its unit.
pub proof fn lemma_plan_minimal(src: Seq<u8>, dst: Seq<u8>, limit: int, unit: int, offset: int)
    requires
        unit > 0,
        0 <= limit <= src.len(),
        src.len() == dst.len(),
    ensures
        forall|c: int|
            0 <= c < chunk_count(limit, unit) ==> (#[trigger] chunk_differs(src, dst, limit, unit, c)
                <==> unit_written(diff_plan(src, dst, limit, unit, offset), offset, unit, c)),
        forall|i: int|
            0 <= i < diff_plan(src, dst, limit, unit, offset).blocks.len() ==> #[trigger] writes_source_unit(
                src,
                dst,
                limit,
                unit,
                offset,
                diff_plan(src, dst, limit, unit, offset),
                i,
            ),
{
    let p = diff_plan(src, dst, limit, unit, offset);
    let n = chunk_count(limit, unit);
    lemma_plan_facts(src, dst, limit, unit, offset);
    assert forall|c: int| 0 <= c < n implies (#[trigger] chunk_differs(src, dst, limit, unit, c)
        <==> unit_written(p, offset, unit, c)) by {
        lemma_unit_written_iff_differs(src, dst, limit, unit, offset, p, c);
    }
    assert forall|i: int| 0 <= i < p.blocks.len() implies #[trigger] writes_source_unit(
        src,
        dst,
        limit,
        unit,
        offset,
        p,
        i,
    ) by {
        lemma_block_is_unit(src, dst, limit, unit, offset, p, i);
        let c = (p.blocks[i].dest - offset) / unit;
        assert(chunk_differs(src, dst, limit, unit, c));
    }
}

/// Each write is exactly as long as its unit: `unit` bytes, or what is left
/// of the compared part of the window for the last one, so that no write
/// reaches past `offset + limit`.
pub proof fn lemma_plan_boundary(src: Seq<u8>, dst: Seq<u8>, limit: int, unit: int, offset: int)
    requires
        unit > 0,
        0 <= limit <= src.len(),
        src.len() == dst.len(),
    ensures
        ({
            let p = diff_plan(src, dst, limit, unit, offset);
            forall|i: int|
                0 <= i < p.blocks.len() ==> #[trigger] p.blocks[i].end - p.blocks[i].start == min(
                    unit,
                    offset + limit - p.blocks[i].dest,
                ) && p.blocks[i].dest + (p.blocks[i].end - p.blocks[i].start) <= offset + limit
        }),
{
    reveal(prefix_facts);
    let p = diff_plan(src, dst, limit, unit, offset);
    let n = chunk_count(limit, unit);
    lemma_plan_facts(src, dst, limit, unit, offset);
    assert forall|i: int| 0 <= i < p.blocks.len() implies #[trigger] p.blocks[i].end
        - p.blocks[i].start == min(unit, offset + limit - p.blocks[i].dest) && p.blocks[i].dest + (
    p.blocks[i].end - p.blocks[i].start) <= offset + limit by {
        assert(block_matches_unit(src, dst, limit, unit, offset, n, p, i));
    }
}

/// Writes that `q` shares with `p`, over the same bytes, act alike.
proof fn lemma_apply_shared_prefix(file: Seq<u8>, p: PlanModel, q: PlanModel, n: int)
    requires
        0 <= n <= p.blocks.len(),
        n <= q.blocks.len(),
        forall|i: int| 0 <= i < n ==> #[trigger] q.blocks[i] == p.blocks[i],
        forall|i: int|
            0 <= i < n ==> #[trigger] q.data.subrange(q.blocks[i].start, q.blocks[i].end)
                == p.data.subrange(p.blocks[i].start, p.blocks[i].end),
    ensures
        apply_blocks(file, q, n) == apply_blocks(file, p, n),
    decreases n,
{
    if n > 0 {
        lemma_apply_shared_prefix(file, p, q, n - 1);
        assert(q.data.subrange(q.blocks[n - 1].start, q.blocks[n - 1].end) == p.data.subrange(
            p.blocks[n - 1].start,
            p.blocks[n - 1].end,
        ));
    }
}

/// Applying the plan of the first `k` units brings those units of the
/// window up to date.
proof fn lemma_apply_prefix(
    src: Seq<u8>,
    dst: Seq<u8>,
    limit: int,
    unit: int,
    offset: int,
    k: int,
    file: Seq<u8>,
)
    requires
        unit > 0,
        0 <= limit <= src.len(),
        src.len() == dst.len(),
        0 <= k <= chunk_count(limit, unit),
        0 <= offset,
        offset + limit <= file.len(),
        forall|j: int| 0 <= j < limit ==> #[trigger] file[offset + j] == dst[j],
    ensures
        apply_plan(file, plan_upto(src, dst, limit, unit, offset, k)) == update_bytes(
            file,
            offset,
            src.subrange(0, min(k * unit, limit)),
        ),
    decreases k,
{
    if k == 0 {
        assert(update_bytes(file, offset, src.subrange(0, 0)) =~= file);
    } else {
        lemma_apply_prefix(src, dst, limit, unit, offset, k - 1, file);
        lemma_chunk_index(limit, unit, k - 1);
        lemma_next_chunk(unit, k - 1);
        lemma_prefix_facts(src, dst, limit, unit, offset, k - 1);
        let p = plan_upto(src, dst, limit, unit, offset, k - 1);
        let q = plan_upto(src, dst, limit, unit, offset, k);
        let s = chunk_start(k - 1, unit);
        let e = chunk_end(k - 1, unit, limit);
        assert(min((k - 1) * unit, limit) == s);
        assert(min(k * unit, limit) == e);
        let before = update_bytes(file, offset, src.subrange(0, s));
        if chunk_differs(src, dst, limit, unit, k - 1) {
            let n = p.blocks.len() as int;
            reveal(prefix_facts);
            assert forall|i: int| 0 <= i < n implies #[trigger] q.data.subrange(
                q.blocks[i].start,
                q.blocks[i].end,
            ) == p.data.subrange(p.blocks[i].start, p.blocks[i].end) by {
                assert(q.blocks[i] == p.blocks[i]);
                assert(q.data.subrange(q.blocks[i].start, q.blocks[i].end) =~= p.data.subrange(
                    p.blocks[i].start,
                    p.blocks[i].end,
                ));
            }
            lemma_apply_shared_prefix(file, p, q, n);
            assert(q.data.subrange(q.blocks[n].start, q.blocks[n].end) =~= src.subrange(s, e));
            assert(update_bytes(before, offset + s, src.subrange(s, e)) =~= update_bytes(
                file,
                offset,
                src.subrange(0, e),
            ));
        } else {
            assert forall|j: int| s <= j < e implies src[j] == dst[j] by {
                assert(src.subrange(s, e)[j - s] == dst.subrange(s, e)[j - s]);
            }
            let after = update_bytes(file, offset, src.subrange(0, e));
            assert forall|x: int| 0 <= x < file.len() implies before[x] == after[x] by {
                if offset + s <= x < offset + e {
                    assert(file[offset + (x - offset)] == dst[x - offset]);
                }
            }
            assert(before =~= after);
        }
    }
}

/// Applying the plan of a window to a destination that holds `dst` at the
/// window's position makes the compared part of the window equal to `src`,
/// and leaves every other byte alone.
pub proof fn lemma_plan_updates_window(
    src: Seq<u8>,
    dst: Seq<u8>,
    limit: int,
    unit: int,
    offset: int,
    file: Seq<u8>,
)
    requires
        unit > 0,
        0 <= limit <= src.len(),
        src.len() == dst.len(),
        0 <= offset,
        offset + limit <= file.len(),
        forall|j: int| 0 <= j < limit ==> #[trigger] file[offset + j] == dst[j],
    ensures
        apply_plan(file, diff_plan(src, dst, limit, unit, offset)) == update_bytes(
            file,
            offset,
            src.subrange(0, limit),
        ),
{
    let n = chunk_count(limit, unit);
    assert(n >= 0) by {
        if limit > 0 {
            assert((limit - 1) / unit >= 0);
        }
    }
    lemma_chunk_index(limit, unit, n);
    lemma_apply_prefix(src, dst, limit, unit, offset, n, file);
}

/// The windows from `pos` on, each diffed and applied in order, bring the
/// rest of the destination up to date.
proof fn lemma_run_from(src: Seq<u8>, dst: Seq<u8>, window: int, unit: int, pos: int, file: Seq<u8>)
    requires
        src.len() == dst.len(),
        file.len() == src.len(),
        window > 0,
        unit > 0,
        0 <= pos <= src.len(),
        forall|j: int| pos <= j < src.len() ==> #[trigger] file[j] == dst[j],
    ensures
        apply_all(file, run_plans(src, dst, window, unit, pos)) == update_bytes(
            file,
            pos,
            src.subrange(pos, src.len() as int),
        ),
    decreases src.len() - pos,
{
    let len = src.len() as int;
    if pos == len {
        assert(update_bytes(file, pos, src.subrange(pos, len)) =~= file);
    } else {
        let e = min(pos + window, len);
        let sw = src.subrange(pos, e);
        let dw = dst.subrange(pos, e);
        let here = diff_plan(sw, dw, e - pos, unit, pos);
        let plans = run_plans(src, dst, window, unit, pos);
        lemma_plan_updates_window(sw, dw, e - pos, unit, pos, file);
        assert(sw.subrange(0, e - pos) =~= sw);
        let file1 = update_bytes(file, pos, sw);
        assert(plans[0] == here);
        assert(apply_all(file, plans) == apply_all(file1, plans.drop_first()));
        if e == len {
            assert(plans.drop_first() =~= Seq::<PlanModel>::empty());
            assert(apply_all(file1, Seq::<PlanModel>::empty()) == file1);
            assert(file1 =~= update_bytes(file, pos, src.subrange(pos, len)));
        } else {
            assert(plans.drop_first() =~= run_plans(src, dst, window, unit, e));
            lemma_run_from(src, dst, window, unit, e, file1);
            assert(update_bytes(file1, e, src.subrange(e, len)) =~= update_bytes(
                file,
                pos,
                src.subrange(pos, len),
            ));
        }
    }
}

/// Applying the plans of a whole run, window by window and in order, makes
/// the destination byte-identical to the source.
pub proof fn lemma_run_makes_identical(src: Seq<u8>, dst: Seq<u8>, window: int, unit: int)
    requires
        src.len() == dst.len(),
        window > 0,
        unit > 0,
    ensures
        apply_all(dst, run_plans(src, dst, window, unit, 0)) == src,
{
    lemma_run_from(src, dst, window, unit, 0, dst);
    assert(update_bytes(dst, 0, src.subrange(0, src.len() as int)) =~= src);
}

/// Comparing a window with itself yields the empty plan.
pub proof fn lemma_plan_of_equal_is_empty(src: Seq<u8>, limit: int, unit: int, offset: int)
    requires
        unit > 0,
        0 <= limit <= src.len(),
    ensures
        diff_plan(src, src, limit, unit, offset).blocks.len() == 0,
        diff_plan(src, src, limit, unit, offset).data.len() == 0,
{
    let p = diff_plan(src, src, limit, unit, offset);
    lemma_plan_facts(src, src, limit, unit, offset);
    lemma_plan_partitions_data(src, src, limit, unit, offset);
    if p.blocks.len() > 0 {
        lemma_block_is_unit(src, src, limit, unit, offset, p, 0);
    }
}

proof fn lemma_run_of_equal(src: Seq<u8>, window: int, unit: int, pos: int)
    requires
        window > 0,
        unit > 0,
        0 <= pos,
    ensures
        forall|i: int|
            0 <= i < run_plans(src, src, window, unit, pos).len() ==> (#[trigger] run_plans(
                src,
                src,
                window,
                unit,
                pos,
            )[i]).blocks.len() == 0,
    decreases src.len() - pos,
{
    let plans = run_plans(src, src, window, unit, pos);
    if pos < src.len() {
        let e = min(pos + window, src.len() as int);
        lemma_plan_of_equal_is_empty(src.subrange(pos, e), e - pos, unit, pos);
        if e < src.len() {
            lemma_run_of_equal(src, window, unit, e);
            let rest = run_plans(src, src, window, unit, e);
            assert forall|i: int| 0 <= i < plans.len() implies (#[trigger] plans[i]).blocks.len()
                == 0 by {
                if i > 0 {
                    assert(plans[i] == rest[i - 1]);
                }
            }
        }
    }
}

/// After a run, a second run over the same source finds nothing to write:
/// every plan it builds is empty.
pub proof fn lemma_second_run_writes_nothing(src: Seq<u8>, dst: Seq<u8>, window: int, unit: int)
    requires
        src.len() == dst.len(),
        window > 0,
        unit > 0,
    ensures
        ({
            let after = apply_all(dst, run_plans(src, dst, window, unit, 0));
            let again = run_plans(src, after, window, unit, 0);
            forall|i: int|
                0 <= i < again.len() ==> (#[trigger] again[i]).blocks.len() == 0
                    && again[i].data.len() == 0
        }),
{
    lemma_run_makes_identical(src, dst, window, unit);
    lemma_run_of_equal(src, window, unit, 0);
    let again = run_plans(src, src, window, unit, 0);
    assert forall|i: int| 0 <= i < again.len() implies (#[trigger] again[i]).blocks.len() == 0
        && again[i].data.len() == 0 by {
        lemma_run_plans_partition(src, src, window, unit, 0, i);
    }
}

/// Every plan of a run partitions its data.
proof fn lemma_run_plans_partition(src: Seq<u8>, dst: Seq<u8>, window: int, unit: int, pos: int, i: int)
    requires
        window > 0,
        unit > 0,
        0 <= pos,
        0 <= i < run_plans(src, dst, window, unit, pos).len(),
    ensures
        partitions_data(run_plans(src, dst, window, unit, pos)[i]),
    decreases src.len() - pos,
{
    let plans = run_plans(src, dst, window, unit, pos);
    let e = min(pos + window, src.len() as int);
    if i == 0 {
        lemma_plan_partitions_data(src.subrange(pos, e), dst.subrange(pos, e), e - pos, unit, pos);
    } else {
        lemma_run_plans_partition(src, dst, window, unit, e, i - 1);
    }
}

} // verus!
