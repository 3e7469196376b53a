//! The differencer: compares two windows unit by unit and keeps only the
//! units that must be rewritten, together with where they go.
use std::ops::Range;

use vstd::prelude::*;

use crate::lemmas::{lemma_plan_boundary, lemma_plan_offsets, lemma_plan_partitions_data};
use crate::model::{
    apply_blocks, apply_plan, chunk_count, chunk_end, chunk_start, diff_plan, fits_in,
    lemma_chunk_index, lemma_next_chunk, partitions_data, plan_upto, update_bytes, BlockModel,
    PlanModel,
};

verus! {

/// One write: `source` indexes the job's compacted data, `write_offset` is
/// the absolute position in the destination.
#[derive(Debug)]
pub struct Block {
    pub source: Range<usize>,
    pub write_offset: u64,
}

impl View for Block {
    type V = BlockModel;

    open spec fn view(&self) -> BlockModel {
        BlockModel {
            start: self.source.start as int,
            end: self.source.end as int,
            dest: self.write_offset as int,
        }
    }
}

/// The writes that bring one window of the destination up to date.
#[derive(Debug)]
pub struct WriteJob {
    /// Absolute position of the window in the destination.
    pub offset: usize,
    /// The bytes of the units that differ, in ascending position order.
    pub data: Vec<u8>,
    /// The writes, in ascending destination order.
    pub blocks: Vec<Block>,
}

impl View for WriteJob {
    type V = PlanModel;

    open spec fn view(&self) -> PlanModel {
        PlanModel { data: self.data@, blocks: self.blocks@.map_values(|b: Block| b@) }
    }
}

/// Whether `a[a_start..a_start + len]` and `b[b_start..b_start + len]` hold
/// the same bytes.
fn same_bytes(a: &Vec<u8>, a_start: usize, b: &[u8], b_start: usize, len: usize) -> (r: bool)
    requires
        a_start + len <= a@.len(),
        b_start + len <= b@.len(),
        a_start + len <= usize::MAX,
        b_start + len <= usize::MAX,
    ensures
        r == (a@.subrange(a_start as int, a_start + len) == b@.subrange(
            b_start as int,
            b_start + len,
        )),
{
    let mut i: usize = 0;
    while i < len
        invariant
            i <= len,
            a_start + len <= a@.len(),
            b_start + len <= b@.len(),
            a_start + len <= usize::MAX,
            b_start + len <= usize::MAX,
            a@.subrange(a_start as int, a_start + i) == b@.subrange(b_start as int, b_start + i),
        decreases len - i,
    {
        if a[a_start + i] != b[b_start + i] {
            assert(a@.subrange(a_start as int, a_start + len)[i as int] != b@.subrange(
                b_start as int,
                b_start + len,
            )[i as int]);
            return false;
        }
        assert(a@.subrange(a_start as int, a_start + i + 1) =~= a@.subrange(
            a_start as int,
            a_start + i,
        ).push(a@[a_start + i]));
        assert(b@.subrange(b_start as int, b_start + i + 1) =~= b@.subrange(
            b_start as int,
            b_start + i,
        ).push(b@[b_start + i]));
        i = i + 1;
    }
    true
}

/// Moves `v[from..from + len]` down to `v[to..to + len]`; the bytes before
/// `to` and from `from + len` on are left alone.
fn move_down(v: &mut Vec<u8>, from: usize, to: usize, len: usize)
    requires
        to <= from,
        from + len <= old(v)@.len(),
        from + len <= usize::MAX,
    ensures
        final(v)@.len() == old(v)@.len(),
        forall|i: int| 0 <= i < to ==> final(v)@[i] == old(v)@[i],
        forall|i: int| to <= i < to + len ==> final(v)@[i] == old(v)@[from + i - to],
        forall|i: int| from + len <= i < old(v)@.len() ==> final(v)@[i] == old(v)@[i],
{
    let ghost before = v@;
    let mut j: usize = 0;
    while j < len
        invariant
            j <= len,
            to <= from,
            from + len <= before.len(),
            from + len <= usize::MAX,
            v@.len() == before.len(),
            forall|i: int| 0 <= i < to ==> v@[i] == before[i],
            forall|i: int| to <= i < to + j ==> v@[i] == before[from + i - to],
            forall|i: int| from + j <= i < before.len() ==> v@[i] == before[i],
        decreases len - j,
    {
        let x = v[from + j];
        v.set(to + j, x);
        j = j + 1;
    }
}

impl WriteJob {
    /// The writes cut the compacted data into consecutive pieces that cover
    /// it exactly.
    pub open spec fn wf(&self) -> bool {
        partitions_data(self@)
    }

    /// Compares `input[..limit]` with `invalid[..limit]` in units of
    /// `min_block_size` bytes (the last unit possibly shorter) and keeps the
    /// units of `input` that differ, compacted in place, each with the
    /// absolute position `offset + its start` where it must be written.
    pub fn break_into_blocks(
        mut input: Vec<u8>,
        invalid: &[u8],
        limit: usize,
        offset: usize,
        min_block_size: usize,
    ) -> (job: WriteJob)
        requires
            input@.len() == invalid@.len(),
            limit <= input@.len(),
            min_block_size > 0,
            offset + limit <= usize::MAX,
        ensures
            job.offset == offset,
            job@ == diff_plan(input@, invalid@, limit as int, min_block_size as int, offset as int),
            job.wf(),
            fits_in(job@, offset + limit),
    {
        let ghost src = input@;
        let ghost dst = invalid@;
        let ghost m = min_block_size as int;
        let ghost n = chunk_count(limit as int, m);
        let mut blocks: Vec<Block> = Vec::new();
        let mut kept: usize = 0;
        let mut start: usize = 0;
        let ghost mut k: int = 0;
        while start < limit
            invariant
                input@.len() == src.len(),
                src.len() == dst.len(),
                dst == invalid@,
                limit <= src.len(),
                m == min_block_size as int,
                m > 0,
                n == chunk_count(limit as int, m),
                offset + limit <= usize::MAX,
                0 <= k <= n,
                k < n ==> start == k * m,
                k == n ==> start == limit,
                kept <= start <= limit,
                forall|i: int| start <= i < src.len() ==> input@[i] == src[i],
                plan_upto(src, dst, limit as int, m, offset as int, k).data == input@.subrange(
                    0,
                    kept as int,
                ),
                plan_upto(src, dst, limit as int, m, offset as int, k).blocks == blocks@.map_values(
                    |b: Block| b@,
                ),
            decreases limit - start,
        {
            proof {
                lemma_chunk_index(limit as int, m, k);
                lemma_chunk_index(limit as int, m, k + 1);
                lemma_next_chunk(m, k);
            }
            let step: usize = if limit - start < min_block_size {
                limit - start
            } else {
                min_block_size
            };
            let end: usize = start + step;
            assert(start == chunk_start(k, m));
            assert(end == chunk_end(k, m, limit as int));
            let ghost p = plan_upto(src, dst, limit as int, m, offset as int, k);
            assert(input@.subrange(start as int, end as int) =~= src.subrange(
                start as int,
                end as int,
            ));
            if !same_bytes(&input, start, invalid, start, step) {
                let ghost prev = input@;
                move_down(&mut input, start, kept, step);
                assert(input@.subrange(0, kept + step) =~= prev.subrange(0, kept as int)
                    + src.subrange(start as int, end as int));
                let b = Block {
                    source: Range { start: kept, end: kept + step },
                    write_offset: (offset + start) as u64,
                };
                blocks.push(b);
                kept = kept + step;
                assert(blocks@.map_values(|b: Block| b@) =~= p.blocks.push(
                    BlockModel {
                        start: p.data.len() as int,
                        end: p.data.len() + (end - start),
                        dest: offset + start,
                    },
                ));
            }
            start = end;
            proof {
                k = k + 1;
            }
        }
        proof {
            lemma_chunk_index(limit as int, m, k);
            lemma_plan_partitions_data(src, dst, limit as int, m, offset as int);
            lemma_plan_offsets(src, dst, limit as int, m, offset as int);
            lemma_plan_boundary(src, dst, limit as int, m, offset as int);
        }
        input.truncate(kept);
        WriteJob { offset, data: input, blocks }
    }

    /// Writes each block's bytes at its position in `dest`, in order, and
    /// returns how many bytes were written.
    pub fn apply(&self, dest: &mut Vec<u8>) -> (written: usize)
        requires
            self.wf(),
            fits_in(self@, old(dest)@.len() as int),
        ensures
            final(dest)@ == apply_plan(old(dest)@, self@),
            written == self.data@.len(),
    {
        let ghost orig = dest@;
        let ghost p = self@;
        let mut written: usize = 0;
        let mut i: usize = 0;
        while i < self.blocks.len()
            invariant
                p == self@,
                partitions_data(p),
                fits_in(p, orig.len() as int),
                dest@.len() == orig.len(),
                0 <= i <= p.blocks.len(),
                dest@ == apply_blocks(orig, p, i as int),
                written == if i == 0 {
                    0
                } else {
                    p.blocks[i - 1].end
                },
            decreases p.blocks.len() - i,
        {
            let ghost before = dest@;
            let dest_len = dest.len();
            let data_len = self.data.len();
            let s = self.blocks[i].source.start;
            let e = self.blocks[i].source.end;
            assert(p.blocks[i as int] == self.blocks@[i as int]@);
            assert(0 <= p.blocks[i as int].dest && p.blocks[i as int].dest + (p.blocks[i as int].end
                - p.blocks[i as int].start) <= orig.len());
            assert(p.blocks[i as int].start < p.blocks[i as int].end <= p.data.len());
            assert(self.blocks@[i as int].write_offset <= dest_len);
            let d = self.blocks[i].write_offset as usize;
            let len = e - s;
            let mut j: usize = 0;
            while j < len
                invariant
                    p == self@,
                    s + len <= self.data@.len(),
                    d + len <= before.len(),
                    self.data@.len() <= usize::MAX,
                    before.len() <= usize::MAX,
                    dest@.len() == before.len(),
                    j <= len,
                    forall|x: int|
                        0 <= x < before.len() ==> #[trigger] dest@[x] == if d <= x < d + j {
                            self.data@[s + x - d]
                        } else {
                            before[x]
                        },
                decreases len - j,
            {
                dest.set(d + j, self.data[s + j]);
                j = j + 1;
            }
            assert(dest@ =~= update_bytes(before, d as int, self.data@.subrange(s as int, e as int)));
            written = written + len;
            i = i + 1;
        }
        written
    }

    /// Number of writes in the job.
    pub fn len(&self) -> (r: usize)
        ensures
            r == self@.blocks.len(),
    {
        self.blocks.len()
    }

    /// Whether the job writes nothing.
    pub fn is_empty(&self) -> (r: bool)
        ensures
            r == (self@.blocks.len() == 0),
    {
        self.blocks.len() == 0
    }
}

} // verus!
