use dds::session::{Step, SyncSession};
use dds::utils::WriteJob;
use dds::{BLOCK_SIZE, MIN_BLOCK_SIZE};

/// Deterministic pseudo-random bytes.
fn noise(len: usize, seed: u32) -> Vec<u8> {
    let mut x = seed;
    (0..len)
        .map(|_| {
            x = x.wrapping_mul(1103515245).wrapping_add(12345);
            (x >> 16) as u8
        })
        .collect()
}

/// Runs a whole synchronisation in memory, applying each job as soon as it
/// is produced. Returns the jobs' write counts and the bytes written.
fn run_sequential(src: &[u8], dst: &mut Vec<u8>, window: usize, unit: usize) -> (Vec<usize>, usize) {
    let mut session = SyncSession::new(window, unit).unwrap();
    let mut counts = Vec::new();
    let mut written = 0;
    loop {
        let pos = session.position();
        let n = window.min(src.len() - pos);
        let mut src_buf = vec![0u8; window];
        src_buf[..n].copy_from_slice(&src[pos..pos + n]);
        let mut dst_buf = vec![0u8; window];
        dst_buf[..n].copy_from_slice(&dst[pos..pos + n]);
        match session.on_window(src_buf, &dst_buf, n, n) {
            Step::Finished => break,
            Step::LengthMismatch => panic!("unexpected length mismatch"),
            Step::Unchanged => {}
            Step::Write(job) => {
                counts.push(job.len());
                written += job.apply(dst);
            }
        }
        if session.is_finished() {
            break;
        }
    }
    (counts, written)
}

/// Same run, but every window is read and diffed first and the jobs are
/// applied afterwards in queue order.
fn run_queued(src: &[u8], dst: &mut Vec<u8>, window: usize, unit: usize) -> usize {
    let mut session = SyncSession::new(window, unit).unwrap();
    let mut queue = std::collections::VecDeque::new();
    loop {
        let pos = session.position();
        let n = window.min(src.len() - pos);
        let mut src_buf = vec![0u8; window];
        src_buf[..n].copy_from_slice(&src[pos..pos + n]);
        let mut dst_buf = vec![0u8; window];
        dst_buf[..n].copy_from_slice(&dst[pos..pos + n]);
        match session.on_window(src_buf, &dst_buf, n, n) {
            Step::Finished => break,
            Step::LengthMismatch => panic!("unexpected length mismatch"),
            Step::Unchanged => {}
            Step::Write(job) => queue.push_back(job),
        }
        if session.is_finished() {
            break;
        }
    }
    let mut written = 0;
    while let Some(job) = queue.pop_front() {
        written += job.apply(dst);
    }
    written
}

#[test]
fn identical_megabyte_gives_no_plans() {
    let src = vec![0u8; 1024 * 1024];
    let mut dst = src.clone();
    let (counts, written) = run_sequential(&src, &mut dst, 8192, 1024);
    assert!(counts.is_empty());
    assert_eq!(written, 0);
    assert_eq!(dst, src);
}

#[test]
fn single_changed_byte_rewrites_its_unit() {
    let src = noise(3072, 1);
    let mut dst = src.clone();
    dst[1024] ^= 0xff;
    let job = WriteJob::break_into_blocks(src.clone(), &dst, 3072, 0, 1024);
    assert_eq!(job.len(), 1);
    assert_eq!(job.blocks[0].write_offset, 1024);
    assert_eq!(job.blocks[0].source, 0..1024);
    assert_eq!(job.data, src[1024..2048].to_vec());
}

#[test]
fn first_byte_changed_rewrites_first_unit() {
    let src = noise(3072, 2);
    let mut dst = src.clone();
    dst[0] = dst[0].wrapping_add(1);
    let job = WriteJob::break_into_blocks(src.clone(), &dst, 3072, 0, 1024);
    assert_eq!(job.len(), 1);
    assert_eq!(job.blocks[0].write_offset, 0);
    assert_eq!(job.blocks[0].source.end - job.blocks[0].source.start, 1024);
}

#[test]
fn change_across_unit_boundary_is_not_coalesced() {
    let src = noise(3072, 3);
    let mut dst = src.clone();
    dst[1023] ^= 1;
    dst[1024] ^= 1;
    let job = WriteJob::break_into_blocks(src.clone(), &dst, 3072, 0, 1024);
    assert_eq!(job.len(), 2);
    assert_eq!(job.blocks[0].write_offset, 0);
    assert_eq!(job.blocks[0].source, 0..1024);
    assert_eq!(job.blocks[1].write_offset, 1024);
    assert_eq!(job.blocks[1].source, 1024..2048);
    assert_eq!(job.data, src[0..2048].to_vec());
}

#[test]
fn sequential_and_queued_runs_agree() {
    let src = noise(50_000, 4);
    let mut stale = noise(50_000, 5);
    stale[..10_000].copy_from_slice(&src[..10_000]);
    let mut a = stale.clone();
    let mut b = stale.clone();
    let (_, wa) = run_sequential(&src, &mut a, 4096, 512);
    let wb = run_queued(&src, &mut b, 4096, 512);
    assert_eq!(a, b);
    assert_eq!(a, src);
    assert_eq!(wa, wb);
}

#[test]
fn second_run_writes_nothing() {
    let src = noise(20_000, 6);
    let mut dst = noise(20_000, 7);
    let (first, _) = run_sequential(&src, &mut dst, 2048, 512);
    assert!(!first.is_empty());
    let (second, written) = run_sequential(&src, &mut dst, 2048, 512);
    assert!(second.is_empty());
    assert_eq!(written, 0);
}

#[test]
fn run_makes_destination_identical() {
    let src = noise(10_007, 8);
    let mut dst = src.clone();
    for i in (0..10_007).step_by(997) {
        dst[i] = dst[i].wrapping_add(3);
    }
    run_sequential(&src, &mut dst, BLOCK_SIZE, MIN_BLOCK_SIZE);
    assert_eq!(dst, src);
}

#[test]
fn plan_ranges_are_contiguous_and_offsets_increase() {
    let src = noise(4000, 9);
    let mut dst = src.clone();
    for i in [5usize, 700, 1900, 2500, 3999] {
        dst[i] ^= 0x55;
    }
    let job = WriteJob::break_into_blocks(src.clone(), &dst, 4000, 8000, 512);
    assert_eq!(job.len(), 5);
    let mut expected_start = 0;
    let mut last_offset = None;
    for b in &job.blocks {
        assert_eq!(b.source.start, expected_start);
        assert!(b.source.end > b.source.start);
        expected_start = b.source.end;
        assert!(b.write_offset >= 8000 && b.write_offset < 8000 + 4000);
        if let Some(prev) = last_offset {
            assert!(b.write_offset > prev);
        }
        last_offset = Some(b.write_offset);
    }
    assert_eq!(expected_start, job.data.len());
    let offsets: Vec<u64> = job.blocks.iter().map(|b| b.write_offset).collect();
    assert_eq!(offsets, vec![8000, 8512, 9536, 10048, 11584]);
}

#[test]
fn identical_units_are_skipped() {
    let src = noise(2048, 10);
    let mut dst = src.clone();
    dst[1500] ^= 1;
    let job = WriteJob::break_into_blocks(src.clone(), &dst, 2048, 0, 512);
    assert_eq!(job.len(), 1);
    assert_eq!(job.blocks[0].write_offset, 1024);
    assert_eq!(job.data, src[1024..1536].to_vec());
}

#[test]
fn last_unit_is_sized_to_remaining_bytes() {
    let src = vec![7u8; 5000];
    let dst = vec![8u8; 5000];
    let job = WriteJob::break_into_blocks(src.clone(), &dst, 1300, 0, 512);
    assert_eq!(job.len(), 3);
    let last = &job.blocks[2];
    assert_eq!(last.source, 1024..1300);
    assert_eq!(last.write_offset, 1024);
    assert_eq!(job.data.len(), 1300);
}

#[test]
fn last_window_is_sized_to_remaining_bytes() {
    let src = vec![1u8; 5000];
    let mut dst = vec![2u8; 5000];
    let (counts, written) = run_sequential(&src, &mut dst, 2048, 512);
    // two full windows of four units, then a short window of 904 bytes
    assert_eq!(counts, vec![4, 4, 2]);
    assert_eq!(written, 5000);
    assert_eq!(dst, src);
}

#[test]
fn empty_plan_for_equal_window() {
    let src = noise(1024, 11);
    let job = WriteJob::break_into_blocks(src.clone(), &src, 1024, 0, 512);
    assert!(job.is_empty());
    assert_eq!(job.len(), 0);
    assert!(job.data.is_empty());
}

#[test]
fn apply_counts_written_bytes() {
    let src = vec![9u8; 1500];
    let dst = vec![0u8; 1500];
    let job = WriteJob::break_into_blocks(src.clone(), &dst, 1500, 0, 1000);
    let mut out = dst.clone();
    assert_eq!(job.apply(&mut out), 1500);
    assert_eq!(out, src);
}

#[test]
fn mismatched_reads_stop_the_run() {
    let mut session = SyncSession::new(1024, 512).unwrap();
    let step = session.on_window(vec![0u8; 1024], &[1u8; 1024], 1024, 1000);
    assert!(matches!(step, Step::LengthMismatch));
    assert!(session.is_finished());
    assert_eq!(session.position(), 0);
}

#[test]
fn empty_read_finishes_the_run() {
    let mut session = SyncSession::new(1024, 512).unwrap();
    let step = session.on_window(vec![0u8; 1024], &[0u8; 1024], 0, 0);
    assert!(matches!(step, Step::Finished));
    assert!(session.is_finished());
}

#[test]
fn short_read_ends_after_its_window() {
    let mut session = SyncSession::new(1024, 512).unwrap();
    let step = session.on_window(vec![3u8; 1024], &[3u8; 1024], 1024, 1024);
    assert!(matches!(step, Step::Unchanged));
    assert!(!session.is_finished());
    assert_eq!(session.position(), 1024);
    let step = session.on_window(vec![4u8; 1024], &[3u8; 1024], 600, 600);
    match step {
        Step::Write(job) => {
            assert_eq!(job.offset, 1024);
            assert_eq!(job.len(), 2);
            assert_eq!(job.blocks[1].write_offset, 1536);
            assert_eq!(job.blocks[1].source, 512..600);
        }
        _ => panic!("expected writes"),
    }
    assert!(session.is_finished());
    assert_eq!(session.position(), 1624);
}

#[test]
fn session_rejects_bad_sizes() {
    assert!(SyncSession::new(1024, 256).is_none());
    assert!(SyncSession::new(1536, 1024).is_none());
    assert!(SyncSession::new(512, 1024).is_none());
    assert!(SyncSession::new(1024 * 1024 * 1024, 512).is_none());
    assert!(SyncSession::new(BLOCK_SIZE, MIN_BLOCK_SIZE).is_some());
    assert_eq!(SyncSession::new(2048, 512).unwrap().window_size(), 2048);
}

#[test]
fn finished_session_stays_finished() {
    let mut session = SyncSession::new(1024, 512).unwrap();
    let step = session.on_window(vec![0u8; 1024], &[1u8; 1024], 10, 20);
    assert!(matches!(step, Step::LengthMismatch));
    let step = session.on_window(vec![0u8; 1024], &[1u8; 1024], 1024, 1024);
    assert!(matches!(step, Step::Finished));
    assert_eq!(session.position(), 0);
}
