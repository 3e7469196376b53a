//! The decisions of a run, one window at a time: given what the two reads
//! returned, end the run, reject it, skip the window, or hand out the writes
//! that bring it up to date. Reading and writing are left to the caller.
use vstd::prelude::*;

use crate::model::diff_plan;
use crate::utils::WriteJob;

verus! {

/// Smallest accepted comparison unit.
pub const MIN_UNIT_FLOOR: usize = 512;

/// Windows must stay below this size.
pub const WINDOW_CEILING: usize = 1024 * 1024 * 1024;

/// A window of `window` bytes compared in units of `unit` bytes is
/// accepted: the unit is at least 512 bytes, the window is a multiple of it,
/// and the window stays below 1 GiB.
pub open spec fn valid_config(window: int, unit: int) -> bool {
    &&& MIN_UNIT_FLOOR <= unit <= window
    &&& window % unit == 0
    &&& window < WINDOW_CEILING
}

/// What to do with one window.
pub enum Step {
    /// One of the reads came back empty: the run is over.
    Finished,
    /// The reads returned different byte counts: source and destination
    /// differ in length, and the run stops.
    LengthMismatch,
    /// The window is already up to date.
    Unchanged,
    /// These writes bring the window up to date.
    Write(WriteJob),
}

/// The state of a run.
pub struct SessionModel {
    pub window: int,
    pub unit: int,
    /// Bytes compared so far; the next window starts here.
    pub position: int,
    pub finished: bool,
}

/// A run over two equal-length streams, window by window.
pub struct SyncSession {
    window_size: usize,
    min_unit: usize,
    position: usize,
    finished: bool,
}

impl View for SyncSession {
    type V = SessionModel;

    closed spec fn view(&self) -> SessionModel {
        SessionModel {
            window: self.window_size as int,
            unit: self.min_unit as int,
            position: self.position as int,
            finished: self.finished,
        }
    }
}

impl SyncSession {
    /// A run that has not read anything yet, or `None` where the window and
    /// unit sizes are not accepted.
    pub fn new(window_size: usize, min_unit: usize) -> (r: Option<SyncSession>)
        ensures
            r is Some <==> valid_config(window_size as int, min_unit as int),
            r matches Some(s) ==> s@ == (SessionModel {
                window: window_size as int,
                unit: min_unit as int,
                position: 0,
                finished: false,
            }),
    {
        if MIN_UNIT_FLOOR <= min_unit && min_unit <= window_size && window_size % min_unit == 0
            && window_size < WINDOW_CEILING {
            Some(SyncSession { window_size, min_unit, position: 0, finished: false })
        } else {
            None
        }
    }

    /// Bytes compared so far.
    pub fn position(&self) -> (r: usize)
        ensures
            r == self@.position,
    {
        self.position
    }

    /// Whether the run is over.
    pub fn is_finished(&self) -> (r: bool)
        ensures
            r == self@.finished,
    {
        self.finished
    }

    /// Bytes read per window.
    pub fn window_size(&self) -> (r: usize)
        ensures
            r == self@.window,
    {
        self.window_size
    }

    /// Decides what to do with the window at the current position, given
    /// the buffers the two reads filled and how many bytes each returned.
    /// A read shorter than the window ends the run after this window.
    pub fn on_window(
        &mut self,
        src_buf: Vec<u8>,
        dst_buf: &[u8],
        src_read: usize,
        dst_read: usize,
    ) -> (step: Step)
        requires
            valid_config(old(self)@.window, old(self)@.unit),
            src_buf@.len() == old(self)@.window,
            dst_buf@.len() == old(self)@.window,
            src_read <= src_buf@.len(),
            dst_read <= dst_buf@.len(),
            old(self)@.position + src_read <= usize::MAX,
        ensures
            final(self)@.window == old(self)@.window,
            final(self)@.unit == old(self)@.unit,
            old(self)@.finished || src_read == 0 || dst_read == 0 ==> step is Finished
                && final(self)@ == (SessionModel { finished: true, ..old(self)@ }),
            !old(self)@.finished && src_read > 0 && dst_read > 0 && src_read != dst_read ==> step
                is LengthMismatch && final(self)@ == (SessionModel { finished: true, ..old(self)@ }),
            !old(self)@.finished && src_read > 0 && src_read == dst_read ==> {
                let p = diff_plan(
                    src_buf@,
                    dst_buf@,
                    src_read as int,
                    old(self)@.unit,
                    old(self)@.position,
                );
                &&& final(self)@.position == old(self)@.position + src_read
                &&& final(self)@.finished == (src_read < old(self)@.window)
                &&& p.blocks.len() == 0 ==> step is Unchanged
                &&& p.blocks.len() > 0 ==> (step matches Step::Write(job) && job@ == p && job.offset
                    == old(self)@.position && job.wf())
            },
    {
        if self.finished || src_read == 0 || dst_read == 0 {
            self.finished = true;
            return Step::Finished;
        }
        if src_read != dst_read {
            self.finished = true;
            return Step::LengthMismatch;
        }
        let offset = self.position;
        let job = WriteJob::break_into_blocks(src_buf, dst_buf, src_read, offset, self.min_unit);
        self.position = offset + src_read;
        self.finished = src_read < self.window_size;
        if job.is_empty() {
            Step::Unchanged
        } else {
            Step::Write(job)
        }
    }
}

} // verus!
