//! Bookkeeping of the time spent reading, processing and writing while a
//! chunked operation advances step by step.
use vstd::prelude::*;

verus! {

/// A report of how far an operation has come and where its time went, in
/// nanoseconds.
#[derive(Clone, Debug)]
pub struct ProgressStats {
    pub step: usize,
    pub num_steps: usize,
    pub read: u64,
    pub process: u64,
    pub process_steps: Vec<u64>,
    pub write: u64,
}

/// The receiver of progress reports: it keeps every report in order, for the
/// caller to display.
pub struct ProgressCallback {
    reports: Vec<ProgressStats>,
}

impl ProgressCallback {
    pub closed spec fn reports_view(&self) -> Seq<ProgressStats> {
        self.reports@
    }

    /// A receiver that has seen no report.
    pub fn new() -> (r: ProgressCallback)
        ensures
            r.reports_view().len() == 0,
    {
        ProgressCallback { reports: Vec::new() }
    }

    /// Receives one report.
    pub fn update(&mut self, stats: ProgressStats)
        ensures
            final(self).reports_view() == old(self).reports_view().push(stats),
    {
        self.reports.push(stats);
    }

    /// The reports received so far, oldest first.
    pub fn reports(&self) -> (r: &Vec<ProgressStats>)
        ensures
            r@ == self.reports_view(),
    {
        &self.reports
    }
}

/// The progress of an operation of `num_steps` steps.
pub struct Progress {
    step: usize,
    num_steps: usize,
    duration_read: u64,
    duration_process: u64,
    duration_process_steps: Vec<u64>,
    duration_write: u64,
}

/// `a + b`, or `u64::MAX` where the sum does not fit.
pub open spec fn sat_add(a: u64, b: u64) -> u64 {
    if a + b > u64::MAX {
        u64::MAX
    } else {
        (a + b) as u64
    }
}

/// The per-step process times after adding `elapsed` to step `step`: the list
/// grows with zeros to reach the step.
pub open spec fn add_step_spec(steps: Seq<u64>, step: nat, elapsed: u64) -> Seq<u64> {
    let len = if step < steps.len() {
        steps.len()
    } else {
        step + 1
    };
    Seq::new(
        len,
        |i: int|
            {
                let old_value = if i < steps.len() {
                    steps[i]
                } else {
                    0u64
                };
                if i == step {
                    sat_add(old_value, elapsed)
                } else {
                    old_value
                }
            },
    )
}

impl Progress {
    pub closed spec fn step_view(&self) -> nat {
        self.step as nat
    }

    pub closed spec fn num_steps_view(&self) -> nat {
        self.num_steps as nat
    }

    pub closed spec fn read_view(&self) -> u64 {
        self.duration_read
    }

    pub closed spec fn process_view(&self) -> u64 {
        self.duration_process
    }

    pub closed spec fn process_steps_view(&self) -> Seq<u64> {
        self.duration_process_steps@
    }

    pub closed spec fn write_view(&self) -> u64 {
        self.duration_write
    }

    /// The report that describes the current state at `step`.
    pub open spec fn stats_at(&self, step: nat, stats: ProgressStats) -> bool {
        &&& stats.step == step
        &&& stats.num_steps == self.num_steps_view()
        &&& stats.read == self.read_view()
        &&& stats.process == self.process_view()
        &&& stats.process_steps@ == self.process_steps_view()
        &&& stats.write == self.write_view()
    }

    /// Starts an operation of `num_steps` steps, reporting step zero.
    pub fn new(num_steps: usize, progress_callback: &mut ProgressCallback) -> (r: Progress)
        ensures
            r.step_view() == 0,
            r.num_steps_view() == num_steps,
            r.read_view() == 0 && r.process_view() == 0 && r.write_view() == 0,
            r.process_steps_view().len() == 0,
            final(progress_callback).reports_view().len() == old(
                progress_callback,
            ).reports_view().len() + 1,
            final(progress_callback).reports_view().drop_last() == old(
                progress_callback,
            ).reports_view(),
            r.stats_at(0, final(progress_callback).reports_view().last()),
    {
        let progress = Progress {
            step: 0,
            num_steps,
            duration_read: 0,
            duration_process: 0,
            duration_process_steps: Vec::new(),
            duration_write: 0,
        };
        progress.update(0, progress_callback);
        progress
    }

    /// Adds `elapsed` nanoseconds of reading.
    pub fn read(&mut self, elapsed: u64)
        ensures
            final(self).read_view() == sat_add(old(self).read_view(), elapsed),
            final(self).step_view() == old(self).step_view(),
            final(self).num_steps_view() == old(self).num_steps_view(),
            final(self).process_view() == old(self).process_view(),
            final(self).process_steps_view() == old(self).process_steps_view(),
            final(self).write_view() == old(self).write_view(),
    {
        self.duration_read = self.duration_read.saturating_add(elapsed);
    }

    /// Adds `elapsed` nanoseconds of processing.
    pub fn process(&mut self, elapsed: u64)
        ensures
            final(self).process_view() == sat_add(old(self).process_view(), elapsed),
            final(self).step_view() == old(self).step_view(),
            final(self).num_steps_view() == old(self).num_steps_view(),
            final(self).read_view() == old(self).read_view(),
            final(self).process_steps_view() == old(self).process_steps_view(),
            final(self).write_view() == old(self).write_view(),
    {
        self.duration_process = self.duration_process.saturating_add(elapsed);
    }

    /// Adds `elapsed` nanoseconds of processing to processing step `step`.
    pub fn process_step(&mut self, step: usize, elapsed: u64)
        requires
            step < usize::MAX,
        ensures
            final(self).process_steps_view() == add_step_spec(
                old(self).process_steps_view(),
                step as nat,
                elapsed,
            ),
            final(self).step_view() == old(self).step_view(),
            final(self).num_steps_view() == old(self).num_steps_view(),
            final(self).read_view() == old(self).read_view(),
            final(self).process_view() == old(self).process_view(),
            final(self).write_view() == old(self).write_view(),
    {
        let ghost old_steps = self.duration_process_steps@;
        let ghost frame = (self.step, self.num_steps, self.duration_read, self.duration_process, self.duration_write);
        if self.duration_process_steps.len() <= step {
            while self.duration_process_steps.len() <= step
                invariant
                    step < usize::MAX,
                    frame == (self.step, self.num_steps, self.duration_read, self.duration_process, self.duration_write),
                    self.duration_process_steps@.len() <= step + 1,
                    old_steps.len() <= self.duration_process_steps@.len(),
                    forall|i: int|
                        0 <= i < self.duration_process_steps@.len() ==> #[trigger] self.duration_process_steps@[i]
                            == if i < old_steps.len() {
                            old_steps[i]
                        } else {
                            0u64
                        },
                decreases step + 1 - self.duration_process_steps@.len(),
            {
                self.duration_process_steps.push(0);
            }
        }
        let current = self.duration_process_steps[step];
        self.duration_process_steps.set(step, current.saturating_add(elapsed));
        proof {
            assert(self.duration_process_steps@ =~= add_step_spec(old_steps, step as nat, elapsed));
        }
    }

    /// Adds `elapsed` nanoseconds of writing.
    pub fn write(&mut self, elapsed: u64)
        ensures
            final(self).write_view() == sat_add(old(self).write_view(), elapsed),
            final(self).step_view() == old(self).step_view(),
            final(self).num_steps_view() == old(self).num_steps_view(),
            final(self).read_view() == old(self).read_view(),
            final(self).process_view() == old(self).process_view(),
            final(self).process_steps_view() == old(self).process_steps_view(),
    {
        self.duration_write = self.duration_write.saturating_add(elapsed);
    }

    /// Reports the current state at `step`.
    fn update(&self, step: usize, progress_callback: &mut ProgressCallback)
        ensures
            final(progress_callback).reports_view().len() == old(
                progress_callback,
            ).reports_view().len() + 1,
            final(progress_callback).reports_view().drop_last() == old(
                progress_callback,
            ).reports_view(),
            self.stats_at(step as nat, final(progress_callback).reports_view().last()),
    {
        let mut process_steps: Vec<u64> = Vec::new();
        let mut i: usize = 0;
        while i < self.duration_process_steps.len()
            invariant
                i <= self.duration_process_steps@.len(),
                process_steps@ =~= self.duration_process_steps@.take(i as int),
            decreases self.duration_process_steps@.len() - i,
        {
            process_steps.push(self.duration_process_steps[i]);
            i = i + 1;
        }
        proof {
            assert(self.duration_process_steps@.take(i as int) =~= self.duration_process_steps@);
        }
        let stats = ProgressStats {
            step,
            num_steps: self.num_steps,
            read: self.duration_read,
            process: self.duration_process,
            process_steps,
            write: self.duration_write,
        };
        let ghost before = progress_callback.reports_view();
        progress_callback.update(stats);
        proof {
            assert(progress_callback.reports_view().drop_last() =~= before);
        }
    }

    /// Completes one step and reports the new step count.
    pub fn next(&mut self, progress_callback: &mut ProgressCallback)
        requires
            old(self).step_view() < usize::MAX,
        ensures
            final(self).step_view() == old(self).step_view() + 1,
            final(self).num_steps_view() == old(self).num_steps_view(),
            final(self).read_view() == old(self).read_view(),
            final(self).process_view() == old(self).process_view(),
            final(self).process_steps_view() == old(self).process_steps_view(),
            final(self).write_view() == old(self).write_view(),
            final(progress_callback).reports_view().len() == old(
                progress_callback,
            ).reports_view().len() + 1,
            final(progress_callback).reports_view().drop_last() == old(
                progress_callback,
            ).reports_view(),
            final(self).stats_at(
                old(self).step_view() + 1,
                final(progress_callback).reports_view().last(),
            ),
    {
        self.step = self.step + 1;
        self.update(self.step, progress_callback);
    }
}

} // verus!
