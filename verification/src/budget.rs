//! Memory-budget enforcement at stage boundaries: the resident set size
//! of the process is sampled and compared with a cap.
use vstd::prelude::*;

verus! {

/// Stage-boundary memory-cap guard.
#[derive(Debug, Clone, Copy)]
pub struct BudgetGuard {
    cap_bytes: u64,
    stage_label: &'static str,
}

/// Memory-budget overrun.
#[derive(Debug)]
pub enum MemoryError {
    /// The process used more memory than the cap at a stage boundary.
    CapExceeded {
        /// Active cap in bytes.
        cap: u64,
        /// Resident set size at the check, in bytes.
        actual: u64,
        /// Stage label of the guard that fired.
        stage: &'static str,
    },
}

/// `memory_stats::memory_stats()`: the process's resident set size in
/// bytes, or `None` when the platform sampler gives nothing. The value is
/// a measurement of the running process, so nothing more is stated.
#[verifier::external_body]
fn sample_rss() -> (r: Option<u64>) {
    match memory_stats::memory_stats() {
        Some(s) => Some(s.physical_mem as u64),
        None => None,
    }
}

impl BudgetGuard {
    /// The cap in bytes.
    pub closed spec fn cap(&self) -> u64 {
        self.cap_bytes
    }

    /// The stage label.
    pub closed spec fn label(&self) -> &'static str {
        self.stage_label
    }

    /// A guard with a cap of `cap_mb` mebibytes, labelled `stage_label`.
    pub fn new(cap_mb: u32, stage_label: &'static str) -> (r: BudgetGuard)
        ensures
            r.cap() == cap_mb as int * 1024 * 1024,
            r.label() == stage_label,
    {
        let cap = cap_mb as u64;
        assert(cap * 1048576 <= u64::MAX) by (nonlinear_arith)
            requires
                cap <= 0xffff_ffff,
        ;
        BudgetGuard { cap_bytes: cap * 1048576, stage_label }
    }

    /// The cap in bytes.
    pub fn cap_bytes(&self) -> (r: u64)
        ensures
            r == self.cap(),
    {
        self.cap_bytes
    }

    /// The stage label.
    pub fn stage_label(&self) -> (r: &'static str)
        ensures
            r == self.label(),
    {
        self.stage_label
    }

    /// The current resident set size in bytes, or zero when it cannot be
    /// sampled (treated as within any cap).
    pub fn current_rss_bytes() -> u64 {
        match sample_rss() {
            Some(used) => used,
            None => 0,
        }
    }

    /// Judges a sample of `used` bytes: `Ok(used)` within the cap,
    /// [`MemoryError::CapExceeded`] above it.
    pub fn check_sample(&self, used: u64) -> (r: Result<u64, MemoryError>)
        ensures
            used <= self.cap() ==> r == Ok::<u64, MemoryError>(used),
            used > self.cap() ==> r == Err::<u64, MemoryError>(
                MemoryError::CapExceeded { cap: self.cap(), actual: used, stage: self.label() },
            ),
    {
        if used > self.cap_bytes {
            return Err(
                MemoryError::CapExceeded { cap: self.cap_bytes, actual: used, stage: self.stage_label },
            );
        }
        Ok(used)
    }

    /// Samples the resident set size and judges it against the cap.
    pub fn check(&self) -> (r: Result<u64, MemoryError>)
        ensures
            r matches Ok(used) ==> used <= self.cap(),
            r matches Err(MemoryError::CapExceeded { cap, actual, stage }) ==> cap == self.cap()
                && actual > self.cap() && stage == self.label(),
    {
        let used = Self::current_rss_bytes();
        self.check_sample(used)
    }
}

} // verus!
