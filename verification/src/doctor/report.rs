//! What is found out about a run.

use super::waste::WasteTest;
use crate::double::Double;
use vstd::prelude::*;

verus! {

/// Version of the report as it is stored.
pub const SCHEMA_VERSION: u32 = 3;

/// All that is found out about a run.
pub struct DoctorReport {
    pub schema: u32,
    pub rstest_version: String,
    pub workers: usize,
    pub wall_seconds: Double,
    pub tests: usize,
    pub test_time_seconds: Double,
    pub cpu_time_seconds: Double,
    pub wait_bound: Option<WaitBound>,
    pub parallel_floor: Option<ParallelFloor>,
    pub parallel_efficiency: Option<ParallelEfficiency>,
    pub fixtures: Vec<FixtureEntry>,
    pub slowest_files: Vec<FileEntry>,
    pub coverage_waste: Option<CoverageWaste>,
    pub leaks: Vec<Leak>,
}

/// Slow tests that can be deleted together without losing coverage.
pub struct CoverageWaste {
    /// How long all of them took.
    pub wasted_seconds: Double,
    /// How many they are.
    pub redundant_tests: usize,
    /// What is told of the first of them.
    pub tests: Vec<WasteTest>,
}

/// A test that left threads or files open.
pub struct Leak {
    pub nodeid: String,
    pub threads: i64,
    pub fds: i64,
}

/// How much of the time tests were waiting.
pub struct WaitBound {
    pub wait_seconds: Double,
    pub wait_pct: Double,
    pub tests: Vec<WaitTest>,
}

/// A test that was mostly waiting.
pub struct WaitTest {
    pub nodeid: String,
    pub duration: Double,
    pub wait: Double,
}

/// Tests that take longer than a worker's share.
pub struct ParallelFloor {
    pub longest_seconds: Double,
    pub ideal_share_seconds: Double,
    pub gate_tests: Vec<GateTest>,
}

/// A test that takes longer than a worker's share.
pub struct GateTest {
    pub nodeid: String,
    pub duration: Double,
}

/// What running in parallel gained.
pub struct ParallelEfficiency {
    pub realized_speedup: Double,
    pub ideal_speedup: usize,
    pub efficiency_pct: Double,
    pub workers_busy: Vec<WorkerLoad>,
    pub imbalance_pct: Double,
    pub long_pole_seconds: Double,
}

/// How long a worker was busy.
pub struct WorkerLoad {
    pub worker: String,
    pub busy_seconds: Double,
    pub tests: usize,
}

/// How long a fixture took in all.
pub struct FixtureEntry {
    pub name: String,
    pub scope: String,
    pub count: u64,
    pub total_seconds: Double,
}

/// How long the tests of a file took in all.
pub struct FileEntry {
    pub file: String,
    pub total_seconds: Double,
    pub pct: Double,
}

} // verus!
