//! Benchmark runner.
//!
//! Wall-clock time alone is a poor way to judge a collector: the fastest
//! collector is always the one that never collects, right up until it runs
//! out of memory. So every row reports time and space: how much was
//! allocated, how much survived, how much of the run was spent inside the
//! collector, and the longest single pause.
//!
//! Every workload is verified after it finishes. A row that fails
//! verification is reported as such and its timings are meaningless.
//!
//! A benchmark names one of the candidate programs of
//! [`crate::workloads`] together with its arguments.

use crate::checks::makes_collectors;
use crate::clock;
use crate::collector::Collector;
use crate::mutator::Mutator;
use crate::stats::GcStats;
use crate::workloads as wl;
use vstd::prelude::*;

verus! {

/// A candidate program and its arguments.
#[derive(Clone, Copy, Debug, PartialEq, Eq, Structural)]
pub enum Program {
    /// [`wl::binary_trees`] with the given maximum depth.
    BinaryTrees { max_depth: u32 },
    /// [`wl::list_churn`].
    ListChurn { rounds: u32, len: u32, keep_every: u32, seed: u64 },
    /// [`wl::shared_dag`].
    SharedDag { parents: u32, children: u16, seed: u64 },
    /// [`wl::fragmentation`].
    Fragmentation { rounds: u32, live: u16, seed: u64 },
    /// [`wl::old_to_young`].
    OldToYoung { slots: u16, rounds: u32, seed: u64 },
    /// [`wl::cyclic_graph`].
    Cyclic { rounds: u32, ring: u32, seed: u64 },
    /// [`wl::deep_chain`] of the given length.
    DeepChain { len: u32 },
}

impl Program {
    /// The arguments are ones the program accepts: a tree no deeper than a
    /// 32-bit shift allows, and no empty list, ring or array that would then
    /// be used.
    pub open spec fn valid(&self) -> bool {
        match *self {
            Program::BinaryTrees { max_depth } => max_depth < 32,
            Program::ListChurn { rounds, len, .. } => rounds > 0 ==> len > 0,
            Program::SharedDag { .. } => true,
            Program::Fragmentation { .. } => true,
            Program::OldToYoung { slots, rounds, .. } => rounds > 0 ==> slots > 0,
            Program::Cyclic { rounds, ring, .. } => rounds > 0 ==> ring > 0,
            Program::DeepChain { len } => len > 0,
        }
    }

    /// Run the program and return its checksum.
    pub fn run<C: Collector>(&self, mu: &mut Mutator<C>) -> (r: u64)
        requires
            self.valid(),
            old(mu).wf(),
        ensures
            wl::restores(old(mu), final(mu)),
    {
        match *self {
            Program::BinaryTrees { max_depth } => wl::binary_trees(mu, max_depth),
            Program::ListChurn { rounds, len, keep_every, seed } => wl::list_churn(
                mu,
                rounds,
                len,
                keep_every,
                seed,
            ),
            Program::SharedDag { parents, children, seed } => wl::shared_dag(
                mu,
                parents,
                children,
                seed,
            ),
            Program::Fragmentation { rounds, live, seed } => wl::fragmentation(mu, rounds, live, seed),
            Program::OldToYoung { slots, rounds, seed } => wl::old_to_young(mu, slots, rounds, seed),
            Program::Cyclic { rounds, ring, seed } => wl::cyclic_graph(mu, rounds, ring, seed),
            Program::DeepChain { len } => wl::deep_chain(mu, len),
        }
    }
}

pub struct WorkloadSpec {
    pub name: &'static str,
    pub heap_bytes: usize,
    pub run: Program,
}

/// Describe one benchmark: a name, the heap it runs in, and the program.
pub fn spec(name: &'static str, heap_bytes: usize, run: Program) -> (r: WorkloadSpec)
    ensures
        r.name == name,
        r.heap_bytes == heap_bytes,
        r.run == run,
{
    WorkloadSpec { name, heap_bytes, run }
}

pub struct BenchRow {
    pub name: &'static str,
    pub heap_bytes: usize,
    /// Wall-clock time of the program, in nanoseconds.
    pub wall: u64,
    pub checksum: u64,
    pub stats: GcStats,
    pub live_bytes: u32,
    pub verified: bool,
    pub failure: Option<String>,
}

/// Run one benchmark against a freshly constructed collector, then check
/// the heap the program left behind.
fn run_one<C: Collector, F: Fn(usize) -> C>(mk: &F, s: &WorkloadSpec) -> (r: BenchRow)
    requires
        makes_collectors(*mk),
        s.run.valid(),
    ensures
        r.name == s.name,
        r.heap_bytes == s.heap_bytes,
        r.verified == r.failure is None,
{
    let gc = mk(s.heap_bytes);
    let mut mu = Mutator::new(gc);
    let start = clock::now();
    let checksum = s.run.run(&mut mu);
    let wall = clock::nanos_since(&start);

    mu.forget_unreachable();
    let report = mu.verify();
    let fault = mu.fault();
    let verified = report.ok() && fault.is_none();
    let failure = match fault {
        Some(m) => Some(m),
        None => if report.ok() {
            None
        } else {
            Some(report.describe())
        },
    };
    let stats = mu.stats().clone();
    BenchRow {
        name: s.name,
        heap_bytes: s.heap_bytes,
        wall,
        checksum,
        stats,
        live_bytes: mu.used_bytes(),
        verified,
        failure,
    }
}

/// Run each workload against a freshly constructed collector, one row per
/// workload, in order.
pub fn run_bench<C: Collector, F: Fn(usize) -> C>(mk: F, specs: Vec<WorkloadSpec>) -> (r: Vec<BenchRow>)
    requires
        makes_collectors(mk),
        forall|i: int| 0 <= i < specs@.len() ==> (#[trigger] specs@[i]).run.valid(),
    ensures
        r@.len() == specs@.len(),
        forall|i: int|
            0 <= i < r@.len() ==> (#[trigger] r@[i]).name == specs@[i].name && r@[i].heap_bytes
                == specs@[i].heap_bytes && (r@[i].verified == r@[i].failure is None),
{
    let mut rows: Vec<BenchRow> = Vec::new();
    let mut i: usize = 0;
    while i < specs.len()
        invariant
            makes_collectors(mk),
            forall|j: int| 0 <= j < specs@.len() ==> (#[trigger] specs@[j]).run.valid(),
            i <= specs@.len(),
            rows@.len() == i,
            forall|j: int|
                0 <= j < i ==> (#[trigger] rows@[j]).name == specs@[j].name && rows@[j].heap_bytes
                    == specs@[j].heap_bytes && (rows@[j].verified == rows@[j].failure is None),
        decreases specs@.len() - i,
    {
        let row = run_one(&mk, &specs[i]);
        rows.push(row);
        i = i + 1;
    }
    rows
}

} // verus!
