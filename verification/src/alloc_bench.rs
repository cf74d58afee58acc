//! Allocator benchmark programs.
//!
//! With no collector involved, what matters is allocator throughput and the
//! shape of the heap it leaves behind: the largest single free block as a
//! share of all free bytes. When it is everything, any object that fits in
//! the total fits; as it falls, the heap fills with holes that are each too
//! small to use.

use crate::allocator::{Allocator, FitPolicy};
use crate::clock;
use crate::heap::Handle;
use vstd::prelude::*;

verus! {

/// The arena every program runs in: 4 MiB.
pub const BENCH_HEAP: usize = 4194304;

/// One step of a 13/7/17 xorshift.
pub open spec fn xorshift13(x: u64) -> u64 {
    let a = x ^ (x << 13u64);
    let b = a ^ (a >> 7u64);
    b ^ (b << 17u64)
}

/// Advance `state` and return its new value.
pub fn rng(state: &mut u64) -> (r: u64)
    ensures
        *final(state) == xorshift13(*old(state)),
        r == *final(state),
{
    *state = *state ^ (*state << 13);
    *state = *state ^ (*state >> 7);
    *state = *state ^ (*state << 17);
    *state
}

/// The larger of `a` and `b`.
fn max_u32(a: u32, b: u32) -> (r: u32)
    ensures
        r == if a > b {
            a
        } else {
            b
        },
{
    if a > b {
        a
    } else {
        b
    }
}

/// Fill the heap with cells and never free: pure bump-pointer throughput.
/// Returns the most bytes in use at once.
///
/// No heap holds more cells than it has 16-byte units, so the loop stops
/// there at the latest.
///
/// Nothing is freed, so the peak is simply the bytes in use at the end; it
/// is zero only if not even the first cell fitted, which cannot happen while
/// there is virgin room for one.
pub fn bump_only(a: &mut Allocator) -> (r: u32)
    requires
        old(a).wf(),
    ensures
        final(a).wf(),
        final(a).spec_heap().cap() == old(a).spec_heap().cap(),
        (r == 0 && final(a).spec_used() == old(a).spec_used()) || (r > 0 && r == final(a).spec_used()),
        old(a).spec_heap().cap() >= 64 && old(a).spec_bump() + 64 <= old(a).spec_heap().cap() ==> r > 0,
{
    let mut peak: u32 = 0;
    let limit = a.capacity() / 16;
    let mut n: u32 = 0;
    assert(crate::heap::spec_size_for(0, 48) == 64);
    assert(old(a).spec_heap().cap() >= 64 ==> limit >= 4);
    while n < limit
        invariant_except_break
            a.wf(),
            old(a).spec_heap().cap() >= 64 ==> limit >= 4,
            crate::heap::spec_size_for(0, 48) == 64,
            a.spec_heap().cap() == old(a).spec_heap().cap(),
            limit == old(a).spec_heap().cap() / 16,
            n == 0 ==> peak == 0 && a.spec_used() == old(a).spec_used() && a.spec_bump() == old(a).spec_bump(),
            n > 0 ==> peak > 0 && peak == a.spec_used(),
        ensures
            a.wf(),
            a.spec_heap().cap() == old(a).spec_heap().cap(),
            (peak == 0 && a.spec_used() == old(a).spec_used()) || (peak > 0 && peak == a.spec_used()),
            old(a).spec_heap().cap() >= 64 && old(a).spec_bump() + 64 <= old(a).spec_heap().cap() ==> peak > 0,
        decreases limit - n,
    {
        let before = a.used_bytes();
        let got = a.allocate(0, 48);
        if got.is_none() {
            break;
        }
        let u = a.used_bytes();
        assert(u >= before && u > 0);
        peak = max_u32(peak, u);
        n = n + 1;
    }
    peak
}

/// Allocate a generation, free it entirely, repeat. Every round should
/// reuse the same memory.
pub fn generational_churn(a: &mut Allocator) -> (r: u32)
    requires
        old(a).wf(),
    ensures
        final(a).wf(),
{
    let mut peak: u32 = 0;
    let mut round: u32 = 0;
    while round < 64
        invariant
            a.wf(),
        decreases 64 - round,
    {
        let mut live: Vec<Handle> = Vec::new();
        let mut k: u32 = 0;
        while k < 4096
            invariant
                a.wf(),
            decreases 4096 - k,
        {
            match a.allocate(2, 40) {
                Some(h) => live.push(h),
                None => {
                    break;
                },
            }
            k = k + 1;
        }
        peak = max_u32(peak, a.used_bytes());
        let mut i: usize = 0;
        while i < live.len()
            invariant
                a.wf(),
                i <= live@.len(),
            decreases live@.len() - i,
        {
            let h = live[i];
            if a.can_free(h) {
                a.free(h);
            }
            i = i + 1;
        }
        a.coalesce_all();
        round = round + 1;
    }
    peak
}

/// Mixed sizes with random frees and no coalescing: the pathological case
/// for a non-moving allocator.
pub fn fragmenting_churn(a: &mut Allocator) -> (r: u32)
    requires
        old(a).wf(),
    ensures
        final(a).wf(),
{
    let mut seed: u64 = 0x5EED;
    let mut live: Vec<Handle> = Vec::new();
    let mut peak: u32 = 0;
    let mut step: u32 = 0;
    while step < 200_000
        invariant
            a.wf(),
        decreases 200_000 - step,
    {
        if live.len() > 0 && rng(&mut seed) % 100 < 48 {
            let idx = (rng(&mut seed) % live.len() as u64) as usize;
            let h = live.swap_remove(idx);
            if a.can_free(h) {
                a.free(h);
            }
        } else {
            let ndata = 8 + (rng(&mut seed) % 24) as u32 * 16;
            let nrefs = (rng(&mut seed) % 4) as u16;
            if let Some(h) = a.allocate(nrefs, ndata) {
                live.push(h);
                peak = max_u32(peak, a.used_bytes());
            }
        }
        step = step + 1;
    }
    peak
}

/// An allocator benchmark program.
#[derive(Clone, Copy, Debug, PartialEq, Eq, Structural)]
pub enum AllocProgram {
    BumpOnly,
    GenerationalChurn,
    FragmentingChurn,
}

/// What one allocator benchmark measured.
pub struct AllocRow {
    pub name: &'static str,
    pub policy: FitPolicy,
    /// Wall-clock time, in nanoseconds.
    pub elapsed: u64,
    pub allocations: u64,
    pub failures: u64,
    pub peak_used: u32,
    pub free_bytes: u32,
    pub largest_free: u32,
    pub splits: u64,
    pub merges: u64,
    pub reused: u64,
    /// Why the heap failed validation afterwards, if it did.
    pub inconsistency: Option<String>,
}

/// Run `program` against a fresh allocator with the given fit policy, then
/// validate the heap it leaves behind.
pub fn run(name: &'static str, policy: FitPolicy, program: AllocProgram) -> (r: AllocRow)
    ensures
        r.name == name,
        r.policy == policy,
        r.free_bytes <= u32::MAX,
{
    let mut a = Allocator::with_policy(BENCH_HEAP, policy);
    let start = clock::now();
    let peak_used = match program {
        AllocProgram::BumpOnly => bump_only(&mut a),
        AllocProgram::GenerationalChurn => generational_churn(&mut a),
        AllocProgram::FragmentingChurn => fragmenting_churn(&mut a),
    };
    let elapsed = clock::nanos_since(&start);
    let inconsistency = match a.validate() {
        Ok(()) => None,
        Err(e) => Some(e),
    };
    let allocations = a.stats().allocations;
    let failures = a.stats().failures;
    let splits = a.stats().splits;
    let merges = a.stats().merges;
    let reused = a.stats().reused;
    AllocRow {
        name,
        policy,
        elapsed,
        allocations,
        failures,
        peak_used,
        free_bytes: a.free_bytes(),
        largest_free: a.largest_free_block(),
        splits,
        merges,
        reused,
        inconsistency,
    }
}

} // verus!
