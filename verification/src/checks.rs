//! Conformance checks.
//!
//! Each check builds an object graph through the mutator, drives the
//! collector, and then compares the real heap against the independently
//! maintained model. A failure names the object and the path that broke.
//!
//! Every check takes a factory so it can choose its own heap size: several
//! of them depend on the heap being far smaller than the total bytes
//! allocated. A check answers `Ok` when the collector did what it must, and
//! otherwise says, in words, what went wrong.

use crate::collector::Collector;
use crate::mutator::Mutator;
use crate::heap::Handle;
use crate::model::reach_bytes;
use crate::roots::RootSlot;
use crate::stats::GcStats;
use crate::verify::{agrees, faithful, push_num, spec_digits};
use crate::workloads as wl;
use vstd::prelude::*;
use vstd::string::StringExecFns;

verus! {

/// 1 MiB, the default for checks with no particular size requirement.
pub const SMALL_HEAP: usize = 1048576;
/// 8 MiB.
pub const MEDIUM_HEAP: usize = 8388608;
/// 32 MiB, for the deep structure check.
pub const LARGE_HEAP: usize = 33554432;

/// `mk` builds, for any heap size, a consistent collector whose shadow
/// stack is empty.
pub open spec fn makes_collectors<C: Collector, F: Fn(usize) -> C>(mk: F) -> bool {
    &&& forall|n: usize| #[trigger] mk.requires((n,))
    &&& forall|n: usize, c: C|
        #[trigger] mk.ensures((n,), c) ==> c.gc_inv() && c.gc_roots().stack().len() == 0
}

/// A fresh mutator over a collector of `size` bytes.
fn start<C: Collector, F: Fn(usize) -> C>(mk: &F, size: usize) -> (mu: Mutator<C>)
    requires
        makes_collectors(*mk),
    ensures
        mu.wf(),
        mu.depth() == 0,
{
    let gc = mk(size);
    Mutator::new(gc)
}

/// The heap agrees with the model, or the report of how it does not.
fn consistent<C: Collector>(mu: &mut Mutator<C>) -> (r: Result<(), String>)
    requires
        old(mu).wf(),
    ensures
        *final(mu) == *old(mu),
        r is Ok ==> old(mu).spec_fault() is None,
        old(mu).spec_fault() matches Some(m) ==> r matches Err(e) && e@ == m,
        r is Ok ==> agrees(old(mu).spec_gc().gc_heap(), old(mu).spec_gc().gc_roots(), old(mu).spec_model()),
        old(mu).spec_fault() is None && (exists|at: Map<u64, Handle>| faithful(old(mu).spec_gc().gc_heap(), old(mu).spec_gc().gc_roots(), old(mu).spec_model(), at))
            ==> r is Ok,
{
    if let Some(m) = mu.fault() {
        return Err(m);
    }
    match mu.assert_consistent() {
        Ok(()) => Ok(()),
        Err(report) => Err(report.describe()),
    }
}

/// The heap agrees with the model and holds nothing unreachable.
fn reclaimed<C: Collector>(mu: &mut Mutator<C>) -> (r: Result<(), String>)
    requires
        old(mu).wf(),
    ensures
        *final(mu) == *old(mu),
        r is Ok ==> old(mu).spec_fault() is None,
        old(mu).spec_fault() matches Some(m) ==> r matches Err(e) && e@ == m,
        r is Ok ==> agrees(old(mu).spec_gc().gc_heap(), old(mu).spec_gc().gc_roots(), old(mu).spec_model())
            && old(mu).spec_gc().gc_used() == reach_bytes(&old(mu).spec_model(), old(mu).spec_model().table_len()),
        old(mu).spec_fault() is None && (exists|at: Map<u64, Handle>| faithful(old(mu).spec_gc().gc_heap(), old(mu).spec_gc().gc_roots(), old(mu).spec_model(), at))
            && old(mu).spec_gc().gc_used() == reach_bytes(&old(mu).spec_model(), old(mu).spec_model().table_len())
            ==> r is Ok,
{
    if let Some(m) = mu.fault() {
        return Err(m);
    }
    match mu.assert_fully_reclaimed() {
        Ok(()) => Ok(()),
        Err(report) => Err(report.describe()),
    }
}

/// `n` in decimal.
pub open spec fn dec(n: int) -> Seq<char> {
    spec_digits(n as nat, 10)
}

/// `a`, then `x` in decimal, then `b`.
fn text1(a: &str, x: u64, b: &str) -> (r: String)
    ensures
        r@ == a@ + dec(x as int) + b@,
{
    let mut s = String::from_str(a);
    push_num(&mut s, x);
    s.append(b);
    s
}

/// `a`, `x`, `b`, `y`, `c`, the numbers in decimal.
fn text2(a: &str, x: u64, b: &str, y: u64, c: &str) -> (r: String)
    ensures
        r@ == a@ + dec(x as int) + b@ + dec(y as int) + c@,
{
    let mut s = text1(a, x, b);
    push_num(&mut s, y);
    s.append(c);
    s
}

/// `a`, `x`, `b`, `y`, `c`, `z`, `d`, the numbers in decimal.
fn text3(a: &str, x: u64, b: &str, y: u64, c: &str, z: u64, d: &str) -> (r: String)
    ensures
        r@ == a@ + dec(x as int) + b@ + dec(y as int) + c@ + dec(z as int) + d@,
{
    let mut s = text2(a, x, b, y, c);
    push_num(&mut s, z);
    s.append(d);
    s
}

/// A list of numbers the way its debug form reads, without the brackets:
/// `1, 2, 3`.
pub open spec fn numbers_text(ns: Seq<u32>) -> Seq<char>
    decreases ns.len(),
{
    if ns.len() == 0 {
        Seq::empty()
    } else if ns.len() == 1 {
        dec(ns[0] as int)
    } else {
        numbers_text(ns.drop_last()) + seq![',', ' '] + dec(ns.last() as int)
    }
}

/// Append a list of numbers the way its debug form reads: `[1, 2, 3]`.
fn push_numbers(s: &mut String, ns: &Vec<u32>)
    ensures
        final(s)@ == old(s)@ + seq!['['] + numbers_text(ns@) + seq![']'],
{
    proof {
        reveal_strlit("[");
        reveal_strlit(", ");
        reveal_strlit("]");
    }
    s.append("[");
    let mut i: usize = 0;
    while i < ns.len()
        invariant
            i <= ns@.len(),
            s@ == old(s)@ + seq!['['] + numbers_text(ns@.subrange(0, i as int)),
        decreases ns@.len() - i,
    {
        let ghost before = s@;
        if i > 0 {
            s.append(", ");
        }
        push_num(s, ns[i] as u64);
        proof {
            let sub = ns@.subrange(0, i + 1);
            assert(sub.drop_last() =~= ns@.subrange(0, i as int));
            if i == 0 {
                assert(ns@.subrange(0, 0) =~= Seq::<u32>::empty());
                assert(s@ =~= old(s)@ + seq!['['] + numbers_text(sub));
            } else {
                reveal_strlit(", ");
                assert(", "@ =~= seq![',', ' ']);
                assert(s@ =~= before + seq![',', ' '] + dec(ns@[i as int] as int));
                assert(s@ =~= old(s)@ + seq!['['] + numbers_text(sub));
            }
        }
        i = i + 1;
    }
    s.append("]");
    assert(ns@.subrange(0, ns@.len() as int) =~= ns@);
}

/// What is wrong with the counters `s` of a collector that still reaches
/// `live` objects after every other one it allocated should have been
/// freed, or nothing.
pub open spec fn reported_work_fault(s: GcStats, live: u64) -> Option<Seq<char>> {
    if s.allocations == 0 {
        Some("no allocations were counted"@)
    } else if s.allocations != live + s.objects_freed {
        Some(
            "allocations counted ("@ + dec(s.allocations as int) + ") should equal the "@ + dec(live as int)
                + " objects still reachable plus the "@ + dec(s.objects_freed as int)
                + " objects reported freed"@,
        )
    } else if s.collections == 0 {
        Some(dec(s.bytes_allocated as int) + " bytes were allocated into a 1048576 byte heap without a single collection"@)
    } else if s.bytes_freed == 0 {
        Some(
            dec(s.collections as int) + " collections ran and freed "@ + dec(s.objects_freed as int)
                + " objects but reported reclaiming no bytes"@,
        )
    } else {
        None
    }
}

/// Judge a collector's counters: `Ok` exactly when they account for every
/// allocation, show a collection, and show bytes reclaimed; otherwise what
/// is wrong with them.
pub fn judge_reported_work(s: &GcStats, live: u64) -> (r: Result<(), String>)
    ensures
        match r {
            Ok(()) => reported_work_fault(*s, live) is None,
            Err(m) => reported_work_fault(*s, live) == Some(m@),
        },
{
    proof {
        reveal_strlit("");
    }
    if s.allocations == 0 {
        return fail("no allocations were counted");
    }
    if s.allocations as u128 != live as u128 + s.objects_freed as u128 {
        return Err(
            text3(
                "allocations counted (",
                s.allocations,
                ") should equal the ",
                live,
                " objects still reachable plus the ",
                s.objects_freed,
                " objects reported freed",
            ),
        );
    }
    if s.collections == 0 {
        return Err(
            text1("", s.bytes_allocated, " bytes were allocated into a 1048576 byte heap without a single collection"),
        );
    }
    if s.bytes_freed == 0 {
        return Err(
            text2("", s.collections, " collections ran and freed ", s.objects_freed, " objects but reported reclaiming no bytes"),
        );
    }
    Ok(())
}

/// `Ok`, unless the program asked for something that could not be carried
/// out, in which case that request, in words.
fn sound<C: Collector>(mu: &Mutator<C>) -> (r: Result<(), String>)
    ensures
        r is Ok <==> mu.spec_fault() is None,
        r matches Err(m) ==> mu.spec_fault() == Some(m@),
{
    match mu.fault() {
        Some(m) => Err(m),
        None => Ok(()),
    }
}

/// A failure with a fixed message.
fn fail(msg: &str) -> (r: Result<(), String>)
    ensures
        r matches Err(m) && m@ == msg@,
{
    Err(String::from_str(msg))
}

/// Objects can be allocated, written, and read back unchanged.
pub fn allocates_and_reads_back<C: Collector, F: Fn(usize) -> C>(mk: F) -> (r: Result<(), String>)
    requires
        makes_collectors(mk),
{
    let mut mu = start(&mk, SMALL_HEAP);
    let base = mu.root_depth();
    let mut i: u64 = 0;
    while i < 64
        invariant
            mu.wf(),
            base == 0,
            mu.depth() == i,
            i <= 64,
        decreases 64 - i,
    {
        let o = mu.allocate(2, 16);
        mu.write_u64(o, 0, i * 7 + 1);
        mu.write_u64(o, 1, !i);
        i = i + 1;
    }
    let mut n: u64 = 0;
    while n < 64
        invariant
            mu.wf(),
            base == 0,
            mu.depth() == 64,
            n <= 64,
        decreases 64 - n,
    {
        let slot = RootSlot(base + n as usize);
        if mu.read_u64(slot, 0) != n * 7 + 1 {
            return Err(text1("object ", n, " came back with a different payload than was written to it"));
        }
        if mu.read_u64(slot, 1) != !n {
            return Err(text1("object ", n, ": second payload word differs"));
        }
        n = n + 1;
    }
    consistent(&mut mu)
}

/// Everything reachable from the roots survives a collection.
pub fn retains_reachable<C: Collector, F: Fn(usize) -> C>(mk: F) -> (r: Result<(), String>)
    requires
        makes_collectors(mk),
{
    let mut mu = start(&mk, MEDIUM_HEAP);
    let base = mu.root_depth();
    let tree = wl::make_tree(&mut mu, 8);
    let before = wl::check_tree(&mut mu, tree);
    mu.set_global("tree", tree);
    mu.unwind(base);
    let mut round: u32 = 1;
    while round <= 3
        invariant
            mu.wf(),
            mu.depth() == base,
        decreases 4 - round,
    {
        mu.collect();
        match consistent(&mut mu) {
            Ok(()) => {},
            Err(e) => {
                return Err(e);
            },
        }
        let tree = mu.global("tree");
        let after = wl::check_tree(&mut mu, tree);
        mu.unwind(base);
        if before != after {
            return Err(text1("the live tree's contents changed after collection ", round as u64, ""));
        }
        round = round + 1;
    }
    sound(&mu)
}

/// An object reachable only through a global is a root.
pub fn globals_are_roots<C: Collector, F: Fn(usize) -> C>(mk: F) -> (r: Result<(), String>)
    requires
        makes_collectors(mk),
{
    let mut mu = start(&mk, SMALL_HEAP);
    let base = mu.root_depth();
    let kept = mu.allocate(1, 8);
    mu.write_u64(kept, 0, 0xABCD_EF01);
    let child = mu.allocate(0, 8);
    mu.write_u64(child, 0, 0x1234_5678);
    mu.store(kept, 0, child);
    mu.set_global("only_reference", kept);
    mu.unwind(base);

    // Allocate enough garbage to force at least one collection.
    let mut rng = wl::Rng::new(1);
    let mut k: u32 = 0;
    while k < 200
        invariant
            mu.wf(),
            mu.depth() == base,
        decreases 200 - k,
    {
        let head = wl::build_list(&mut mu, 16, &mut rng);
        let _ = wl::walk_list(&mut mu, head, 16);
        mu.unwind(base);
        k = k + 1;
    }
    mu.collect();
    match consistent(&mut mu) {
        Ok(()) => {},
        Err(e) => {
            return Err(e);
        },
    }
    let kept = mu.global("only_reference");
    if mu.read_u64(kept, 0) != 0xABCD_EF01 {
        return fail("the global's object was corrupted");
    }
    let child = mu.load(kept, 0);
    if mu.is_null(child) {
        return fail("the global's object lost its only child");
    }
    if mu.read_u64(child, 0) != 0x1234_5678 {
        return fail("the child was corrupted");
    }
    mu.unwind(base);
    sound(&mu)
}

/// Unreachable objects are reclaimed, and nothing else is.
///
/// The live set is replaced wholesale between collections, so each round
/// the objects that were alive during the previous collection are garbage
/// during this one.
pub fn reclaims_unreachable<C: Collector, F: Fn(usize) -> C>(mk: F) -> (r: Result<(), String>)
    requires
        makes_collectors(mk),
{
    let mut mu = start(&mk, MEDIUM_HEAP);
    let base = mu.root_depth();
    let mut rng = wl::Rng::new(7);
    let mut round: u32 = 1;
    while round <= 4
        invariant
            mu.wf(),
            mu.depth() == base,
        decreases 5 - round,
    {
        let keep = wl::build_list(&mut mu, 32, &mut rng);
        mu.set_global("keep", keep);
        mu.unwind(base);
        let mut k: u32 = 0;
        while k < 40
            invariant
                mu.wf(),
                mu.depth() == base,
            decreases 40 - k,
        {
            let head = wl::build_list(&mut mu, 32, &mut rng);
            let _ = wl::walk_list(&mut mu, head, 32);
            mu.unwind(base);
            k = k + 1;
        }
        mu.collect();
        mu.forget_unreachable();
        match reclaimed(&mut mu) {
            Ok(()) => {},
            Err(e) => {
                return Err(e);
            },
        }
        round = round + 1;
    }
    sound(&mu)
}

/// Shared subgraphs stay shared: one object, many referrers.
pub fn preserves_sharing<C: Collector, F: Fn(usize) -> C>(mk: F) -> (r: Result<(), String>)
    requires
        makes_collectors(mk),
{
    let mut mu = start(&mk, MEDIUM_HEAP);
    let _ = wl::shared_dag(&mut mu, 400, 16, 99);
    mu.collect();
    match consistent(&mut mu) {
        Ok(()) => {},
        Err(e) => {
            return Err(e);
        },
    }
    mu.collect();
    consistent(&mut mu)
}

/// Groups of objects that reference each other but nothing else are garbage.
pub fn collects_cycles<C: Collector, F: Fn(usize) -> C>(mk: F) -> (r: Result<(), String>)
    requires
        makes_collectors(mk),
{
    let mut mu = start(&mk, MEDIUM_HEAP);
    let base = mu.root_depth();
    let mut rng = wl::Rng::new(11);
    mu.collect();
    let baseline = mu.used_bytes();
    let mut k: u32 = 0;
    while k < 100
        invariant
            mu.wf(),
            mu.depth() == base,
        decreases 100 - k,
    {
        let ring = wl::make_ring(&mut mu, 24, &mut rng);
        let _ = wl::walk_list(&mut mu, ring, 24);
        mu.unwind(base);
        k = k + 1;
    }
    mu.collect();
    mu.forget_unreachable();
    match consistent(&mut mu) {
        Ok(()) => {},
        Err(e) => {
            return Err(e);
        },
    }
    let after = mu.used_bytes();
    if after > baseline {
        return Err(
            text2(
                "2400 objects were allocated in rings and then abandoned, but ",
                after as u64,
                " bytes are still in use where ",
                baseline as u64,
                " were before \u{2014} objects that refer to each other are not reachable unless something outside the group refers in",
            ),
        );
    }
    sound(&mu)
}

/// Tracing a very long chain must not depend on the native call stack.
pub fn traces_deep_structures<C: Collector, F: Fn(usize) -> C>(mk: F) -> (r: Result<(), String>)
    requires
        makes_collectors(mk),
{
    let mut mu = start(&mk, LARGE_HEAP);
    let expected = wl::deep_chain(&mut mu, 120_000);
    mu.collect();
    match consistent(&mut mu) {
        Ok(()) => {},
        Err(e) => {
            return Err(e);
        },
    }
    let base = mu.root_depth();
    let head = mu.global("deep_chain");
    let actual = wl::walk_list(&mut mu, head, 120_000);
    mu.unwind(base);
    if expected != actual {
        return fail("the deep chain's contents changed across collection");
    }
    sound(&mu)
}

/// A live set of constant size occupies constant space, collection after
/// collection.
pub fn stable_across_repeated_collections<C: Collector, F: Fn(usize) -> C>(mk: F) -> (r: Result<(), String>)
    requires
        makes_collectors(mk),
{
    let mut mu = start(&mk, MEDIUM_HEAP);
    let base = mu.root_depth();
    let tree = wl::make_tree(&mut mu, 9);
    mu.set_global("tree", tree);
    mu.unwind(base);
    mu.collect();
    mu.forget_unreachable();
    let settled = mu.used_bytes();
    let mut footprints: Vec<u32> = vec![settled];
    let mut round: u32 = 2;
    while round <= 8
        invariant
            mu.wf(),
            mu.depth() == base,
        decreases 9 - round,
    {
        let tree = wl::make_tree(&mut mu, 9);
        mu.set_global("tree", tree);
        mu.unwind(base);
        mu.collect();
        mu.forget_unreachable();
        match consistent(&mut mu) {
            Ok(()) => {},
            Err(e) => {
                return Err(e);
            },
        }
        let now = mu.used_bytes();
        footprints.push(now);
        if now != settled {
            let mut m = text3(
                "collection ",
                round as u64,
                " left ",
                now as u64,
                " bytes in use where collection 1 left ",
                settled as u64,
                ", and the live set is the same shape and size every round. Footprint after each collection: ",
            );
            push_numbers(&mut m, &footprints);
            return Err(m);
        }
        round = round + 1;
    }
    sound(&mu)
}

/// A workload that allocates far more than the heap holds still finishes.
pub fn runs_in_a_small_heap<C: Collector, F: Fn(usize) -> C>(mk: F) -> (r: Result<(), String>)
    requires
        makes_collectors(mk),
{
    let heap: usize = 262144;
    let mut mu = start(&mk, heap);
    let base = mu.root_depth();
    let mut rng = wl::Rng::new(23);
    let mut round: u32 = 0;
    while round < 2000
        invariant
            mu.wf(),
            mu.depth() == base,
        decreases 2000 - round,
    {
        let head = wl::build_list(&mut mu, 24, &mut rng);
        let _ = wl::walk_list(&mut mu, head, 24);
        mu.unwind(base);
        if round % 250 == 0 {
            mu.forget_unreachable();
            match consistent(&mut mu) {
                Ok(()) => {},
                Err(e) => {
                    return Err(e);
                },
            }
        }
        round = round + 1;
    }
    let allocated = mu.stats().bytes_allocated;
    if allocated <= (heap as u64) * 4 {
        return Err(
            text2(
                "expected the workload to allocate several times the heap size, but it only allocated ",
                allocated,
                " bytes into a ",
                heap as u64,
                " byte heap",
            ),
        );
    }
    mu.collect();
    mu.forget_unreachable();
    reclaimed(&mut mu)
}

/// The collector's own counters agree with what it actually did.
pub fn reports_its_work<C: Collector, F: Fn(usize) -> C>(mk: F) -> (r: Result<(), String>)
    requires
        makes_collectors(mk),
{
    let mut mu = start(&mk, SMALL_HEAP);
    let base = mu.root_depth();
    let mut rng = wl::Rng::new(31);
    let mut k: u32 = 0;
    while k < 400
        invariant
            mu.wf(),
            mu.depth() == base,
        decreases 400 - k,
    {
        let head = wl::build_list(&mut mu, 16, &mut rng);
        let _ = wl::walk_list(&mut mu, head, 16);
        mu.unwind(base);
        k = k + 1;
    }
    mu.collect();
    mu.forget_unreachable();
    if let Some(m) = mu.fault() {
        return Err(m);
    }
    let live = mu.model().len();
    judge_reported_work(mu.stats(), live as u64)
}

/// Interleaving allocation with root stack churn must not lose objects.
pub fn survives_root_churn<C: Collector, F: Fn(usize) -> C>(mk: F) -> (r: Result<(), String>)
    requires
        makes_collectors(mk),
{
    let mut mu = start(&mk, SMALL_HEAP);
    let base = mu.root_depth();
    let mut rng = wl::Rng::new(41);
    let anchor = mu.allocate(4, 8);
    mu.set_global("anchor", anchor);
    mu.unwind(base);
    let mut round: u32 = 0;
    while round < 2000
        invariant
            mu.wf(),
            mu.depth() == base,
        decreases 2000 - round,
    {
        let a = mu.global("anchor");
        let o = mu.allocate(2, 8);
        mu.write_u64(o, 0, round as u64);
        // Half the time the object is retained; the rest becomes garbage as
        // soon as the stack unwinds.
        if rng.next_u64() % 2 == 0 {
            mu.store(a, (round % 4) as u16, o);
        }
        let spare = mu.dup(o);
        mu.assign(spare, a);
        mu.unwind(base);
        round = round + 1;
    }
    mu.collect();
    mu.forget_unreachable();
    reclaimed(&mut mu)
}

/// Every store through the collector reaches its write barrier.
pub fn write_barrier_is_reached<C: Collector, F: Fn(usize) -> C>(mk: F) -> (r: Result<(), String>)
    requires
        makes_collectors(mk),
{
    let mut mu = start(&mk, MEDIUM_HEAP);
    let _ = wl::old_to_young(&mut mu, 32, 500, 53);
    if mu.stats().barrier_hits == 0 {
        return fail("500 reference stores happened without the write barrier being invoked once");
    }
    mu.collect();
    consistent(&mut mu)
}

/// Old objects pointing at young ones keep them alive across a minor
/// collection, which by definition does not trace the old generation.
pub fn old_to_young_edges_survive<C: Collector, F: Fn(usize) -> C>(mk: F) -> (r: Result<(), String>)
    requires
        makes_collectors(mk),
{
    let mut mu = start(&mk, MEDIUM_HEAP);
    let expected = wl::old_to_young(&mut mu, 32, 4000, 59);
    match consistent(&mut mu) {
        Ok(()) => {},
        Err(e) => {
            return Err(e);
        },
    }
    let base = mu.root_depth();
    let a = mu.global("old_array");
    let top = mu.root_depth();
    let mut actual: u64 = 0;
    let mut i: u16 = 0;
    while i < 32
        invariant
            mu.wf(),
            a.0 == base,
            top == base + 1,
            mu.depth() == top,
        decreases 32 - i,
    {
        let o = mu.load(a, i);
        if !mu.is_null(o) {
            actual = actual.wrapping_add(mu.read_u64(o, 0));
        }
        mu.unwind(top);
        i = i + 1;
    }
    mu.unwind(base);
    if expected != actual {
        return fail("the old array's young children changed value across minor collections");
    }
    if mu.stats().minor_collections == 0 {
        return fail("the workload allocated 4000 young objects without a single minor collection");
    }
    sound(&mu)
}

/// Run every general-purpose check that applies to a precise tracing
/// collector, stopping at the first that fails.
pub fn tracing_suite<C: Collector, F: Fn(usize) -> C + Copy>(mk: F) -> (r: Result<(), String>)
    requires
        makes_collectors(mk),
{
    match allocates_and_reads_back(mk) {
        Ok(()) => {},
        Err(e) => {
            return Err(e);
        },
    }
    match retains_reachable(mk) {
        Ok(()) => {},
        Err(e) => {
            return Err(e);
        },
    }
    match globals_are_roots(mk) {
        Ok(()) => {},
        Err(e) => {
            return Err(e);
        },
    }
    match reclaims_unreachable(mk) {
        Ok(()) => {},
        Err(e) => {
            return Err(e);
        },
    }
    match preserves_sharing(mk) {
        Ok(()) => {},
        Err(e) => {
            return Err(e);
        },
    }
    match collects_cycles(mk) {
        Ok(()) => {},
        Err(e) => {
            return Err(e);
        },
    }
    match stable_across_repeated_collections(mk) {
        Ok(()) => {},
        Err(e) => {
            return Err(e);
        },
    }
    match runs_in_a_small_heap(mk) {
        Ok(()) => {},
        Err(e) => {
            return Err(e);
        },
    }
    survives_root_churn(mk)
}

} // verus!
