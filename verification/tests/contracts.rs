use gc_united::allocator::Allocator;
use gc_united::checks::judge_reported_work;
use gc_united::collector::Collector;
use gc_united::marksweep::MarkSweep;
use gc_united::model::Model;
use gc_united::mutator::Mutator;
use gc_united::space::FreeListSpace;
use gc_united::stats::GcStats;
use gc_united::verify::{check_accounting, Violation};

#[test]
fn judging_counters_that_saw_no_allocation() {
    let s = GcStats::default();
    assert_eq!(judge_reported_work(&s, 0), Err("no allocations were counted".to_string()));
}

#[test]
fn judging_counters_that_lose_objects() {
    let mut s = GcStats::default();
    s.allocations = 5;
    s.objects_freed = 2;
    assert_eq!(
        judge_reported_work(&s, 2),
        Err("allocations counted (5) should equal the 2 objects still reachable plus the 2 objects reported freed"
            .to_string())
    );
}

#[test]
fn judging_counters_without_a_collection() {
    let mut s = GcStats::default();
    s.allocations = 4;
    s.objects_freed = 1;
    s.bytes_allocated = 128;
    assert_eq!(
        judge_reported_work(&s, 3),
        Err("128 bytes were allocated into a 1048576 byte heap without a single collection".to_string())
    );
}

#[test]
fn judging_counters_that_reclaim_no_bytes() {
    let mut s = GcStats::default();
    s.allocations = 4;
    s.objects_freed = 2;
    s.collections = 3;
    assert_eq!(
        judge_reported_work(&s, 2),
        Err("3 collections ran and freed 2 objects but reported reclaiming no bytes".to_string())
    );
}

#[test]
fn judging_counters_that_add_up() {
    let mut s = GcStats::default();
    s.allocations = 4;
    s.objects_freed = 2;
    s.collections = 1;
    s.bytes_freed = 64;
    assert_eq!(judge_reported_work(&s, 2), Ok(()));
}

#[test]
fn an_allocation_the_heap_cannot_hold_is_recorded_as_a_fault() {
    let mut mu = Mutator::new(MarkSweep::new(4096));
    assert_eq!(mu.fault(), None);
    let s = mu.allocate(0, 8000);
    assert!(mu.is_null(s));
    assert_eq!(mu.root_depth(), 1);
    let expected = format!(
        "allocation of 0 refs + 8000 data bytes failed: out of memory: wanted 8032 bytes, {} of {} in use",
        mu.gc.used_bytes(),
        mu.gc.heap().capacity()
    );
    assert_eq!(mu.fault(), Some(expected));
    assert_eq!(mu.model().len(), 0);
}

#[test]
fn a_store_through_a_null_slot_is_recorded_as_a_fault() {
    let mut mu = Mutator::new(MarkSweep::new(1 << 16));
    let a = mu.allocate(1, 8);
    let n = mu.load(a, 0);
    assert!(mu.is_null(n));
    assert_eq!(mu.fault(), None);
    mu.store(n, 0, a);
    assert_eq!(mu.fault(), Some("store into a null slot".to_string()));
    // Only the first fault is kept.
    let _ = mu.load(n, 0);
    assert_eq!(mu.fault(), Some("store into a null slot".to_string()));
}

#[test]
fn a_load_through_a_null_slot_is_recorded_as_a_fault() {
    let mut mu = Mutator::new(MarkSweep::new(1 << 16));
    let a = mu.allocate(1, 8);
    let n = mu.load(a, 0);
    let m = mu.load(n, 0);
    assert!(mu.is_null(m));
    assert_eq!(mu.fault(), Some("load from a null slot".to_string()));
}

#[test]
fn a_successful_allocation_stamps_the_object_and_counts_it() {
    let mut mu = Mutator::new(MarkSweep::new(1 << 16));
    let d = mu.root_depth();
    let s = mu.try_alloc(2, 4).ok().unwrap();
    assert_eq!(mu.root_depth(), d + 1);
    assert_eq!(mu.model().len(), 1);
    let h = mu.handle(s);
    assert_eq!(mu.gc.heap().nrefs(h), 2);
    assert_eq!(mu.gc.heap().size(h), 48);
    assert_eq!(mu.gc.heap().data_u64(h, 0), mu.id(s).unwrap());
    assert_eq!(mu.gc.heap().data_u32(h, 8), 0xC0FF_EE01);
}

#[test]
fn model_identities_count_up_from_one() {
    let mut m = Model::new();
    assert_eq!(m.allocate(2, 8), 1);
    assert_eq!(m.get(1).unwrap().size, 48);
    assert_eq!(m.get(1).unwrap().fields, vec![None, None]);
    assert_eq!(m.allocate(0, 0), 2);
    assert_eq!(m.get(2).unwrap().size, 32);
    assert_eq!(m.len(), 2);
}

#[test]
fn unreclaimed_bytes_are_reported_with_their_numbers() {
    let mut mu = Mutator::new(MarkSweep::new(1 << 16));
    let base = mu.root_depth();
    let _ = mu.allocate(0, 20);
    mu.unwind(base);
    match check_accounting(&mu.gc, mu.model()) {
        Some(Violation::Accounting { used, reachable, unreclaimed }) => {
            assert_eq!(used, 48);
            assert_eq!(reachable, 0);
            assert_eq!(unreclaimed, 48);
        },
        other => panic!("expected an accounting violation, got {:?}", other),
    }
    mu.collect();
    assert!(check_accounting(&mu.gc, mu.model()).is_none());
}

#[test]
fn coalescing_counts_each_join() {
    let mut s = FreeListSpace::new(4096);
    let a = s.allocate(0, 48).unwrap();
    let b = s.allocate(0, 48).unwrap();
    let _c = s.allocate(0, 48).unwrap();
    let d = s.allocate(0, 48).unwrap();
    assert_eq!(s.bump_pointer(), 256);
    s.free(a);
    s.free(b);
    assert_eq!(s.coalesce(), 1);
    assert_eq!(s.free_block_count(), 1);
    assert_eq!(s.largest_free_block(), 128);
    assert_eq!(s.bump_pointer(), 256);
    s.free(d);
    let before = s.free_bytes() as i64 - s.bump_pointer() as i64;
    // The freed block at the top goes back to virgin memory; nothing joins.
    assert_eq!(s.coalesce(), 0);
    assert_eq!(s.free_bytes() as i64 - s.bump_pointer() as i64, before);
    assert_eq!(s.free_bytes(), 128);
    assert_eq!(s.free_block_count(), 1);
    assert_eq!(s.bump_pointer(), 192);
    assert!(s.validate().is_ok());
}

#[test]
fn a_fitting_free_block_is_taken_before_fresh_memory() {
    let mut s = FreeListSpace::new(4096);
    let a = s.allocate(0, 112).unwrap();
    let _b = s.allocate(0, 48).unwrap();
    s.free(a);
    let c = s.allocate(0, 48).unwrap();
    assert_eq!(c, a);
    assert_eq!(s.bump_pointer(), 192);
    assert_eq!(s.free_block_count(), 1);
    assert_eq!(s.largest_free_block(), 64);
}

#[test]
fn a_block_with_a_broken_size_is_named_by_validation() {
    let mut a = Allocator::new(4096);
    let _x = a.allocate(0, 48).unwrap();
    let y = a.allocate(0, 48).unwrap();
    a.heap_mut().set_size(y, 24);
    assert_eq!(
        a.validate(),
        Err("block 1 at 0x40 claims size 24; the walk cannot continue (sizes must be a non-zero multiple of 16)"
            .to_string())
    );
}

#[test]
fn a_block_that_runs_past_the_bump_pointer_is_named_by_validation() {
    let mut a = Allocator::new(4096);
    let x = a.allocate(0, 48).unwrap();
    a.heap_mut().set_size(x, 128);
    assert_eq!(
        a.validate(),
        Err("block 0 at 0x0 claims size 128, which runs past the bump pointer at 0x40".to_string())
    );
}

#[test]
fn global_names_come_out_in_string_order() {
    let mut r = gc_united::roots::Roots::new();
    r.set_global("beta", gc_united::heap::Handle::null());
    r.set_global("alpha", gc_united::heap::Handle::null());
    r.set_global("ab", gc_united::heap::Handle::null());
    r.set_global("Zed", gc_united::heap::Handle::null());
    r.set_global("alpha", gc_united::heap::Handle::null());
    assert_eq!(r.global_names(), vec!["Zed".to_string(), "ab".to_string(), "alpha".to_string(), "beta".to_string()]);
    assert!(gc_united::roots::Roots::new().global_names().is_empty());
}

#[test]
fn a_lost_object_is_reported_with_its_root_path() {
    let mut mu = Mutator::new(MarkSweep::new(1 << 16));
    let a = mu.allocate(1, 8);
    let b = mu.allocate(0, 8);
    mu.store(a, 0, b);
    let idb = mu.id(b).unwrap();
    mu.unwind(1);
    let ah = mu.handle(a);
    mu.gc.write_field(ah, 0, gc_united::heap::Handle::null());
    let r = mu.verify();
    let mut found = false;
    for v in r.violations.iter() {
        if let Violation::Unreachable { id, path } = v {
            assert_eq!(*id, idb);
            assert_eq!(path.as_str(), "root slot 0 -> [0]");
            found = true;
        }
    }
    assert!(found, "expected the lost object to be reported");
}

#[test]
fn coalescing_every_run_counts_each_join() {
    let mut a = Allocator::new(4096);
    let x = a.allocate(0, 48).unwrap();
    let y = a.allocate(0, 48).unwrap();
    let z = a.allocate(0, 48).unwrap();
    let _w = a.allocate(0, 48).unwrap();
    a.free(x);
    a.free(y);
    a.free(z);
    assert_eq!(a.free_block_count(), 3);
    a.coalesce_all();
    assert_eq!(a.stats().merges, 2);
    assert_eq!(a.free_block_count(), 1);
    assert_eq!(a.largest_free_block(), 192);
    assert!(a.validate().is_ok());
}

#[test]
fn a_minor_collection_empties_the_nursery() {
    let mut g = gc_united::generational::Generational::new(1 << 16);
    let a = g.allocate(1, 8).unwrap();
    assert!(g.is_young(a));
    g.roots_mut().push(a);
    let _garbage = g.allocate(0, 8).unwrap();
    assert!(g.young_used() > 0);
    g.minor_collect();
    assert_eq!(g.young_used(), 0);
    assert_eq!(g.remembered_count(), 0);
    let moved = g.roots().get(gc_united::roots::RootSlot(0));
    assert!(!g.is_young(moved));
}

#[test]
fn a_major_collection_counts_what_it_sweeps() {
    let mut g = gc_united::generational::Generational::new(1 << 16);
    let a = g.allocate(0, 8).unwrap();
    g.roots_mut().push(a);
    g.minor_collect();
    let old = g.roots().get(gc_united::roots::RootSlot(0));
    assert!(!g.is_young(old));
    let kept = g.old_used();
    let _ = g.roots_mut().unwind(0);
    let freed = g.stats().objects_freed;
    g.major_collect();
    assert_eq!(g.stats().objects_freed, freed + 1);
    assert_eq!(g.old_used(), 0);
    assert!(kept > 0);
}

#[test]
fn a_mark_step_blackens_at_most_its_budget() {
    let mut inc = gc_united::incremental::Incremental::new(1 << 16);
    let a = inc.allocate(2, 8).unwrap();
    let b = inc.allocate(0, 8).unwrap();
    let c = inc.allocate(0, 8).unwrap();
    inc.write_field(a, 0, b);
    inc.write_field(a, 1, c);
    inc.roots_mut().push(a);
    inc.start_cycle();
    let marked = inc.stats().objects_marked;
    let steps = inc.stats().increments;
    inc.mark_step(1);
    assert_eq!(inc.stats().increments, steps + 1);
    assert!(inc.stats().objects_marked <= marked + 1);
    inc.finish_marking();
    assert!(inc.is_black(a) && inc.is_black(b) && inc.is_black(c));
}
