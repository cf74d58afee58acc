//! Concrete instances of the properties the library states for all inputs.

use gc_united::collector::Collector;
use gc_united::compact::MarkCompact;
use gc_united::cycles::{CycleCollector, PURPLE};
use gc_united::heap::{Handle, Heap, BLACK, WHITE};
use gc_united::incremental::{Incremental, Phase};
use gc_united::marksweep::MarkSweep;
use gc_united::model::Model;
use gc_united::mutator::Mutator;
use gc_united::refcount::RefCount;
use gc_united::roots::RootSlot;
use gc_united::semispace::SemiSpace;
use gc_united::space::FreeListSpace;
use gc_united::generational::Generational;
use gc_united::workloads::Rng;
use gc_united::verify::{Origin, Report, Violation};

#[test]
fn slot_write_touches_only_its_four_bytes() {
    let mut heap = Heap::new(256);
    let a = heap.emplace(0, 3, 8);
    let b = heap.emplace(64, 0, 8);
    let before = heap.raw().to_vec();
    heap.set_field(a, 1, b);
    let after = heap.raw().to_vec();
    let slot = (a.addr() + 16 + 4) as usize;
    for (j, (x, y)) in before.iter().zip(after.iter()).enumerate() {
        if j < slot || j >= slot + 4 {
            assert_eq!(x, y, "byte {} changed", j);
        }
    }
    assert_eq!(heap.field(a, 1), b);
    assert!(heap.field(a, 0).is_null());
}

#[test]
fn data_write_touches_only_its_eight_bytes() {
    let mut heap = Heap::new(256);
    let a = heap.emplace(0, 1, 24);
    let before = heap.raw().to_vec();
    heap.set_data_u64(a, 8, 0x0102_0304_0506_0708);
    let after = heap.raw().to_vec();
    let start = (heap.data_offset(a) + 8) as usize;
    for (j, (x, y)) in before.iter().zip(after.iter()).enumerate() {
        if j < start || j >= start + 8 {
            assert_eq!(x, y, "byte {} changed", j);
        }
    }
    assert_eq!(heap.data_u64(a, 8), 0x0102_0304_0506_0708);
}

#[test]
fn retain_then_release_restores_every_byte() {
    let mut gc = RefCount::new(1 << 16);
    let a = gc.allocate(1, 8).unwrap();
    gc.roots_mut().push(a);
    gc.on_root_pushed(a);
    let before = gc.heap().raw().to_vec();
    gc.retain(a);
    assert_eq!(gc.rc_of(a), 2);
    gc.release(a);
    assert_eq!(gc.heap().raw().to_vec(), before);
}

#[test]
fn releasing_the_last_reference_frees_the_object() {
    let mut gc = RefCount::new(1 << 16);
    let a = gc.allocate(1, 8).unwrap();
    gc.retain(a);
    assert_eq!(gc.rc_of(a), 1);
    gc.release(a);
    assert!(gc.is_freed(a));
}

#[test]
fn releasing_an_uncounted_object_changes_nothing() {
    let mut gc = RefCount::new(1 << 16);
    let a = gc.allocate(1, 8).unwrap();
    assert_eq!(gc.rc_of(a), 0);
    let before = gc.heap().raw().to_vec();
    gc.release(a);
    gc.release(Handle::null());
    assert_eq!(gc.heap().raw().to_vec(), before);
    assert!(!gc.is_freed(a));
}

#[test]
fn a_release_that_leaves_references_files_a_suspect_once() {
    let mut gc = CycleCollector::new(1 << 16);
    let a = gc.allocate(1, 8).unwrap();
    gc.retain(a);
    gc.retain(a);
    gc.retain(a);
    let before = gc.heap().raw().to_vec();
    gc.release(a);
    assert_eq!(gc.rc_of(a), 2);
    assert_eq!(gc.color_of(a), PURPLE);
    assert_eq!(gc.candidate_count(), 1);
    let after = gc.heap().raw();
    let at = a.addr() as usize;
    for j in 0..before.len() {
        if j != at + 6 && j != at + 7 && !(at + 12 <= j && j < at + 16) {
            assert_eq!(after[j], before[j], "byte {} changed", j);
        }
    }
    gc.release(a);
    assert_eq!(gc.rc_of(a), 1);
    assert_eq!(gc.candidate_count(), 1);
    gc.release(a);
    assert!(gc.is_freed(a));
}

#[test]
fn storing_a_slot_its_own_value_changes_nothing() {
    let mut gc = RefCount::new(1 << 16);
    let a = gc.allocate(1, 8).unwrap();
    gc.roots_mut().push(a);
    gc.on_root_pushed(a);
    let b = gc.allocate(0, 8).unwrap();
    gc.write_field(a, 0, b);
    assert_eq!(gc.rc_of(b), 1);
    let before = gc.heap().raw().to_vec();
    let used = gc.used_bytes();
    gc.write_field(a, 0, b);
    assert_eq!(gc.heap().raw().to_vec(), before);
    assert_eq!(gc.used_bytes(), used);
    assert!(!gc.is_freed(b));
    assert_eq!(gc.rc_of(b), 1);
}

/// Three objects in a cycle hung off a root, a fourth on a chain from
/// the third, and a fifth that nothing refers to.
fn reachable_shape<C: Collector>(gc: &mut C) -> (Vec<Handle>, Handle) {
    let a = gc.allocate(2, 8).unwrap();
    let b = gc.allocate(1, 8).unwrap();
    let c = gc.allocate(2, 8).unwrap();
    let d = gc.allocate(0, 8).unwrap();
    let lost = gc.allocate(1, 8).unwrap();
    gc.write_field(a, 0, b);
    gc.write_field(b, 0, c);
    gc.write_field(c, 0, a);
    gc.write_field(c, 1, d);
    gc.write_field(lost, 0, a);
    gc.roots_mut().push(a);
    (vec![a, b, c, d], lost)
}

#[test]
fn mark_sweep_marks_exactly_what_is_reachable() {
    let mut gc = MarkSweep::new(1 << 17);
    let (live, lost) = reachable_shape(&mut gc);
    for &h in &live {
        assert!(!gc.is_marked(h));
    }
    let before = gc.heap().raw().to_vec();
    gc.mark_from_roots();
    for &h in &live {
        assert!(gc.is_marked(h), "reachable object at {} left unmarked", h.addr());
    }
    assert!(!gc.is_marked(lost));
    // Only flag bytes changed.
    for (j, (x, y)) in before.iter().zip(gc.heap().raw().iter()).enumerate() {
        if x != y {
            assert_eq!(j % 16, 6, "byte {} is not a flag byte", j);
        }
    }
}

#[test]
fn mark_compact_marks_exactly_what_is_reachable() {
    let mut gc = MarkCompact::new(1 << 17);
    let (live, lost) = reachable_shape(&mut gc);
    gc.mark_from_roots();
    for &h in &live {
        assert!(gc.is_marked(h), "reachable object at {} left unmarked", h.addr());
    }
    assert!(!gc.is_marked(lost));
}

#[test]
fn a_global_is_a_root_for_marking() {
    let mut gc = MarkSweep::new(1 << 17);
    let g = gc.allocate(1, 8).unwrap();
    let k = gc.allocate(0, 8).unwrap();
    gc.write_field(g, 0, k);
    gc.roots_mut().set_global("g", g);
    gc.mark_from_roots();
    assert!(gc.is_marked(g));
    assert!(gc.is_marked(k));
}

#[test]
fn sharing_survives_a_copy_as_one_object() {
    let mut gc = SemiSpace::new(1 << 16);
    let parent = gc.allocate(2, 8).unwrap();
    let child = gc.allocate(0, 8).unwrap();
    gc.write_field(parent, 0, child);
    gc.write_field(parent, 1, child);
    let slot = gc.roots_mut().push(parent);
    let live_before = gc.objects().len();
    assert_eq!(live_before, 2);
    gc.collect();
    let moved = gc.roots().get(slot);
    assert_ne!(moved, parent);
    assert_eq!(gc.heap().field(moved, 0), gc.heap().field(moved, 1));
    assert_eq!(gc.objects().len(), 2);
}

#[test]
fn barrier_remembers_an_old_object_once() {
    let mut gc = Generational::new(1 << 16);
    let old_obj = gc.allocate(2, 8).unwrap();
    let slot = gc.roots_mut().push(old_obj);
    gc.minor_collect();
    let old_obj = gc.roots().get(slot);
    assert!(!gc.is_young(old_obj));
    let y1 = gc.allocate(0, 8).unwrap();
    let y2 = gc.allocate(0, 8).unwrap();
    assert!(gc.is_young(y1) && gc.is_young(y2));
    assert_eq!(gc.remembered_count(), 0);
    gc.write_field(old_obj, 0, y1);
    assert_eq!(gc.remembered_count(), 1);
    assert!(gc.is_remembered(old_obj));
    gc.write_field(old_obj, 1, y2);
    assert_eq!(gc.remembered_count(), 1);
}

#[test]
fn barrier_ignores_young_and_null_stores() {
    let mut gc = Generational::new(1 << 16);
    let y1 = gc.allocate(1, 8).unwrap();
    let y2 = gc.allocate(0, 8).unwrap();
    gc.write_field(y1, 0, y2);
    gc.write_field(y1, 0, Handle::null());
    assert_eq!(gc.remembered_count(), 0);
}

#[test]
fn allocation_colour_follows_the_phase() {
    let mut gc = Incremental::new(1 << 17);
    let idle = gc.allocate(0, 8).unwrap();
    assert_eq!(gc.phase(), Phase::Idle);
    assert_eq!(gc.color_of(idle), WHITE);
    gc.roots_mut().push(idle);
    gc.start_cycle();
    assert_eq!(gc.phase(), Phase::Marking);
    let born = gc.allocate(0, 8).unwrap();
    let expect = if gc.phase() == Phase::Marking { BLACK } else { WHITE };
    assert_eq!(gc.color_of(born), expect);
}

#[test]
fn dijkstra_barrier_shades_the_stored_value() {
    let mut gc = Incremental::new(1 << 17);
    let a = gc.allocate(1, 8).unwrap();
    let b = gc.allocate(0, 8).unwrap();
    gc.roots_mut().push(a);
    gc.start_cycle();
    let grey = gc.grey_count();
    assert_eq!(gc.color_of(b), WHITE);
    gc.write_field(a, 0, b);
    assert_ne!(gc.color_of(b), WHITE);
    assert_eq!(gc.grey_count(), grey + 1);
}

#[test]
fn forgetting_the_unreachable_keeps_the_reachable_set() {
    let mut m = Model::new();
    let a = m.allocate(1, 0);
    let b = m.allocate(0, 0);
    let c = m.allocate(0, 0);
    m.push_root(Some(a));
    m.store(a, 0, Some(b));
    let before = m.reachable();
    assert!(before.contains(&a) && before.contains(&b) && !before.contains(&c));
    m.forget_unreachable();
    assert_eq!(m.reachable(), before);
    assert_eq!(m.len(), 2);
}

#[test]
fn a_store_reads_back() {
    let mut m = Model::new();
    let p = m.allocate(3, 0);
    let q = m.allocate(0, 0);
    m.store(p, 2, Some(q));
    assert_eq!(m.field(p, 2), Some(q));
    assert_eq!(m.field(p, 0), None);
    m.store(p, 2, None);
    assert_eq!(m.field(p, 2), None);
}

#[test]
fn rng_follows_xorshift_star() {
    let mut r = Rng::new(1);
    assert_eq!(r.next_u64(), 5180492295206395165);
    let mut r = Rng::new(1);
    assert_eq!(r.below(10), 5);
    let mut z = Rng::new(0);
    let mut k = Rng::new(0x9E37_79B9_7F4A_7C15);
    assert_eq!(z.next_u64(), k.next_u64());
    assert_eq!(Rng::new(3).below(0), 0);
}

#[test]
fn mutator_heap_agrees_with_model_after_collection() {
    let mut mu = Mutator::new(MarkSweep::new(1 << 18));
    let a = mu.allocate(1, 8);
    let b = mu.allocate(0, 8);
    mu.store(a, 0, b);
    mu.collect();
    mu.assert_consistent().unwrap_or_else(|r| panic!("{}", r.describe()));
}

#[test]
fn free_list_space_stays_walkable_through_split_free_and_merge() {
    let mut sp = FreeListSpace::new(4096);
    let hs: Vec<Handle> = (0..5).map(|_| sp.allocate(2, 40).unwrap()).collect();
    assert!(sp.validate().is_ok());
    sp.free(hs[1]);
    sp.free(hs[2]);
    sp.free(hs[4]);
    assert!(sp.validate().is_ok());
    // Smaller than the freed blocks: the first fit is split.
    let small = sp.allocate(0, 8).unwrap();
    assert_eq!(small, hs[1]);
    assert!(sp.validate().is_ok());
    let merges = sp.coalesce();
    assert!(merges >= 1);
    assert!(sp.validate().is_ok());
    // The free run at the top went back to the bump pointer.
    assert_eq!(sp.bump_pointer(), hs[4].addr());
    let sizes: u32 = sp.walk().iter().map(|&h| sp.heap().size(h)).sum();
    assert_eq!(sizes, sp.bump_pointer());
}

#[test]
fn finishing_a_cycle_blackens_everything_reachable() {
    let mut gc = Incremental::new(1 << 17);
    let (live, lost) = reachable_shape(&mut gc);
    gc.start_cycle();
    gc.finish_marking();
    assert_eq!(gc.grey_count(), 0);
    for &h in &live {
        assert!(gc.is_black(h), "reachable object at {} not black", h.addr());
    }
    assert_eq!(gc.color_of(lost), WHITE);
}

#[test]
fn forwarding_addresses_slide_down_in_order() {
    let mut gc = MarkCompact::new(1 << 17);
    let dead = gc.allocate(0, 64).unwrap();
    let (live, _lost) = reachable_shape(&mut gc);
    let _ = dead;
    gc.mark_from_roots();
    let end = gc.compute_forwarding();
    let mut next = 0u32;
    for h in gc.blocks() {
        if gc.is_marked(h) {
            let to = gc.forwarding_address(h);
            assert!(to.addr() <= h.addr());
            assert_eq!(to.addr(), next);
            next += gc.heap().size(h);
        }
    }
    assert_eq!(next, end);
    assert_eq!(live.len(), 4);
}

#[test]
fn a_mark_sweep_collection_keeps_reachable_bytes_and_frees_the_rest() {
    let mut gc = MarkSweep::new(1 << 17);
    let (live, lost) = reachable_shape(&mut gc);
    let before = gc.heap().raw().to_vec();
    gc.collect();
    let after = gc.heap().raw();
    for &h in &live {
        assert!(!gc.is_freed(h));
        assert!(!gc.is_marked(h));
        let a = h.addr() as usize;
        let size = gc.heap().size(h) as usize;
        for j in a..a + size {
            if j != a + 6 {
                assert_eq!(after[j], before[j], "byte {} of the object at {} changed", j, a);
            }
        }
    }
    assert!(gc.is_freed(lost));
    assert!(gc.space_mut().validate().is_ok());
}

#[test]
fn an_incremental_collection_keeps_reachable_bytes_and_frees_the_rest() {
    let mut gc = Incremental::new(1 << 17);
    let (live, lost) = reachable_shape(&mut gc);
    assert_eq!(gc.phase(), Phase::Idle);
    let before = gc.heap().raw().to_vec();
    gc.collect();
    let after = gc.heap().raw();
    assert_eq!(gc.phase(), Phase::Idle);
    for &h in &live {
        assert!(!gc.is_free(h));
        assert_eq!(gc.color_of(h), WHITE);
        let a = h.addr() as usize;
        let size = gc.heap().size(h) as usize;
        for j in a..a + size {
            if j != a + 7 {
                assert_eq!(after[j], before[j], "byte {} of the object at {} changed", j, a);
            }
        }
    }
    assert!(gc.is_free(lost));
}

#[test]
fn an_incremental_collection_mid_cycle_keeps_what_the_roots_reach() {
    let mut gc = Incremental::new(1 << 17);
    let (live, lost) = reachable_shape(&mut gc);
    gc.start_cycle();
    gc.mark_step(1);
    assert_eq!(gc.phase(), Phase::Marking);
    gc.collect();
    for &h in &live {
        assert!(!gc.is_free(h));
        assert_eq!(gc.color_of(h), WHITE);
    }
    assert!(gc.is_free(lost));
}

#[test]
fn a_compacting_collection_packs_the_reachable_objects_in_order() {
    let mut gc = MarkCompact::new(1 << 17);
    let dead = gc.allocate(0, 64).unwrap();
    let (live, lost) = reachable_shape(&mut gc);
    assert!(dead.addr() < live[0].addr() && live[3].addr() < lost.addr());
    let before = gc.heap().raw().to_vec();
    let sizes: Vec<u32> = live.iter().map(|&h| gc.heap().size(h)).collect();
    let nrefs: Vec<u16> = live.iter().map(|&h| gc.heap().nrefs(h)).collect();
    let mut dest = Vec::new();
    let mut next = 0u32;
    for &s in &sizes {
        dest.push(next);
        next += s;
    }
    let moved = |h: Handle| -> u32 {
        let k = live.iter().position(|&x| x == h).unwrap();
        dest[k]
    };
    gc.collect();
    assert_eq!(gc.top(), next);
    let after = gc.heap().raw();
    for (k, &h) in live.iter().enumerate() {
        let from = h.addr() as usize;
        let to = dest[k] as usize;
        let slots_end = 16 + 4 * nrefs[k] as usize;
        for j in 0..sizes[k] as usize {
            if (8..12).contains(&j) || (16..slots_end).contains(&j) {
                continue;
            }
            assert_eq!(after[to + j], before[from + j], "byte {} of the object from {}", j, from);
        }
        assert!(gc.forwarding_address(Handle(dest[k])).is_null());
        for i in 0..nrefs[k] {
            let was = Handle(u32::from_le_bytes([
                before[from + 16 + 4 * i as usize],
                before[from + 17 + 4 * i as usize],
                before[from + 18 + 4 * i as usize],
                before[from + 19 + 4 * i as usize],
            ]));
            let now = gc.heap().field(Handle(dest[k]), i);
            if was.is_null() {
                assert!(now.is_null());
            } else {
                assert_eq!(now.addr(), moved(was));
            }
        }
    }
    assert_eq!(gc.roots().get(RootSlot(0)).addr(), dest[0]);
}

#[test]
fn violations_read_as_sentences() {
    use_violation_texts();
}

fn use_violation_texts() {
    let o = Origin::Field { parent: 7, index: 1 };
    assert_eq!(o.describe(), "object #7 field [1]");
    assert_eq!(Origin::RootSlot(3).describe(), "root slot 3");
    assert_eq!(Origin::Global("tree".to_string()).describe(), "global \"tree\"");
    assert_eq!(
        Origin::Global("a\"b\\c\nd\u{1}".to_string()).describe(),
        format!("global {:?}", "a\"b\\c\nd\u{1}")
    );
    let v = Violation::OutOfBounds { origin: Origin::RootSlot(0), handle: Handle::null() };
    assert_eq!(v.describe(), "root slot 0 holds null, which is not a well-formed object address");
    let v = Violation::OutOfBounds { origin: Origin::RootSlot(3), handle: Handle(16) };
    assert_eq!(v.describe(), "root slot 3 holds @0x10, which is not a well-formed object address");
    let v = Violation::CorruptPayload { origin: Origin::RootSlot(0), handle: Handle(0), found: 0xdead };
    assert_eq!(
        v.describe(),
        "root slot 0 holds @0x0, but the object there has no identity stamp (magic 0xdead, expected 0xc0ffee01) \u{2014} it is reachable memory that has been freed or overwritten"
    );
    let v = Violation::DuplicatedIdentity { id: 4, at: vec![Handle(0), Handle(32)] };
    assert_eq!(
        v.describe(),
        "object #4 exists at [@0x0, @0x20] \u{2014} one object now has 2 distinct copies, so mutating one will not be seen through the other"
    );
    let v = Violation::RootStackDepth { collector: 3, model: 2 };
    assert_eq!(v.describe(), "the collector's shadow stack is 3 deep, the mutator pushed 2");
    let v = Violation::Accounting { used: 100, reachable: 60, unreclaimed: 40 };
    assert_eq!(v.describe(), "100 bytes still in use but only 60 are reachable: 40 bytes of garbage survived collection");
    let v = Violation::Accounting { used: 60, reachable: 100, unreclaimed: -40 };
    assert_eq!(v.describe(), "60 bytes in use but 100 are reachable: the collector is under-reporting by 40 bytes");
    let clean = Report { violations: vec![], omitted: 0, visited: 5 };
    assert_eq!(clean.describe(), "heap is consistent (5 objects reached)");
    let bad = Report {
        violations: vec![Violation::NullMismatch { origin: Origin::RootSlot(1), expected_null: true }],
        omitted: 0,
        visited: 2,
    };
    assert_eq!(
        bad.describe(),
        "1 heap invariant violation(s) after reaching 2 objects:\n  1. root slot 1 should be null but holds an object\n"
    );
}

fn counts_one_collection<C: Collector>(mut gc: C) {
    let before = gc.stats().collections;
    gc.collect();
    assert_eq!(gc.stats().collections, before + 1);
    gc.collect();
    assert_eq!(gc.stats().collections, before + 2);
}

#[test]
fn every_collector_counts_each_collection() {
    counts_one_collection(MarkSweep::new(1 << 17));
    counts_one_collection(MarkCompact::new(1 << 17));
    counts_one_collection(SemiSpace::new(1 << 16));
    counts_one_collection(Generational::new(1 << 16));
    counts_one_collection(Incremental::new(1 << 17));
    counts_one_collection(RefCount::new(1 << 16));
    counts_one_collection(CycleCollector::new(1 << 16));
}

#[test]
fn a_mutator_collection_is_counted_and_leaves_the_model_alone() {
    let mut mu = Mutator::new(MarkSweep::new(1 << 17));
    let o = mu.allocate(1, 8);
    mu.write_u64(o, 0, 5);
    let ids_before = mu.model().len();
    let before = mu.stats().collections;
    mu.collect();
    assert_eq!(mu.stats().collections, before + 1);
    assert_eq!(mu.model().len(), ids_before);
}

#[test]
fn a_semispace_collection_swaps_the_halves() {
    let mut gc = SemiSpace::new(1 << 16);
    let a = gc.allocate(0, 8).unwrap();
    gc.roots_mut().push(a);
    let current = gc.current_space();
    let idle = gc.idle_space();
    assert_ne!(current, idle);
    gc.collect();
    assert_eq!(gc.current_space(), idle);
    assert_eq!(gc.idle_space(), current);
    gc.collect();
    assert_eq!(gc.current_space(), current);
}

#[test]
fn a_minor_collection_counts_as_minor_and_a_major_as_major() {
    let mut gc = Generational::new(1 << 16);
    gc.minor_collect();
    assert_eq!(gc.stats().collections, 1);
    assert_eq!(gc.stats().minor_collections, 1);
    assert_eq!(gc.stats().major_collections, 0);
    gc.major_collect();
    assert_eq!(gc.stats().collections, 2);
    assert_eq!(gc.stats().minor_collections, 1);
    assert_eq!(gc.stats().major_collections, 1);
}

#[test]
fn rebinding_a_global_to_its_own_object_changes_no_byte() {
    let mut gc = RefCount::new(1 << 16);
    let a = gc.allocate(1, 8).unwrap();
    gc.on_global_changed(Handle::null(), a);
    assert_eq!(gc.rc_of(a), 1);
    let before = gc.heap().raw().to_vec();
    let used = gc.used_bytes();
    gc.on_global_changed(a, a);
    assert_eq!(gc.heap().raw().to_vec(), before);
    assert_eq!(gc.used_bytes(), used);
    gc.on_global_changed(a, Handle::null());
    assert!(gc.is_freed(a));
}

#[test]
fn rebinding_a_global_to_its_own_object_files_it_as_a_suspect() {
    let mut gc = CycleCollector::new(1 << 16);
    let a = gc.allocate(1, 8).unwrap();
    gc.on_global_changed(Handle::null(), a);
    assert_eq!(gc.rc_of(a), 1);
    assert_eq!(gc.color_of(a), gc_united::cycles::BLACK);
    gc.on_global_changed(a, a);
    assert_eq!(gc.rc_of(a), 1);
    assert_eq!(gc.color_of(a), PURPLE);
    assert_eq!(gc.candidate_count(), 1);
}

#[test]
fn pushing_and_popping_a_root_counts_up_and_down() {
    let mut gc = RefCount::new(1 << 16);
    let a = gc.allocate(0, 8).unwrap();
    gc.on_root_pushed(a);
    gc.on_root_pushed(a);
    assert_eq!(gc.rc_of(a), 2);
    gc.on_root_popped(a);
    assert_eq!(gc.rc_of(a), 1);
    assert!(!gc.is_freed(a));
    gc.on_root_popped(a);
    assert!(gc.is_freed(a));
}

#[test]
fn storing_into_an_empty_slot_counts_the_value_up() {
    let mut gc = RefCount::new(1 << 16);
    let a = gc.allocate(2, 8).unwrap();
    let b = gc.allocate(0, 8).unwrap();
    let used = gc.used_bytes();
    gc.write_field(a, 1, b);
    assert_eq!(gc.heap().field(a, 1), b);
    assert_eq!(gc.rc_of(b), 1);
    assert_eq!(gc.used_bytes(), used);

    let mut cc = CycleCollector::new(1 << 16);
    let a = cc.allocate(2, 8).unwrap();
    let b = cc.allocate(0, 8).unwrap();
    cc.write_field(a, 0, b);
    assert_eq!(cc.heap().field(a, 0), b);
    assert_eq!(cc.rc_of(b), 1);
    assert_eq!(cc.color_of(b), gc_united::cycles::BLACK);
}

#[test]
fn a_tracing_store_touches_only_the_slot() {
    let mut gc = MarkCompact::new(1 << 17);
    let a = gc.allocate(2, 8).unwrap();
    let b = gc.allocate(0, 8).unwrap();
    let before = gc.heap().raw().to_vec();
    gc.write_field(a, 1, b);
    let after = gc.heap().raw().to_vec();
    let slot = (a.addr() + 16 + 4) as usize;
    for j in 0..before.len() {
        if j < slot || j >= slot + 4 {
            assert_eq!(before[j], after[j], "byte {} changed", j);
        }
    }
    assert_eq!(gc.heap().field(a, 1), b);
}

#[test]
fn every_allocation_is_counted_with_its_size() {
    let mut gc = MarkSweep::new(1 << 17);
    gc.allocate(1, 8).unwrap();
    gc.allocate(0, 40).unwrap();
    assert_eq!(gc.stats().allocations, 2);
    assert_eq!(gc.stats().bytes_allocated, 32 + 64);
    assert_eq!(gc.stats().peak_used_bytes, 96);
}

#[test]
fn a_cycle_collection_empties_the_candidate_buffer() {
    let mut gc = CycleCollector::new(1 << 16);
    let a = gc.allocate(1, 8).unwrap();
    gc.retain(a);
    gc.retain(a);
    gc.release(a);
    assert_eq!(gc.candidate_count(), 1);
    gc.collect();
    assert_eq!(gc.candidate_count(), 0);
    assert!(!gc.is_freed(a));
}
