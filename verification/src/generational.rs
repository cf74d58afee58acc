//! Generational collection.
//!
//! Almost all objects die young. New objects go in a small nursery at the top
//! of the heap; when it fills, a minor collection promotes whatever is still
//! reachable into the old generation below it and reclaims the whole nursery
//! in one stroke, without examining a single dead object. The old generation
//! is collected rarely, by a major collection, which is mark-sweep.
//!
//! A minor collection does not trace the old generation, so an old object
//! holding the only reference to a young one would be invisible to it. The
//! write barrier closes that hole: a store of a young address into an old
//! object records the old object in the remembered set, once, and a minor
//! collection treats the remembered set as extra roots.
//!
//! Promotion moves objects, so an object reachable by two paths is promoted
//! once, with a forwarding note left in the original; every later reference
//! finds the note.
//!
//! A promotion that finds no room in the old generation leaves its object in
//! the nursery. The nursery is then left as it is rather than reset, so the
//! object stays valid, and the next allocation that needs nursery space
//! reports the heap full.

use crate::clock;
use crate::compact::{lemma_reaches_stop, lemma_walk_progress, reaches, step_ok, walk_block, walk_stop, walked};
use crate::collector::{Collector, GcError};
use crate::heap::{spec_size_for, Handle, Heap, FLAG_BUFFERED, FLAG_FREE, FLAG_MARK, NULL_ADDR};
use crate::roots::{RootSlot, Roots};
use crate::space::{count_unsat, lemma_count_unsat_set};
use crate::stats::{counted_allocation, same_collections, sat_add, GcStats};
use crate::space::tiles;
use crate::tiling::{lemma_on_tiles_facts, lemma_tiles_apart, lemma_tiles_frame, on_tiles};
use crate::heap::{le32, same_outside};
use crate::trace::{lemma_children_after_store, lemma_children_upto_frame};
use crate::trace::{
    flags_only, lemma_flags_only_header, lemma_mark_done, lemma_mark_start, lemma_mark_step, lemma_pop_shape,
    lemma_root_reachable, lemma_step_keeps_any, marking, reachable, steps, trace_ready,
};
use vstd::prelude::*;

verus! {

/// The nursery is this fraction of the heap.
pub const NURSERY_FRACTION: u32 = 64;

/// Collect the old generation once it is this full, as a percentage.
pub const MAJOR_THRESHOLD_PERCENT: u32 = 75;

/// Generation number of an object that has never survived a collection.
pub const YOUNG: u8 = 0;
/// Generation number of a promoted object.
pub const OLD: u8 = 1;

/// Headers not yet marked: marking lowers it.
pub open spec fn unmarked(b: Seq<u8>, k: int) -> nat {
    count_unsat(b, k, 6, |x: u8| x & FLAG_MARK != 0)
}

/// Every block start of the old generation's walk keeps its reference
/// slots inside its own block.
pub open spec fn old_blocks_sane(heap: Heap, end: int) -> bool {
    forall|o: int| #[trigger]
        on_tiles(heap@, 0, end, o) ==> 16 + 4 * heap.spec_nrefs(Handle(o as u32)) <= heap.spec_size(
            Handle(o as u32),
        )
}

/// Every live block of the old generation that refers into the nursery is
/// flagged as remembered.
pub open spec fn young_refs_remembered(heap: Heap, end: int, nursery: int) -> bool {
    forall|o: int, c: Handle|
        #[trigger] on_tiles(heap@, 0, end, o) && !heap.spec_flag(Handle(o as u32), FLAG_FREE)
            && #[trigger] heap.spec_children(Handle(o as u32)).contains(c) && c.0 >= nursery ==> heap.spec_flag(
            Handle(o as u32),
            FLAG_BUFFERED,
        )
}

/// The old generation below `end` is walkable, its blocks keep their slots
/// to themselves, and every old-to-young reference is remembered.
pub open spec fn barrier_ok(heap: Heap, end: int, nursery: int) -> bool {
    &&& tiles(heap@, 0, end)
    &&& old_blocks_sane(heap, end)
    &&& young_refs_remembered(heap, end, nursery)
}

/// A store through the barrier keeps the old generation's invariant: the
/// flag byte of `obj` may gain the remembered bit, and one of its slots may
/// change; every other old block is left alone.
#[verifier::spinoff_prover]
proof fn lemma_barrier_store(
    h0: Heap,
    h1: Heap,
    h2: Heap,
    end: int,
    nursery: int,
    obj: Handle,
    i: int,
    val: Handle,
)
    requires
        h0.wf(),
        end <= nursery,
        nursery <= h0.cap(),
        barrier_ok(h0, end, nursery),
        obj.0 >= nursery || on_tiles(h0@, 0, end, obj.0 as int),
        h1@ == h0@ || (obj.0 < nursery && val.0 >= nursery && h0.hdr_in(obj) && h1@ == h0@.update(
            obj.0 + 6,
            h0.spec_flags(obj) | FLAG_BUFFERED,
        )),
        obj.0 < nursery && val.0 >= nursery && val.0 != NULL_ADDR ==> h1.spec_flag(obj, FLAG_BUFFERED),
        h2@ == h1@ || (h1.slot_ok(obj, i) && same_outside(h2@, h1@, obj.0 + 16 + 4 * i, obj.0 + 16 + 4 * i + 4)
            && h2.spec_field(obj, i) == val.0),
    ensures
        barrier_ok(h2, end, nursery),
{
    let slot = obj.0 + 16 + 4 * i;
    let young = obj.0 >= nursery;
    // Which bytes may have changed: the flag byte of `obj`, and one slot of
    // `obj`, both inside `obj`'s block when it is old, and above the old
    // generation when it is young.
    let lo = obj.0 as int;
    let hi = if young {
        h0.cap()
    } else {
        obj.0 + h0.spec_size(obj)
    };
    if !young {
        lemma_on_tiles_facts(h0@, 0, end, lo);
        assert(h0.spec_size(Handle(lo as u32)) == h0.spec_size(obj));
    }
    assert forall|j: int| 0 <= j < h0@.len() && !(lo <= j < hi) implies #[trigger] h2@[j] == h0@[j] by {
        if h1@ != h0@ {
            assert(j != obj.0 + 6);
        }
        assert(h1@[j] == h0@[j]);
        if h2@ != h1@ {
            if !young {
                assert(h1.spec_nrefs(obj) == h0.spec_nrefs(obj));
                assert(16 + 4 * h0.spec_nrefs(Handle(lo as u32)) <= h0.spec_size(Handle(lo as u32)));
            }
            assert(!(slot <= j < slot + 4));
        }
    }
    // Every other old block start is outside `lo..hi`.
    assert forall|o: int| #[trigger] on_tiles(h0@, 0, end, o) && o != lo implies forall|j: int|
        o <= j < o + le32(h0@, o) ==> h2@[j] == h0@[j] by {
        lemma_on_tiles_facts(h0@, 0, end, o);
        if !young {
            if o < lo {
                lemma_tiles_apart(h0@, 0, end, o, lo);
            } else {
                lemma_tiles_apart(h0@, 0, end, lo, o);
            }
        }
        assert forall|j: int| o <= j < o + le32(h0@, o) implies h2@[j] == h0@[j] by {
            assert(!(lo <= j < hi));
        }
    }
    // Sizes of old block starts are unchanged, so the walk is too.
    assert forall|o: int| #[trigger] on_tiles(h0@, 0, end, o) implies le32(h2@, o) == le32(h0@, o) by {
        lemma_on_tiles_facts(h0@, 0, end, o);
        if o == lo {
            assert(h2@[o] == h0@[o] && h2@[o + 1] == h0@[o + 1] && h2@[o + 2] == h0@[o + 2] && h2@[o + 3] == h0@[o
                + 3]) by {
                if h1@ != h0@ {
                    assert(h1@[o] == h0@[o] && h1@[o + 1] == h0@[o + 1] && h1@[o + 2] == h0@[o + 2] && h1@[o + 3]
                        == h0@[o + 3]);
                }
                if h2@ != h1@ {
                    assert(slot >= o + 16);
                }
            }
        }
    }
    lemma_tiles_frame(h0@, h2@, 0, end);
    assert forall|o: int| #[trigger] on_tiles(h2@, 0, end, o) implies 16 + 4 * h2.spec_nrefs(Handle(o as u32))
        <= h2.spec_size(Handle(o as u32)) by {
        assert(on_tiles(h0@, 0, end, o));
        lemma_on_tiles_facts(h0@, 0, end, o);
        assert(h2@[o] == h0@[o] && h2@[o + 1] == h0@[o + 1] && h2@[o + 2] == h0@[o + 2] && h2@[o + 3] == h0@[o + 3]
            && h2@[o + 4] == h0@[o + 4] && h2@[o + 5] == h0@[o + 5]) by {
            if o == lo {
                if h2@ != h1@ {
                    assert(slot >= o + 16);
                }
            }
        }
    }
    assert forall|o: int, c: Handle|
        #[trigger] on_tiles(h2@, 0, end, o) && !h2.spec_flag(Handle(o as u32), FLAG_FREE)
            && #[trigger] h2.spec_children(Handle(o as u32)).contains(c) && c.0 >= nursery implies h2.spec_flag(
            Handle(o as u32),
            FLAG_BUFFERED,
        ) by {
        assert(on_tiles(h0@, 0, end, o));
        lemma_on_tiles_facts(h0@, 0, end, o);
        let oh = Handle(o as u32);
        assert(oh.0 == o);
        if o != lo {
            assert(h2@[o + 6] == h0@[o + 6]);
            assert(h2@[o + 4] == h0@[o + 4] && h2@[o + 5] == h0@[o + 5]);
            assert forall|k: int| 0 <= k < h0.spec_nrefs(oh) implies #[trigger] h2.spec_field(oh, k) == h0.spec_field(
                oh,
                k,
            ) by {
                let q = o + 16 + 4 * k;
                assert(h2@[q] == h0@[q] && h2@[q + 1] == h0@[q + 1] && h2@[q + 2] == h0@[q + 2] && h2@[q + 3]
                    == h0@[q + 3]);
            }
            lemma_children_upto_frame(h2, h0, oh, h0.spec_nrefs(oh));
            assert(h2.spec_nrefs(oh) == h0.spec_nrefs(oh));
            assert(h0.spec_children(oh).contains(c));
            assert(!h0.spec_flag(oh, FLAG_FREE));
        } else {
            assert(oh == obj);
            let f0 = h0.spec_flags(obj);
            crate::heap::lemma_flag_bits(f0, FLAG_BUFFERED);
            assert(FLAG_FREE & FLAG_BUFFERED == 0) by (bit_vector);
            // The flag byte only ever gains the remembered bit.
            assert(h2@[o + 6] == h1@[o + 6]) by {
                if h2@ != h1@ {
                    assert(slot >= o + 16);
                }
            }
            assert(h2.spec_flag(obj, FLAG_FREE) == h0.spec_flag(obj, FLAG_FREE));
            assert(h0.spec_flag(obj, FLAG_BUFFERED) ==> h2.spec_flag(obj, FLAG_BUFFERED));
            assert(h2.spec_nrefs(obj) == h0.spec_nrefs(obj)) by {
                assert(h1@[o + 4] == h0@[o + 4] && h1@[o + 5] == h0@[o + 5]);
                if h2@ != h1@ {
                    assert(slot >= o + 16);
                }
            }
            let n = h0.spec_nrefs(obj);
            if h2@ != h1@ {
                assert forall|k: int| 0 <= k < n && k != i implies #[trigger] h2.spec_field(obj, k) == h0.spec_field(
                    obj,
                    k,
                ) by {
                    let q = o + 16 + 4 * k;
                    assert(h2@[q] == h1@[q] && h2@[q + 1] == h1@[q + 1] && h2@[q + 2] == h1@[q + 2] && h2@[q + 3]
                        == h1@[q + 3]);
                    assert(h1@[q] == h0@[q] && h1@[q + 1] == h0@[q + 1] && h1@[q + 2] == h0@[q + 2] && h1@[q + 3]
                        == h0@[q + 3]);
                }
                lemma_children_after_store(h0, h2, obj, i, val, n);
                assert(h2.spec_children(obj) == h2.children_upto(obj, n));
                if !h0.spec_children(obj).contains(c) {
                    assert(c == val);
                    assert(val.0 == h2.spec_field(obj, i));
                    assert(val.0 != NULL_ADDR) by {
                        lemma_children_non_null(h2, obj, n, c);
                    }
                    assert(h1.spec_flag(obj, FLAG_BUFFERED));
                } else {
                    assert(h0.spec_flag(obj, FLAG_BUFFERED));
                }
            } else {
                assert forall|k: int| 0 <= k < n implies #[trigger] h2.spec_field(obj, k) == h0.spec_field(obj, k) by {
                    let q = o + 16 + 4 * k;
                    assert(h1@[q] == h0@[q] && h1@[q + 1] == h0@[q + 1] && h1@[q + 2] == h0@[q + 2] && h1@[q + 3]
                        == h0@[q + 3]);
                }
                lemma_children_upto_frame(h2, h0, obj, n);
                assert(h0.spec_children(obj).contains(c));
                assert(h0.spec_flag(obj, FLAG_BUFFERED));
            }
        }
    }
}

/// No child of an object is the null handle.
proof fn lemma_children_non_null(h: Heap, obj: Handle, n: int, c: Handle)
    requires
        h.children_upto(obj, n).contains(c),
    ensures
        c.0 != NULL_ADDR,
    decreases n,
{
    if n > 0 {
        let prev = h.children_upto(obj, n - 1);
        if h.spec_field(obj, n - 1) != NULL_ADDR && !prev.contains(c) {
            let k = choose|k: int| 0 <= k < h.children_upto(obj, n).len() && h.children_upto(obj, n)[k] == c;
            assert(h.children_upto(obj, n) == prev.push(Handle(h.spec_field(obj, n - 1) as u32)));
            if k < prev.len() {
                assert(prev[k] == c);
            }
        } else if prev.contains(c) {
            lemma_children_non_null(h, obj, n - 1, c);
        }
    }
}

pub struct Generational {
    heap: Heap,
    roots: Roots,
    stats: GcStats,
    /// First address of the nursery. Everything below it is the old
    /// generation; everything from it up is young.
    nursery: u32,
    /// Next free address in the nursery.
    young_free: u32,
    /// Objects currently allocated in the nursery.
    young_objects: u64,
    /// Free blocks in the old generation.
    free: Vec<Handle>,
    /// First old-generation address never yet handed out.
    old_bump: u32,
    /// Bytes committed to live objects in the old generation.
    old_used: u32,
    /// Old objects that may hold a reference into the nursery.
    remembered: Vec<Handle>,
    /// Promoted objects whose fields have yet to be examined.
    worklist: Vec<Handle>,
    /// Promotions the current evacuation may still make: one per sixteen
    /// bytes of nursery, more than a well-formed nursery can hold.
    budget: u64,
    /// A promotion in the current evacuation found no room.
    stalled: bool,
    /// Bytes promoted by the current evacuation.
    promoted_bytes: u64,
}

/// `x` is a block of `h0` that a sweep keeps: allocated and marked.
pub open spec fn survivor(h0: Heap, x: int) -> bool {
    &&& !h0.spec_flag(Handle(x as u32), FLAG_FREE)
    &&& h0.spec_flag(Handle(x as u32), FLAG_MARK)
}

/// The bytes taken by the survivors among the blocks a walk of `heap` from
/// `at` steps over before `stop`, inside a region ending at `end`.
pub open spec fn survivor_bytes(heap: Heap, at: int, stop: int, end: int) -> int
    decreases end - at,
{
    if at >= stop || !step_ok(heap, at, end) {
        0
    } else {
        (if survivor(heap, at) {
            heap.spec_size(Handle(at as u32))
        } else {
            0
        }) + survivor_bytes(heap, at + heap.spec_size(Handle(at as u32)), stop, end)
    }
}

/// Stepping over one more block adds its bytes if it survives; and the
/// survivors of a walk never take more than the span it covers.
proof fn lemma_survivor_bytes_extend(heap: Heap, a: int, m: int, end: int)
    requires
        reaches(heap, a, m, end),
        step_ok(heap, m, end),
    ensures
        survivor_bytes(heap, a, m + heap.spec_size(Handle(m as u32)), end) == survivor_bytes(heap, a, m, end) + (
        if survivor(heap, m) {
            heap.spec_size(Handle(m as u32))
        } else {
            0
        }),
        0 <= survivor_bytes(heap, a, m, end) <= m - a,
    decreases end - a,
{
    let sm = heap.spec_size(Handle(m as u32));
    if a < m {
        let sa = heap.spec_size(Handle(a as u32));
        lemma_survivor_bytes_extend(heap, a + sa, m, end);
    } else {
        assert(survivor_bytes(heap, a + sm, m + sm, end) == 0);
    }
}

/// How many of the blocks a walk of `heap` from `at` steps over before
/// `stop` a sweep frees, and the bytes they take.
pub open spec fn casualties(heap: Heap, at: int, stop: int, end: int) -> (int, int)
    decreases end - at,
{
    if at >= stop || !step_ok(heap, at, end) {
        (0, 0)
    } else {
        let rest = casualties(heap, at + heap.spec_size(Handle(at as u32)), stop, end);
        if casualty(heap, at) {
            (rest.0 + 1, rest.1 + heap.spec_size(Handle(at as u32)))
        } else {
            rest
        }
    }
}

/// Stepping over one more block adds it to the casualties if a sweep frees
/// it; and a walk's casualties never outnumber, nor outweigh, its span.
proof fn lemma_casualties_extend(heap: Heap, a: int, m: int, end: int)
    requires
        reaches(heap, a, m, end),
        step_ok(heap, m, end),
    ensures
        casualties(heap, a, m + heap.spec_size(Handle(m as u32)), end) == (if casualty(heap, m) {
            (casualties(heap, a, m, end).0 + 1, casualties(heap, a, m, end).1 + heap.spec_size(Handle(m as u32)))
        } else {
            casualties(heap, a, m, end)
        }),
        0 <= casualties(heap, a, m, end).0 <= m - a,
        0 <= casualties(heap, a, m, end).1 <= m - a,
    decreases end - a,
{
    let sm = heap.spec_size(Handle(m as u32));
    if a < m {
        let sa = heap.spec_size(Handle(a as u32));
        lemma_casualties_extend(heap, a + sa, m, end);
    } else {
        assert(casualties(heap, a + sm, m + sm, end) == (0int, 0int));
    }
}

/// In `h`, the survivor `x` of `h0` is still allocated, no longer marked,
/// and has every other byte it had.
pub open spec fn swept_survivor(h0: Heap, h: Heap, x: int) -> bool {
    &&& !h.spec_flag(Handle(x as u32), FLAG_MARK)
    &&& !h.spec_flag(Handle(x as u32), FLAG_FREE)
    &&& forall|j: int| x <= j < x + h0.spec_size(Handle(x as u32)) && j != x + 6 ==> #[trigger] h@[j] == h0@[j]
}

/// `x` is a block of `h0` that a sweep reclaims: allocated and unmarked.
pub open spec fn casualty(h0: Heap, x: int) -> bool {
    &&& !h0.spec_flag(Handle(x as u32), FLAG_FREE)
    &&& !h0.spec_flag(Handle(x as u32), FLAG_MARK)
}

/// The flag byte of an aligned header lies outside any other aligned
/// header.
proof fn lemma_flags_apart(x: int, s: int)
    requires
        x % 16 == 0,
        s % 16 == 0,
        x != s,
    ensures
        !(s <= x + 6 < s + 16),
{
    assert(!(s <= x + 6 < s + 16)) by (nonlinear_arith)
        requires
            x % 16 == 0,
            s % 16 == 0,
            x != s,
    ;
}

/// Writes at or above `low` leave a swept survivor that ends below `low`
/// as it was.
proof fn lemma_swept_frame(h0: Heap, h1: Heap, h2: Heap, x: int, low: int)
    requires
        swept_survivor(h0, h1, x),
        0 <= x,
        x + 16 <= x + h0.spec_size(Handle(x as u32)) <= low,
        forall|j: int| 0 <= j < low ==> #[trigger] h2@[j] == h1@[j],
    ensures
        swept_survivor(h0, h2, x),
{
    assert(h2@[x + 6] == h1@[x + 6]);
    assert forall|j: int| x <= j < x + h0.spec_size(Handle(x as u32)) && j != x + 6 implies #[trigger] h2@[j] == h0@[j] by {
        assert(h2@[j] == h1@[j]);
    }
}

impl Generational {
    pub closed spec fn spec_nursery(&self) -> int {
        self.nursery as int
    }

    pub closed spec fn spec_young_free(&self) -> int {
        self.young_free as int
    }

    pub closed spec fn spec_old_bump(&self) -> int {
        self.old_bump as int
    }

    pub closed spec fn spec_old_used(&self) -> int {
        self.old_used as int
    }

    pub closed spec fn spec_remembered(&self) -> Seq<Handle> {
        self.remembered@
    }

    /// Promotions the current evacuation may still make.
    pub closed spec fn spec_budget(&self) -> u64 {
        self.budget
    }

    /// Promoted objects whose fields have yet to be examined.
    pub closed spec fn spec_pending(&self) -> int {
        self.worklist@.len() as int
    }

    /// Whether the current evacuation has had to leave a young object where
    /// it was, for want of room or budget in the old generation.
    pub closed spec fn spec_stalled(&self) -> bool {
        self.stalled
    }

    pub closed spec fn layout_ok(&self) -> bool {
        &&& self.heap.wf()
        &&& self.nursery % 16 == 0
        &&& 0 < self.nursery < self.heap.cap()
        &&& self.nursery <= self.young_free <= self.heap.cap()
        &&& self.young_free % 16 == 0
        &&& self.old_bump <= self.nursery
        &&& self.old_bump % 16 == 0
    }

    #[verifier::spinoff_prover]
    pub fn new(capacity: usize) -> (r: Generational)
        requires
            capacity >= 64,
            capacity < NULL_ADDR,
            capacity % 16 == 0,
        ensures
            r.gc_inv(),
            r.gc_heap().cap() == capacity,
            r.gc_roots().stack().len() == 0,
            r.gc_roots().globals().len() == 0,
            r.gc_used() == 0,
            r.spec_nursery() == capacity - crate::heap::spec_align_up((capacity / 64) as int),
            r.spec_young_free() == r.spec_nursery(),
            r.spec_remembered().len() == 0,
    {
        let heap = Heap::new(capacity);
        let cap = heap.capacity();
        let nursery_bytes = crate::heap::align_up(cap / NURSERY_FRACTION);
        let nursery = cap - nursery_bytes;
        Generational {
            heap,
            roots: Roots::new(),
            stats: GcStats::default(),
            nursery,
            young_free: nursery,
            young_objects: 0,
            free: Vec::new(),
            old_bump: 0,
            old_used: 0,
            remembered: Vec::new(),
            worklist: Vec::new(),
            budget: 0,
            stalled: false,
            promoted_bytes: 0,
        }
    }

    /// First address of the nursery.
    pub fn nursery_start(&self) -> (r: u32)
        ensures
            r == self.spec_nursery(),
    {
        self.nursery
    }

    /// Total bytes in the nursery.
    pub fn nursery_size(&self) -> (r: u32)
        requires
            self.gc_inv(),
        ensures
            r == self.gc_heap().cap() - self.spec_nursery(),
    {
        self.heap.capacity() - self.nursery
    }

    /// Bytes of the nursery handed out since the last collection.
    pub fn young_used(&self) -> (r: u32)
        requires
            self.gc_inv(),
        ensures
            r == self.spec_young_free() - self.spec_nursery(),
    {
        self.young_free - self.nursery
    }

    /// Bytes committed to live objects in the old generation.
    pub fn old_used(&self) -> (r: u32)
        ensures
            r == self.spec_old_used(),
    {
        self.old_used
    }

    /// True if `h` lives in the nursery.
    pub fn is_young(&self, h: Handle) -> (r: bool)
        ensures
            r == (h.0 >= self.spec_nursery()),
    {
        h.0 >= self.nursery
    }

    /// Old objects currently recorded as pointing into the nursery.
    pub fn remembered_count(&self) -> (r: usize)
        ensures
            r == self.spec_remembered().len(),
    {
        self.remembered.len()
    }

    /// True if `h` is recorded in the remembered set.
    pub fn is_remembered(&self, h: Handle) -> (r: bool)
        requires
            self.gc_inv(),
            self.gc_heap().hdr_in(h),
        ensures
            r == self.gc_heap().spec_flag(h, FLAG_BUFFERED),
    {
        self.heap.flag(h, FLAG_BUFFERED)
    }

    /// The size of the block at `at`, if its header describes an aligned
    /// block that ends at or below `end`.
    fn block_size(&self, at: u32, end: u32) -> (r: Option<u32>)
        requires
            self.heap.wf(),
            end <= self.heap.cap(),
        ensures
            r matches Some(s) ==> {
                &&& self.heap.spec_in_bounds(Handle(at))
                &&& s == self.heap.spec_size(Handle(at))
                &&& at + s <= end
            },
            r == if step_ok(self.heap, at as int, end as int) {
                Some(self.heap.spec_size(Handle(at)) as u32)
            } else {
                None
            },
    {
        let cap = self.heap.capacity();
        if at % 16 != 0 || at > cap - 16 {
            return None;
        }
        let s = self.heap.size(Handle(at));
        if s < 16 || s % 16 != 0 || at > end || s > end - at {
            None
        } else {
            Some(s)
        }
    }

    /// Every live object in the old generation, in address order.
    pub fn old_objects(&self) -> (r: Vec<Handle>)
        requires
            self.gc_inv(),
        ensures
            forall|j: int|
                0 <= j < r@.len() ==> {
                    &&& self.gc_heap().spec_in_bounds(#[trigger] r@[j])
                    &&& r@[j].0 < self.spec_nursery()
                    &&& !self.gc_heap().spec_flag(r@[j], FLAG_FREE)
                },
            forall|h: Handle| #[trigger]
                r@.contains(h) <==> walk_block(self.gc_heap(), 0, self.spec_old_bump(), h.0 as int)
                    && !self.gc_heap().spec_flag(h, FLAG_FREE),
    {
        let mut out: Vec<Handle> = Vec::new();
        let mut at: u32 = 0;
        let ghost end = self.old_bump as int;
        proof {
            lemma_reaches_stop(self.heap, 0, end);
        }
        while at < self.old_bump
            invariant
                self.layout_ok(),
                end == self.old_bump,
                forall|j: int|
                    0 <= j < out@.len() ==> {
                        &&& self.heap.spec_in_bounds(#[trigger] out@[j])
                        &&& out@[j].0 < self.nursery
                        &&& !self.heap.spec_flag(out@[j], FLAG_FREE)
                    },
                reaches(self.heap, 0, at as int, end),
                walk_stop(self.heap, 0, end) == walk_stop(self.heap, at as int, end),
                forall|h: Handle| #[trigger]
                    out@.contains(h) <==> walked(self.heap, 0, at as int, end, h.0 as int) && !self.heap.spec_flag(h, FLAG_FREE),
            ensures
                forall|j: int|
                    0 <= j < out@.len() ==> {
                        &&& self.heap.spec_in_bounds(#[trigger] out@[j])
                        &&& out@[j].0 < self.nursery
                        &&& !self.heap.spec_flag(out@[j], FLAG_FREE)
                    },
                forall|h: Handle| #[trigger]
                    out@.contains(h) <==> walk_block(self.heap, 0, end, h.0 as int) && !self.heap.spec_flag(h, FLAG_FREE),
            decreases self.old_bump - at,
        {
            proof {
                lemma_walk_progress(self.heap, 0, at as int, end);
            }
            match self.block_size(at, self.old_bump) {
                None => {
                    break;
                },
                Some(s) => {
                    if !self.heap.flag(Handle(at), FLAG_FREE) {
                    let ghost o = out@;
                        out.push(Handle(at));
                        proof {
                            assert forall|h: Handle| #[trigger] out@.contains(h) <==> walked(self.heap, 0, at + s, end, h.0 as int) && !self.heap.spec_flag(h, FLAG_FREE) by {
                                if h == Handle(at) {
                                    assert(out@[o.len() as int] == h);
                                }
                                if o.contains(h) {
                                    let k = choose|k: int| 0 <= k < o.len() && o[k] == h;
                                    assert(out@[k] == h);
                                }
                                if out@.contains(h) && h != Handle(at) {
                                    let k = choose|k: int| 0 <= k < out@.len() && out@[k] == h;
                                    assert(k < o.len());
                                    assert(o[k] == h);
                                }
                            }
                        }
                    } else {
                        proof {
                            assert forall|h: Handle| #[trigger] out@.contains(h) <==> walked(
                                self.heap,
                                0,
                                at + s,
                                end,
                                h.0 as int,
                            ) && !self.heap.spec_flag(h, FLAG_FREE) by {
                                if h.0 == at {
                                    assert(h == Handle(at));
                                }
                            }
                        }
                    }
                    at = at + s;
                },
            }
        }
        proof {
            if at >= self.old_bump {
                lemma_walk_progress(self.heap, 0, at as int, end);
            }
        }
        out
    }

    /// Reserve `size` bytes in the old generation: the first free block big
    /// enough, split if it is bigger, or else fresh space below the nursery.
    fn old_alloc(&mut self, size: u32) -> (r: Option<u32>)
        requires
            old(self).layout_ok(),
            size >= 16,
            size % 16 == 0,
        ensures
            same_collections(old(self).stats, final(self).stats),
            final(self).layout_ok(),
            final(self).heap.cap() == old(self).heap.cap(),
            final(self).nursery == old(self).nursery,
            final(self).young_free == old(self).young_free,
            final(self).roots == old(self).roots,
            final(self).worklist == old(self).worklist,
            final(self).budget == old(self).budget,
            final(self).remembered@ == old(self).remembered@,
            forall|j: int|
                old(self).nursery <= j < old(self).heap.cap() ==> #[trigger] final(self).heap@[j]
                    == old(self).heap@[j],
            r matches Some(at) ==> at % 16 == 0 && at + size <= old(self).nursery,
            final(self).stalled == old(self).stalled,
            old(self).old_bump <= final(self).old_bump <= old(self).old_bump + size,
            r is None ==> *final(self) == *old(self),
            size <= old(self).nursery - old(self).old_bump ==> r is Some,
            (exists|k: int|
                0 <= k < old(self).free@.len() && #[trigger] step_ok(
                    old(self).heap,
                    old(self).free@[k].0 as int,
                    old(self).nursery as int,
                ) && old(self).heap.spec_size(old(self).free@[k]) >= size) ==> r is Some,
    {
        let mut i: usize = 0;
        while i < self.free.len()
            invariant
                same_collections(old(self).stats, self.stats),
                *self == *old(self),
                forall|k: int|
                    0 <= k < i && #[trigger] step_ok(self.heap, self.free@[k].0 as int, self.nursery as int)
                        ==> self.heap.spec_size(self.free@[k]) < size,
                self.layout_ok(),
                self.heap.cap() == old(self).heap.cap(),
                self.nursery == old(self).nursery,
                self.young_free == old(self).young_free,
                self.roots == old(self).roots,
                self.worklist == old(self).worklist,
                self.budget == old(self).budget,
                self.remembered@ == old(self).remembered@,
                forall|j: int|
                    old(self).nursery <= j < old(self).heap.cap() ==> #[trigger] self.heap@[j]
                        == old(self).heap@[j],
                size % 16 == 0,
                size >= 16,
            decreases self.free@.len() - i,
        {
            let block = self.free[i];
            match self.block_size(block.0, self.nursery) {
                Some(bs) => {
                    if bs >= size {
                        self.free.swap_remove(i);
                        let remainder = bs - size;
                        assert((block.0 + size) % 16 == 0 && remainder % 16 == 0) by (nonlinear_arith)
                            requires
                                block.0 % 16 == 0,
                                size % 16 == 0,
                                bs % 16 == 0,
                                remainder == bs - size,
                        ;
                        if remainder > 0 {
                            let split = self.heap.emplace_block(block.0 + size, remainder);
                            self.free.push(split);
                        }
                        self.old_used = self.old_used.saturating_add(size);
                        return Some(block.0);
                    }
                },
                None => {},
            }
            i = i + 1;
        }
        if size <= self.nursery - self.old_bump {
            let at = self.old_bump;
            self.old_bump = self.old_bump + size;
            self.old_used = self.old_used.saturating_add(size);
            return Some(at);
        }
        None
    }

    /// Move a young object into the old generation, or report where it
    /// already went. Reached once for every reference to the object, so it
    /// gives the same answer every time.
    ///
    /// Anything that is not a well-formed young object is returned as it
    /// is. So is a young object for which the old generation has no room, or
    /// the current evacuation no budget, and then the evacuation is marked
    /// stalled.
    pub fn promote(&mut self, h: Handle) -> (r: Handle)
        requires
            old(self).gc_inv(),
        ensures
            same_collections(old(self).gc_stats(), final(self).gc_stats()),
            final(self).gc_inv(),
            final(self).gc_heap().cap() == old(self).gc_heap().cap(),
            final(self).gc_roots() == old(self).gc_roots(),
            final(self).spec_nursery() == old(self).spec_nursery(),
            final(self).spec_young_free() == old(self).spec_young_free(),
            final(self).spec_remembered() == old(self).spec_remembered(),
            final(self).spec_budget() <= old(self).spec_budget(),
            final(self).spec_pending() + final(self).spec_budget() == old(self).spec_pending() + old(self).spec_budget(),
            ({
                let hp = old(self).gc_heap();
                let young = h.0 >= old(self).spec_nursery() && hp.spec_in_bounds(h);
                let size = hp.spec_size(h);
                &&& !young ==> r == h && *final(self) == *old(self)
                &&& young && hp.spec_fwd(h) != NULL_ADDR ==> r.0 == hp.spec_fwd(h) && *final(self) == *old(self)
                &&& young && hp.spec_fwd(h) == NULL_ADDR && old(self).spec_budget() > 0 && size <= old(self).spec_nursery()
                    - old(self).spec_old_bump() ==> r != h
                &&& young && hp.spec_fwd(h) == NULL_ADDR && r == h ==> final(self).spec_stalled()
                &&& old(self).spec_stalled() ==> final(self).spec_stalled()
                &&& young && r != h && hp.spec_fwd(h) == NULL_ADDR ==> {
                    &&& r.0 % 16 == 0
                    &&& r.0 + size <= old(self).spec_nursery()
                    &&& final(self).gc_heap().spec_fwd(h) == r.0
                    &&& final(self).gc_heap().spec_generation(r) == OLD
                    &&& forall|j: int|
                        0 <= j < size && j != 6 ==> #[trigger] final(self).gc_heap()@[r.0 + j] == hp@[h.0 + j]
                }
            }),
    {
        if !self.is_young(h) || !self.heap.in_bounds(h) {
            return h;
        }
        let already = self.heap.forward(h);
        if !already.is_null() {
            return already;
        }
        let size = self.heap.size(h);
        if self.budget == 0 {
            self.stalled = true;
            return h;
        }
        let at = match self.old_alloc(size) {
            Some(at) => at,
            None => {
                self.stalled = true;
                return h;
            },
        };
        let ghost h0 = self.heap;
        let copy = self.heap.relocate(h, at);
        let ghost h1 = self.heap;
        self.heap.set_forward(h, copy);
        let ghost h2 = self.heap;
        self.heap.set_generation(copy, OLD);
        proof {
            let h3 = self.heap;
            let f0 = h2.spec_flags(copy);
            assert((((f0 & !0x30u8) | ((1u8 << 4u8) & 0x30u8)) & 0x30u8) >> 4u8 == 1u8) by (bit_vector);
            assert(h3.spec_generation(copy) == OLD);
            assert forall|j: int| 0 <= j < size && j != 6 implies #[trigger] h3@[copy.0 + j] == h0@[h.0 + j] by {
                assert(h1@[copy.0 + j] == h0@[h.0 + j]);
                assert(h2@[copy.0 + j] == h1@[copy.0 + j]);
            }
            assert(h3@[h.0 + 8] == h2@[h.0 + 8] && h3@[h.0 + 9] == h2@[h.0 + 9] && h3@[h.0 + 10] == h2@[h.0 + 10]
                && h3@[h.0 + 11] == h2@[h.0 + 11]);
        }
        self.stats.objects_promoted = self.stats.objects_promoted.saturating_add(1);
        self.stats.objects_copied = self.stats.objects_copied.saturating_add(1);
        self.budget = self.budget - 1;
        self.promoted_bytes = self.promoted_bytes.saturating_add(size as u64);
        self.worklist.push(copy);
        copy
    }

    /// Replace every young reference held by `obj` with the promoted
    /// address.
    pub fn scan_for_young(&mut self, obj: Handle)
        requires
            old(self).gc_inv(),
        ensures
            old(self).spec_stalled() ==> final(self).spec_stalled(),
            same_collections(old(self).gc_stats(), final(self).gc_stats()),
            final(self).gc_inv(),
            final(self).gc_heap().cap() == old(self).gc_heap().cap(),
            final(self).gc_roots() == old(self).gc_roots(),
            final(self).spec_nursery() == old(self).spec_nursery(),
            final(self).spec_young_free() == old(self).spec_young_free(),
            final(self).spec_remembered() == old(self).spec_remembered(),
            final(self).spec_budget() <= old(self).spec_budget(),
            final(self).spec_pending() + final(self).spec_budget() == old(self).spec_pending() + old(self).spec_budget(),
    {
        let cap = self.heap.capacity();
        if obj.0 > cap - 16 {
            return;
        }
        let n = self.heap.nrefs(obj);
        let mut i: u16 = 0;
        while i < n
            invariant
                old(self).stalled ==> self.stalled,
                same_collections(old(self).stats, self.stats),
                self.layout_ok(),
                self.heap.cap() == old(self).heap.cap(),
                self.roots == old(self).roots,
                self.nursery == old(self).nursery,
                self.young_free == old(self).young_free,
                self.remembered@ == old(self).remembered@,
                self.budget <= old(self).budget,
                self.worklist@.len() + self.budget == old(self).worklist@.len() + old(self).budget,
            decreases n - i,
        {
            if self.heap.field_ok(obj, i) {
                let child = self.heap.field(obj, i);
                if !child.is_null() && self.is_young(child) {
                    let moved = self.promote(child);
                    if self.heap.field_ok(obj, i) {
                        self.heap.set_field(obj, i, moved);
                    }
                }
            }
            i = i + 1;
        }
    }

    /// Promote everything in the nursery that is still reachable, and leave
    /// the nursery empty.
    ///
    /// The traversal starts from the shadow stack, the globals and the
    /// remembered set; each root or slot that named a young object is
    /// rewritten to its promoted address, and each promoted object's own
    /// fields are examined in turn. Whatever was not promoted died in the
    /// nursery and is counted as freed without being examined. The
    /// remembered set is emptied. If a promotion found no room, the nursery
    /// and the remembered set are left as they are instead.
    pub fn evacuate_nursery(&mut self)
        requires
            old(self).gc_inv(),
        ensures
            same_collections(old(self).gc_stats(), final(self).gc_stats()),
            final(self).gc_inv(),
            final(self).gc_heap().cap() == old(self).gc_heap().cap(),
            final(self).gc_roots().stack().len() == old(self).gc_roots().stack().len(),
            final(self).spec_nursery() == old(self).spec_nursery(),
            final(self).spec_young_free() == old(self).spec_young_free() || (final(self).spec_young_free()
                == final(self).spec_nursery() && final(self).spec_remembered().len() == 0),
            !final(self).spec_stalled() ==> final(self).spec_young_free() == final(self).spec_nursery()
                && final(self).spec_remembered().len() == 0,
            final(self).spec_stalled() ==> final(self).spec_young_free() == old(self).spec_young_free()
                && final(self).spec_remembered() == old(self).spec_remembered(),
    {
        let promoted_before = self.stats.objects_promoted;
        let young_bytes = self.young_free - self.nursery;
        self.worklist.clear();
        self.budget = ((self.heap.capacity() - self.nursery) / 16) as u64;
        self.stalled = false;
        self.promoted_bytes = 0;

        let depth = self.roots.depth();
        let mut s: usize = 0;
        while s < depth
            invariant
                same_collections(old(self).stats, self.stats),
                self.layout_ok(),
                self.heap.cap() == old(self).heap.cap(),
                self.nursery == old(self).nursery,
                self.young_free == old(self).young_free,
                self.remembered@ == old(self).remembered@,
                depth == self.roots.stack().len(),
                self.roots.stack().len() == old(self).roots.stack().len(),
            decreases depth - s,
        {
            let h = self.roots.get(RootSlot(s));
            if !h.is_null() && self.is_young(h) {
                let moved = self.promote(h);
                self.roots.set(RootSlot(s), moved);
            }
            s = s + 1;
        }
        let n = self.roots.global_count();
        let mut j: usize = 0;
        while j < n
            invariant
                same_collections(old(self).stats, self.stats),
                self.layout_ok(),
                self.heap.cap() == old(self).heap.cap(),
                self.nursery == old(self).nursery,
                self.young_free == old(self).young_free,
                self.remembered@ == old(self).remembered@,
                n == self.roots.globals().len(),
                self.roots.stack().len() == old(self).roots.stack().len(),
            decreases n - j,
        {
            let h = self.roots.global_at(j);
            if !h.is_null() && self.is_young(h) {
                let moved = self.promote(h);
                self.roots.set_global_at(j, moved);
            }
            j = j + 1;
        }
        let mut k: usize = 0;
        while k < self.remembered.len()
            invariant
                same_collections(old(self).stats, self.stats),
                self.layout_ok(),
                self.heap.cap() == old(self).heap.cap(),
                self.nursery == old(self).nursery,
                self.young_free == old(self).young_free,
                self.remembered@ == old(self).remembered@,
                self.roots.stack().len() == old(self).roots.stack().len(),
            decreases self.remembered@.len() - k,
        {
            let obj = self.remembered[k];
            self.scan_for_young(obj);
            k = k + 1;
        }
        while self.worklist.len() > 0
            invariant
                same_collections(old(self).stats, self.stats),
                self.layout_ok(),
                self.heap.cap() == old(self).heap.cap(),
                self.nursery == old(self).nursery,
                self.young_free == old(self).young_free,
                self.remembered@ == old(self).remembered@,
                self.roots.stack().len() == old(self).roots.stack().len(),
            decreases self.budget, self.worklist@.len(),
        {
            let obj = self.worklist.pop().unwrap();
            self.scan_for_young(obj);
        }

        if self.stalled {
            return;
        }
        let mut k: usize = 0;
        while k < self.remembered.len()
            invariant
                !self.stalled,
                same_collections(old(self).stats, self.stats),
                self.layout_ok(),
                self.heap.cap() == old(self).heap.cap(),
                self.nursery == old(self).nursery,
                self.young_free == old(self).young_free,
                self.roots.stack().len() == old(self).roots.stack().len(),
            decreases self.remembered@.len() - k,
        {
            let obj = self.remembered[k];
            if obj.0 <= self.heap.capacity() - 16 {
                self.heap.set_flag(obj, FLAG_BUFFERED, false);
            }
            k = k + 1;
        }
        self.remembered.clear();
        self.stats.remembered_entries = 0;

        let promoted = self.stats.objects_promoted.saturating_sub(promoted_before);
        let died = self.young_objects.saturating_sub(promoted);
        self.stats.objects_freed = self.stats.objects_freed.saturating_add(died);
        let died_bytes = (young_bytes as u64).saturating_sub(self.promoted_bytes);
        self.stats.bytes_freed = self.stats.bytes_freed.saturating_add(died_bytes);
        self.young_free = self.nursery;
        self.young_objects = 0;
    }

    /// Collect the nursery only.
    pub fn minor_collect(&mut self)
        requires
            old(self).gc_inv(),
        ensures
            final(self).gc_stats().collections == sat_add(old(self).gc_stats().collections, 1),
            final(self).gc_stats().minor_collections == sat_add(old(self).gc_stats().minor_collections, 1),
            final(self).gc_stats().major_collections == old(self).gc_stats().major_collections,
            final(self).gc_stats().allocation_failures == old(self).gc_stats().allocation_failures,
            final(self).spec_young_free() == old(self).spec_young_free() || (final(self).spec_young_free()
                == final(self).spec_nursery() && final(self).spec_remembered().len() == 0),
            !final(self).spec_stalled() ==> final(self).spec_young_free() == final(self).spec_nursery()
                && final(self).spec_remembered().len() == 0,
            final(self).gc_inv(),
            final(self).gc_heap().cap() == old(self).gc_heap().cap(),
            final(self).gc_roots().stack().len() == old(self).gc_roots().stack().len(),
            final(self).spec_nursery() == old(self).spec_nursery(),
    {
        let start = clock::now();
        self.evacuate_nursery();
        self.stats.collections = self.stats.collections.saturating_add(1);
        self.stats.minor_collections = self.stats.minor_collections.saturating_add(1);
        let pause = clock::nanos_since(&start);
        self.stats.record_pause(pause);
    }

    /// Collect the nursery and then the old generation.
    pub fn major_collect(&mut self)
        requires
            old(self).gc_inv(),
        ensures
            final(self).gc_stats().collections == sat_add(old(self).gc_stats().collections, 1),
            final(self).gc_stats().major_collections == sat_add(old(self).gc_stats().major_collections, 1),
            final(self).gc_stats().minor_collections == old(self).gc_stats().minor_collections,
            final(self).gc_stats().allocation_failures == old(self).gc_stats().allocation_failures,
            !final(self).spec_stalled() ==> final(self).spec_young_free() == final(self).spec_nursery()
                && final(self).spec_remembered().len() == 0,
            final(self).gc_inv(),
            final(self).gc_heap().cap() == old(self).gc_heap().cap(),
            final(self).gc_roots().stack().len() == old(self).gc_roots().stack().len(),
            final(self).spec_nursery() == old(self).spec_nursery(),
    {
        let start = clock::now();
        self.evacuate_nursery();
        self.mark_old();
        self.sweep_old();
        self.stats.collections = self.stats.collections.saturating_add(1);
        self.stats.major_collections = self.stats.major_collections.saturating_add(1);
        let pause = clock::nanos_since(&start);
        self.stats.record_pause(pause);
    }

    /// Mark `h` if it addresses a well-formed, unmarked object, and queue
    /// its unmarked children.
    fn visit(&mut self, h: Handle)
        requires
            old(self).layout_ok(),
        ensures
            same_collections(old(self).stats, final(self).stats),
            final(self).layout_ok(),
            final(self).heap.cap() == old(self).heap.cap(),
            final(self).roots == old(self).roots,
            final(self).nursery == old(self).nursery,
            final(self).young_free == old(self).young_free,
            final(self).stalled == old(self).stalled,
            final(self).remembered == old(self).remembered,
            final(self).old_bump == old(self).old_bump,
            final(self).worklist@.len() >= old(self).worklist@.len(),
            unmarked(final(self).heap@, old(self).heap.cap() / 16) <= unmarked(
                old(self).heap@,
                old(self).heap.cap() / 16,
            ),
            final(self).worklist@.len() > old(self).worklist@.len() ==> unmarked(
                final(self).heap@,
                old(self).heap.cap() / 16,
            ) < unmarked(old(self).heap@, old(self).heap.cap() / 16),
            steps(old(self).heap, old(self).worklist@, h, final(self).heap, final(self).worklist@),
    {
        let ghost cap = self.heap.cap();
        if !self.heap.in_bounds(h) || self.heap.is_marked(h) {
            return;
        }
        let ghost before = self.heap;
        self.heap.set_marked(h, true);
        proof {
            let f = before.spec_flags(h);
            assert((f | 1u8) & 1u8 != 0) by (bit_vector);
            lemma_count_unsat_set(
                before@,
                self.heap@,
                cap / 16,
                6,
                |x: u8| x & FLAG_MARK != 0,
                h.0 as int,
                f | FLAG_MARK,
            );
        }
        self.stats.objects_marked = self.stats.objects_marked.saturating_add(1);
        let n = self.heap.nrefs(h) as u32;
        if 16 + 4 * n <= self.heap.capacity() - h.0 {
            let children = self.heap.children(h);
            proof {
                crate::trace::lemma_flag_write_keeps_children(before, self.heap, h, before.spec_flags(h) | FLAG_MARK);
            }
            let ghost me = *self;
            let ghost hp = self.heap;
            let ghost w0 = old(self).worklist@;
            let mut k: usize = 0;
            while k < children.len()
                invariant
                    same_collections(old(self).stats, self.stats),
                    self.heap == me.heap,
                    self.roots == me.roots,
                    self.nursery == me.nursery,
                    self.young_free == me.young_free,
                    self.stalled == me.stalled,
                    self.remembered == me.remembered,
                    self.old_bump == me.old_bump,
                    me.layout_ok(),
                    hp == me.heap,
                    k <= children@.len(),
                    self.worklist@.len() >= w0.len(),
                    self.worklist@.subrange(0, w0.len() as int) == w0,
                    forall|j: int| w0.len() <= j < self.worklist@.len() ==> children@.contains(#[trigger] self.worklist@[j]),
                    forall|j: int| 0 <= j < k ==> self.worklist@.contains(#[trigger] children@[j]) || hp.spec_flag(children@[j], FLAG_MARK),
                decreases children@.len() - k,
            {
                let c = children[k];
                let ghost wb = self.worklist@;
                if !self.heap.in_bounds(c) || !self.heap.is_marked(c) {
                    self.worklist.push(c);
                    proof {
                        assert(self.worklist@[wb.len() as int] == c);
                        assert forall|j: int| 0 <= j < k implies self.worklist@.contains(#[trigger] children@[j]) || hp.spec_flag(children@[j], FLAG_MARK) by {
                            if wb.contains(children@[j]) {
                                let x = choose|x: int| 0 <= x < wb.len() && wb[x] == children@[j];
                                assert(self.worklist@[x] == children@[j]);
                            }
                        }
                        assert(self.worklist@.subrange(0, w0.len() as int) =~= wb.subrange(0, w0.len() as int));
                    }
                }
                k = k + 1;
            }
            proof {
                let w2 = self.worklist@;
                assert forall|c: Handle| #[trigger] w0.contains(c) implies w2.contains(c) by {
                    let x = choose|x: int| 0 <= x < w0.len() && w0[x] == c;
                    assert(w2.subrange(0, w0.len() as int)[x] == c);
                }
                assert forall|c: Handle| #[trigger] w2.contains(c) implies w0.contains(c) || before.spec_children(h).contains(c) by {
                    let x = choose|x: int| 0 <= x < w2.len() && w2[x] == c;
                    if x < w0.len() {
                        assert(w2.subrange(0, w0.len() as int)[x] == c);
                    }
                }
                assert forall|c: Handle| #[trigger] before.spec_children(h).contains(c) implies w2.contains(c) || hp.spec_flag(c, FLAG_MARK) by {
                    let x = choose|x: int| 0 <= x < children@.len() && children@[x] == c;
                }
            }
        } else {
            proof {
                assert(before.spec_nrefs(h) == self.heap.spec_nrefs(h));
            }
        }
    }

    /// Mark everything reachable from the roots.
    ///
    /// On a heap whose reachable objects are laid out sanely and carry no
    /// stale mark, every reachable object ends up marked and nothing but
    /// their mark bits changes.
    fn mark_old(&mut self)
        requires
            old(self).layout_ok(),
        ensures
            same_collections(old(self).stats, final(self).stats),
            final(self).layout_ok(),
            final(self).heap.cap() == old(self).heap.cap(),
            final(self).roots == old(self).roots,
            final(self).nursery == old(self).nursery,
            final(self).young_free == old(self).young_free,
            final(self).stalled == old(self).stalled,
            final(self).remembered == old(self).remembered,
            trace_ready(old(self).heap, old(self).roots.slots()) ==> {
                &&& flags_only(old(self).heap, old(self).roots.slots(), final(self).heap)
                &&& forall|h: Handle| #[trigger]
                    reachable(old(self).heap, old(self).roots.slots(), h) ==> final(self).heap.spec_flag(h, FLAG_MARK)
            },
    {
        let roots = self.roots.iter();
        self.worklist.clear();
        let ghost heap0 = self.heap;
        let ghost slots = self.roots.slots();
        let ghost ready = trace_ready(heap0, slots);
        let mut i: usize = 0;
        while i < roots.len()
            invariant
                same_collections(old(self).stats, self.stats),
                i <= roots@.len(),
                self.layout_ok(),
                self.roots == old(self).roots,
                self.heap.cap() == old(self).heap.cap(),
                self.nursery == old(self).nursery,
                self.young_free == old(self).young_free,
                self.stalled == old(self).stalled,
                self.remembered == old(self).remembered,
                self.heap == heap0,
                self.worklist@ == roots@.subrange(0, i as int),
            decreases roots@.len() - i,
        {
            self.worklist.push(roots[i]);
            i = i + 1;
            assert(self.worklist@ =~= roots@.subrange(0, i as int));
        }
        proof {
            assert(self.worklist@ =~= roots@);
            if ready {
                lemma_mark_start(heap0, slots);
                assert forall|c: Handle| #[trigger] self.worklist@.contains(c) && heap0.spec_in_bounds(c) implies reachable(
                    heap0,
                    slots,
                    c,
                ) by {
                    lemma_root_reachable(heap0, slots, c);
                }
                assert(marking(heap0, slots, heap0, self.worklist@));
            }
        }
        let ghost cap = self.heap.cap();
        while self.worklist.len() > 0
            invariant
                same_collections(old(self).stats, self.stats),
                self.layout_ok(),
                self.heap.cap() == cap,
                self.roots == old(self).roots,
                self.nursery == old(self).nursery,
                self.young_free == old(self).young_free,
                self.stalled == old(self).stalled,
                self.remembered == old(self).remembered,
                heap0.wf(),
                heap0.cap() == cap,
                slots == old(self).roots.slots(),
                ready == trace_ready(heap0, slots),
                ready ==> marking(heap0, slots, self.heap, self.worklist@),
                forall|r: Handle| #[trigger]
                    slots.contains(r) && self.heap.spec_in_bounds(r) ==> self.heap.spec_flag(r, FLAG_MARK)
                        || self.worklist@.contains(r),
            decreases unmarked(self.heap@, cap / 16), self.worklist@.len(),
        {
            let ghost pending = self.worklist@;
            let h = self.worklist.pop().unwrap();
            let ghost rest = self.worklist@;
            let ghost prev = self.heap;
            proof {
                assert(pending =~= rest.push(h));
                lemma_pop_shape(pending, rest, h);
            }
            self.visit(h);
            proof {
                assert forall|r: Handle| #[trigger] slots.contains(r) && self.heap.spec_in_bounds(r) implies self.heap.spec_flag(
                    r,
                    FLAG_MARK,
                ) || self.worklist@.contains(r) by {
                    lemma_step_keeps_any(prev, pending, rest, h, self.heap, self.worklist@, r);
                }
                if ready {
                    lemma_mark_step(heap0, slots, prev, pending, rest, h, self.heap, self.worklist@);
                }
            }
        }
        proof {
            if ready {
                assert(self.worklist@ =~= Seq::<Handle>::empty());
                assert forall|r: Handle| #[trigger] slots.contains(r) && heap0.spec_in_bounds(r) implies self.heap.spec_flag(
                    r,
                    FLAG_MARK,
                ) by {
                    lemma_flags_only_header(heap0, slots, self.heap, r);
                }
                lemma_mark_done(heap0, slots, self.heap);
            }
        }
    }

    /// Return every unmarked old object to the free list, merging
    /// neighbouring free blocks, and clear the mark on every survivor.
    ///
    /// Every allocated, marked block of the old generation's walk survives
    /// unmarked, with every other byte as it was; every allocated, unmarked
    /// one ends up flagged free.
    #[verifier::spinoff_prover]
    #[verifier::rlimit(40)]
    fn sweep_old(&mut self)
        requires
            old(self).layout_ok(),
        ensures
            same_collections(old(self).stats, final(self).stats),
            final(self).layout_ok(),
            final(self).heap.cap() == old(self).heap.cap(),
            final(self).roots == old(self).roots,
            final(self).nursery == old(self).nursery,
            final(self).young_free == old(self).young_free,
            final(self).stalled == old(self).stalled,
            final(self).remembered == old(self).remembered,
            final(self).old_used == survivor_bytes(
                old(self).heap,
                0,
                walk_stop(old(self).heap, 0, old(self).old_bump as int),
                old(self).old_bump as int,
            ),
            ({
                let freed = casualties(
                    old(self).heap,
                    0,
                    walk_stop(old(self).heap, 0, old(self).old_bump as int),
                    old(self).old_bump as int,
                );
                &&& final(self).stats.objects_freed == sat_add(old(self).stats.objects_freed, freed.0 as u64)
                &&& final(self).stats.bytes_freed == sat_add(old(self).stats.bytes_freed, freed.1 as u64)
            }),
            forall|x: int| #[trigger]
                walk_block(old(self).heap, 0, old(self).old_bump as int, x) && survivor(old(self).heap, x)
                    ==> swept_survivor(old(self).heap, final(self).heap, x),
            forall|x: int| #[trigger]
                walk_block(old(self).heap, 0, old(self).old_bump as int, x) && casualty(old(self).heap, x)
                    ==> final(self).heap.spec_flag(Handle(x as u32), FLAG_FREE),
    {
        let end = self.old_bump;
        let mut free: Vec<Handle> = Vec::new();
        let mut run: Option<u32> = None;
        let mut used: u32 = 0;
        let mut at: u32 = 0;
        let ghost h0 = self.heap;
        let ghost mut low: int = 0;
        proof {
            lemma_reaches_stop(h0, 0, end as int);
            assert(reaches(h0, 0, 0, end as int));
        }
        while at < end
            invariant
                h0 == old(self).heap,
                reaches(h0, 0, at as int, end as int),
                walk_stop(h0, 0, end as int) == walk_stop(h0, at as int, end as int),
                forall|j: int| at <= j < h0.cap() ==> #[trigger] self.heap@[j] == h0@[j],
                0 <= low <= at,
                run matches Some(s) ==> low <= s,
                forall|x: int| #[trigger]
                    walked(h0, 0, at as int, end as int, x) && survivor(h0, x) ==> x + h0.spec_size(Handle(x as u32))
                        <= low && x >= 0 && h0.spec_size(Handle(x as u32)) >= 16 && swept_survivor(h0, self.heap, x),
                forall|x: int| #[trigger]
                    walked(h0, 0, at as int, end as int, x) && casualty(h0, x) ==> x % 16 == 0 && 0 <= x < at
                        && self.heap.spec_flag(Handle(x as u32), FLAG_FREE),
                same_collections(old(self).stats, self.stats),
                self.layout_ok(),
                self.heap.cap() == old(self).heap.cap(),
                self.roots == old(self).roots,
                self.nursery == old(self).nursery,
                self.young_free == old(self).young_free,
                self.stalled == old(self).stalled,
                self.remembered == old(self).remembered,
                used == survivor_bytes(h0, 0, at as int, end as int),
                self.stats.objects_freed == sat_add(
                    old(self).stats.objects_freed,
                    casualties(h0, 0, at as int, end as int).0 as u64,
                ),
                self.stats.bytes_freed == sat_add(
                    old(self).stats.bytes_freed,
                    casualties(h0, 0, at as int, end as int).1 as u64,
                ),
                end == self.old_bump,
                at <= end,
                at % 16 == 0,
                run matches Some(s) ==> s % 16 == 0 && s < at,
        ensures
            h0 == old(self).heap,
            used == survivor_bytes(h0, 0, walk_stop(h0, 0, end as int), end as int),
            self.stats.objects_freed == sat_add(
                old(self).stats.objects_freed,
                casualties(h0, 0, walk_stop(h0, 0, end as int), end as int).0 as u64,
            ),
            self.stats.bytes_freed == sat_add(
                old(self).stats.bytes_freed,
                casualties(h0, 0, walk_stop(h0, 0, end as int), end as int).1 as u64,
            ),
            forall|x: int| #[trigger] walk_block(h0, 0, end as int, x) == walked(h0, 0, at as int, end as int, x),
            0 <= low <= at,
            run matches Some(s) ==> low <= s && s < at,
            forall|x: int| #[trigger]
                walked(h0, 0, at as int, end as int, x) && survivor(h0, x) ==> x + h0.spec_size(Handle(x as u32))
                    <= low && x >= 0 && h0.spec_size(Handle(x as u32)) >= 16 && swept_survivor(h0, self.heap, x),
            forall|x: int| #[trigger]
                walked(h0, 0, at as int, end as int, x) && casualty(h0, x) ==> x % 16 == 0 && 0 <= x < at
                    && self.heap.spec_flag(Handle(x as u32), FLAG_FREE),
            decreases end - at,
        {
            proof {
                let a = at as int;
                assert(self.heap@[a] == h0@[a] && self.heap@[a + 1] == h0@[a + 1] && self.heap@[a + 2] == h0@[a + 2]
                    && self.heap@[a + 3] == h0@[a + 3]);
                lemma_walk_progress(h0, 0, a, end as int);
            }
            let size = match self.block_size(at, end) {
                None => {
                    proof {
                        assert(walk_stop(h0, at as int, end as int) == at);
                    }
                    break;
                },
                Some(s) => s,
            };
            let h = Handle(at);
            let ghost hb = self.heap;
            let ghost lb = low;
            proof {
                lemma_survivor_bytes_extend(h0, 0, at as int, end as int);
                lemma_casualties_extend(h0, 0, at as int, end as int);
            }
            proof {
                assert(self.heap@[at + 6] == h0@[at + 6]);
            }
            let was_free = self.heap.flag(h, FLAG_FREE);
            if !was_free && self.heap.is_marked(h) {
                self.heap.set_marked(h, false);
                let ghost hm = self.heap;
                proof {
                    let f = hb.spec_flags(h);
                    assert((f & !FLAG_MARK) & FLAG_FREE == f & FLAG_FREE) by (bit_vector);
                }
                used = used.saturating_add(size);
                proof {
                    assert forall|x: int| #[trigger]
                        walked(h0, 0, at as int, end as int, x) && casualty(h0, x) implies self.heap.spec_flag(
                            Handle(x as u32),
                            FLAG_FREE,
                        ) by {
                        assert(hm@[x + 6] == hb@[x + 6]);
                    }
                }
                if let Some(s) = run {
                    free.push(self.heap.emplace_block(s, at - s));
                    run = None;
                    proof {
                        assert(self.heap@[at + 6] == hm@[at + 6]);
                        assert(FLAG_FREE & FLAG_FREE != 0) by (bit_vector);
                        assert forall|x: int| #[trigger]
                            walked(h0, 0, at as int, end as int, x) && casualty(h0, x) implies self.heap.spec_flag(
                                Handle(x as u32),
                                FLAG_FREE,
                            ) by {
                            if x != s as int {
                                lemma_flags_apart(x, s as int);
                                assert(self.heap@[x + 6] == hm@[x + 6]);
                            }
                        }
                    }
                }
                proof {
                    assert forall|j: int| 0 <= j < lb implies #[trigger] self.heap@[j] == hb@[j] by {}
                    assert forall|j: int| at + size <= j < h0.cap() implies #[trigger] self.heap@[j] == hb@[j] by {}
                    assert forall|j: int| at <= j < at + size && j != at + 6 implies #[trigger] self.heap@[j] == h0@[j] by {}
                    low = at + size;
                }
            } else {
                if !was_free {
                    self.stats.objects_freed = self.stats.objects_freed.saturating_add(1);
                    self.stats.bytes_freed = self.stats.bytes_freed.saturating_add(size as u64);
                    self.heap.poison(h);
                    proof {
                        let f = hb.spec_flags(h);
                        assert((f | FLAG_FREE) & FLAG_FREE != 0) by (bit_vector);
                        assert forall|x: int| #[trigger]
                            walked(h0, 0, at as int, end as int, x) && casualty(h0, x) implies self.heap.spec_flag(
                                Handle(x as u32),
                                FLAG_FREE,
                            ) by {
                            assert(self.heap@[x + 6] == hb@[x + 6]);
                        }
                    }
                }
                if run.is_none() {
                    run = Some(at);
                }
                proof {
                    assert forall|j: int| 0 <= j < lb implies #[trigger] self.heap@[j] == hb@[j] by {}
                    assert forall|j: int| at + size <= j < h0.cap() implies #[trigger] self.heap@[j] == hb@[j] by {}
                    assert(!survivor(h0, at as int));
                }
            }
            proof {
                assert forall|x: int| #[trigger]
                    walked(h0, 0, at + size, end as int, x) && survivor(h0, x) implies x + h0.spec_size(Handle(x as u32))
                        <= low && x >= 0 && h0.spec_size(Handle(x as u32)) >= 16 && swept_survivor(h0, self.heap, x) by {
                    if x != at as int {
                        assert(walked(h0, 0, at as int, end as int, x));
                        lemma_swept_frame(h0, hb, self.heap, x, lb);
                    }
                }
            }
            at = at + size;
        }
        if let Some(s) = run {
            let ghost hb = self.heap;
            free.push(self.heap.emplace_block(s, at - s));
            proof {
                assert forall|x: int| #[trigger]
                    walk_block(h0, 0, end as int, x) && survivor(h0, x) implies swept_survivor(h0, self.heap, x) by {
                    assert(walked(h0, 0, at as int, end as int, x));
                    lemma_swept_frame(h0, hb, self.heap, x, low);
                }
                assert(FLAG_FREE & FLAG_FREE != 0) by (bit_vector);
                assert forall|x: int| #[trigger]
                    walk_block(h0, 0, end as int, x) && casualty(h0, x) implies self.heap.spec_flag(
                        Handle(x as u32),
                        FLAG_FREE,
                    ) by {
                    assert(walked(h0, 0, at as int, end as int, x));
                    if x != s as int {
                        lemma_flags_apart(x, s as int);
                        assert(self.heap@[x + 6] == hb@[x + 6]);
                    }
                }
            }
        }
        self.free = free;
        self.old_used = used;
    }

    fn account(&mut self, h: Handle) -> (r: Handle)
        requires
            old(self).layout_ok(),
            old(self).heap.hdr_in(h),
        ensures
            r == h,
            final(self).heap == old(self).heap,
            final(self).roots == old(self).roots,
            final(self).nursery == old(self).nursery,
            final(self).young_free == old(self).young_free,
            final(self).old_bump == old(self).old_bump,
            final(self).stats == counted_allocation(
                old(self).stats,
                old(self).heap.spec_size(h),
                old(self).gc_used() as u32,
            ),
    {
        self.stats.allocations = self.stats.allocations.saturating_add(1);
        let size = self.heap.size(h);
        self.stats.bytes_allocated = self.stats.bytes_allocated.saturating_add(size as u64);
        let used = self.used_bytes();
        self.stats.observe_used(used);
        h
    }
}

impl Collector for Generational {
    closed spec fn gc_heap(&self) -> Heap {
        self.heap
    }

    closed spec fn gc_roots(&self) -> Roots {
        self.roots
    }

    closed spec fn gc_stats(&self) -> GcStats {
        self.stats
    }

    closed spec fn gc_used(&self) -> int {
        let young = if self.young_free >= self.nursery {
            self.young_free - self.nursery
        } else {
            0
        };
        if self.old_used + young > u32::MAX {
            u32::MAX as int
        } else {
            self.old_used + young
        }
    }

    closed spec fn gc_inv(&self) -> bool {
        self.layout_ok()
    }

    proof fn lemma_inv_heap(&self) {
    }

    fn name(&self) -> &'static str {
        "generational"
    }

    fn heap(&self) -> (r: &Heap) {
        &self.heap
    }

    fn heap_mut(&mut self) -> (r: &mut Heap) {
        &mut self.heap
    }

    fn roots(&self) -> (r: &Roots) {
        &self.roots
    }

    fn roots_mut(&mut self) -> (r: &mut Roots) {
        &mut self.roots
    }

    fn stats(&self) -> (r: &GcStats) {
        &self.stats
    }

    /// Old bytes in use plus the nursery handed out, pinned at `u32::MAX`.
    fn used_bytes(&self) -> (r: u32) {
        let young = if self.young_free >= self.nursery {
            self.young_free - self.nursery
        } else {
            0
        };
        self.old_used.saturating_add(young)
    }

    /// An object that fits in the nursery is born young, at the nursery's
    /// bump pointer, whenever there is room there; one too large for the
    /// nursery is born old, and succeeds whenever fresh old space can hold
    /// it twice over.
    #[verifier::spinoff_prover]
    #[verifier::rlimit(40)]
    fn allocate(&mut self, nrefs: u16, ndata: u32) -> (r: Result<Handle, GcError>)
        ensures
            ({
                let need = spec_size_for(nrefs as int, ndata as int);
                let cap = old(self).gc_heap().cap();
                &&& need <= cap - old(self).spec_nursery() && need <= cap - old(self).spec_young_free() ==> r
                    == Ok::<Handle, GcError>(Handle(old(self).spec_young_free() as u32)) && final(self).spec_young_free()
                    == old(self).spec_young_free() + need
                &&& need > cap - old(self).spec_nursery() && 2 * need <= old(self).spec_nursery() - old(
                    self,
                ).spec_old_bump() ==> (r is Ok)
                &&& r matches Ok(h) ==> (h.0 >= final(self).spec_nursery() <==> need <= cap - old(self).spec_nursery())
                &&& need > cap - old(self).spec_nursery() ==> (r matches Ok(h) ==> final(self).gc_heap().spec_generation(h)
                    == OLD)
            }),
    {
        let need = Heap::size_for(nrefs, ndata);
        let cap = self.heap.capacity();

        // Anything too large to ever fit in the nursery is born old.
        if need > cap - self.nursery {
            if self.old_alloc(need).is_none() {
                self.major_collect();
            }
            return match self.old_alloc(need) {
                Some(at) => {
                    let h = self.heap.emplace(at, nrefs, ndata);
                    let ghost placed = self.heap;
                    self.heap.set_generation(h, OLD);
                    proof {
                        let f0 = placed.spec_flags(h);
                        assert((((f0 & !0x30u8) | ((1u8 << 4u8) & 0x30u8)) & 0x30u8) >> 4u8 == 1u8) by (bit_vector);
                        assert(self.heap.spec_generation(h) == OLD);
                        placed.lemma_blank_keeps(
                            self.heap,
                            h,
                            nrefs as int,
                            ndata as int,
                            h.0 + 6,
                            self.heap@[h.0 + 6],
                        );
                    }
                    Ok(self.account(h))
                },
                None => {
                    self.stats.allocation_failures = self.stats.allocation_failures.saturating_add(1);
                    Err(GcError::OutOfMemory { requested: need, used: self.used_bytes(), capacity: cap })
                },
            };
        }

        if need > cap - self.young_free {
            self.minor_collect();
            if (self.old_used as u64) * 100 > (self.nursery as u64) * 75 {
                self.major_collect();
            }
        }
        if need > cap - self.young_free {
            self.stats.allocation_failures = self.stats.allocation_failures.saturating_add(1);
            return Err(GcError::OutOfMemory { requested: need, used: self.used_bytes(), capacity: cap });
        }
        let at = self.young_free;
        self.young_free = self.young_free + need;
        self.young_objects = self.young_objects.saturating_add(1);
        let h = self.heap.emplace(at, nrefs, ndata);
        Ok(self.account(h))
    }

    /// The write barrier.
    ///
    /// A store of a young address into an old object is the one edge a minor
    /// collection cannot discover for itself, so the old object is recorded,
    /// once, in the remembered set. Stores into young objects, and stores of
    /// old or null values, are not recorded.
    ///
    /// So if every old block that refers into the nursery was flagged as
    /// remembered before a store into an old block or a young object, it
    /// still is afterwards.
    fn write_field(&mut self, obj: Handle, i: u16, val: Handle)
        ensures
            final(self).gc_heap().spec_field(obj, i as int) == val.0,
            ({
                let old_to_young = val.0 != NULL_ADDR && val.0 >= old(self).spec_nursery() && obj.0
                    < old(self).spec_nursery();
                &&& old_to_young ==> final(self).gc_heap().spec_flag(obj, FLAG_BUFFERED)
                &&& old_to_young && !old(self).gc_heap().spec_flag(obj, FLAG_BUFFERED) ==> final(self).spec_remembered() == old(self).spec_remembered().push(obj)
                &&& !(old_to_young && !old(self).gc_heap().spec_flag(obj, FLAG_BUFFERED)) ==> final(self).spec_remembered() == old(self).spec_remembered()
            }),
            final(self).spec_nursery() == old(self).spec_nursery(),
            final(self).spec_old_bump() == old(self).spec_old_bump(),
            final(self).gc_stats().barrier_hits == sat_add(old(self).gc_stats().barrier_hits, 1),
            barrier_ok(old(self).gc_heap(), old(self).spec_old_bump(), old(self).spec_nursery()) && (obj.0
                >= old(self).spec_nursery() || on_tiles(old(self).gc_heap()@, 0, old(self).spec_old_bump(), obj.0 as int))
                ==> barrier_ok(final(self).gc_heap(), old(self).spec_old_bump(), old(self).spec_nursery()),
    {
        let ghost h0 = self.heap;
        self.stats.barrier_hits = self.stats.barrier_hits.saturating_add(1);
        if !val.is_null() && self.is_young(val) && !self.is_young(obj) && !self.heap.flag(
            obj,
            FLAG_BUFFERED,
        ) {
            let ghost f0 = self.heap.spec_flags(obj);
            self.heap.set_flag(obj, FLAG_BUFFERED, true);
            assert((f0 | 4u8) & 4u8 != 0) by (bit_vector);
            assert(self.heap.spec_flag(obj, FLAG_BUFFERED));
            self.remembered.push(obj);
            self.stats.remembered_entries = self.remembered.len() as u64;
        }
        let ghost flagged = self.heap.spec_flag(obj, FLAG_BUFFERED);
        let ghost h1 = self.heap;
        if self.heap.field_ok(obj, i) {
            self.heap.set_field(obj, i, val);
            assert(self.heap@[obj.0 + 6] == old(self).heap@[obj.0 + 6] || flagged);
        }
        assert(flagged ==> self.heap.spec_flag(obj, FLAG_BUFFERED));
        proof {
            if barrier_ok(h0, self.old_bump as int, self.nursery as int) && (obj.0 >= self.nursery || on_tiles(
                h0@,
                0,
                self.old_bump as int,
                obj.0 as int,
            )) {
                lemma_barrier_store(h0, h1, self.heap, self.old_bump as int, self.nursery as int, obj, i as int, val);
            }
        }
    }

    /// A full collection is a major one: the nursery is evacuated and the
    /// old generation marked and swept.
    fn collect(&mut self)
        ensures
            final(self).gc_stats().collections == sat_add(old(self).gc_stats().collections, 1),
            final(self).gc_stats().major_collections == sat_add(old(self).gc_stats().major_collections, 1),
            final(self).gc_stats().minor_collections == old(self).gc_stats().minor_collections,
            final(self).gc_stats().allocation_failures == old(self).gc_stats().allocation_failures,
            !final(self).spec_stalled() ==> final(self).spec_young_free() == final(self).spec_nursery()
                && final(self).spec_remembered().len() == 0,
    {
        self.major_collect();
    }
}

} // verus!
