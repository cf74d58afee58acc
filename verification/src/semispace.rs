//! Semispace copying, with Cheney's scan.
//!
//! The heap is divided in two and only one half is used at a time.
//! Allocation bumps a pointer through that half; when it fills, everything
//! still live is copied into the other half and the halves swap. The half
//! just left is garbage in its entirety and is never examined, so the cost
//! of a collection is proportional to what survives.
//!
//! To-space is its own worklist: `scan` is how far the copied objects'
//! fields have been updated, `free` is where the next copy goes, and
//! everything between them is copied but not yet examined. `free` moves
//! during the loop, which ends when `scan` catches up with it.
//!
//! An object reachable by two paths is copied once: copying leaves a
//! forwarding note in the original, in from-space, and every later reference
//! to it finds the note instead of copying again.

use crate::clock;
use crate::compact::{lemma_reaches_stop, lemma_walk_progress, reaches, step_ok, walk_block, walk_stop, walked};
use crate::collector::{Collector, GcError};
use crate::heap::{spec_size_for, Handle, Heap, NULL_ADDR};
use crate::roots::{RootSlot, Roots};
use crate::stats::{counted_allocation, same_collections, sat_add, GcStats};
use vstd::prelude::*;

verus! {

/// `h` lies in the half currently being allocated into.
pub open spec fn in_half(s: SemiSpace, h: Handle) -> bool {
    s.spec_current() <= h.0 < s.spec_current() + s.spec_half()
}

/// What asking for the to-space copy of `h` does, taking `before` to
/// `after` and answering `r`. An object already in to-space, a null or
/// malformed handle, and an object too large for what is left are answered
/// with themselves; an object whose forwarding note already points into
/// to-space is answered with the note; anything else is copied to the free
/// pointer, which moves past it, and the original is left a note saying
/// where the copy is. Nothing else in the heap changes.
pub open spec fn copied(before: SemiSpace, h: Handle, after: SemiSpace, r: Handle) -> bool {
    let hp = before.gc_heap();
    let fwd = hp.spec_fwd(h);
    let size = hp.spec_size(h);
    &&& after.spec_current() == before.spec_current()
    &&& after.spec_half() == before.spec_half()
    &&& if in_half(before, h) || h.0 == NULL_ADDR || !hp.spec_in_bounds(h) {
        r == h && after.gc_heap() == hp && after.spec_free() == before.spec_free()
    } else if fwd != NULL_ADDR && in_half(before, Handle(fwd as u32)) {
        r.0 == fwd && after.gc_heap() == hp && after.spec_free() == before.spec_free()
    } else if size > before.spec_current() + before.spec_half() - before.spec_free() {
        r == h && after.gc_heap() == hp && after.spec_free() == before.spec_free()
    } else {
        &&& r.0 == before.spec_free()
        &&& after.spec_free() == before.spec_free() + size
        &&& after.gc_heap().spec_fwd(h) == r.0
        &&& after.gc_heap().cap() == hp.cap()
        &&& forall|j: int| 0 <= j < size ==> #[trigger] after.gc_heap()@[r.0 + j] == hp@[h.0 + j]
        &&& forall|j: int|
            0 <= j < hp.cap() && !(r.0 <= j < r.0 + size) && !(h.0 + 8 <= j < h.0 + 12)
                ==> #[trigger] after.gc_heap()@[j] == hp@[j]
    }
}

/// Copying leaves the original well-formed, outside to-space, and holding a
/// note that points at the copy, which lies in to-space.
proof fn lemma_copy_leaves_note(s0: SemiSpace, h: Handle, s1: SemiSpace, r1: Handle)
    requires
        s0.layout_ok(),
        copied(s0, h, s1, r1),
        !(in_half(s0, h) || h.0 == NULL_ADDR || !s0.gc_heap().spec_in_bounds(h)),
        !(s0.gc_heap().spec_fwd(h) != NULL_ADDR && in_half(s0, Handle(s0.gc_heap().spec_fwd(h) as u32))),
        !(s0.gc_heap().spec_size(h) > s0.spec_current() + s0.spec_half() - s0.spec_free()),
    ensures
        !in_half(s1, h),
        h.0 != NULL_ADDR,
        s1.gc_heap().spec_in_bounds(h),
        s1.gc_heap().spec_fwd(h) == r1.0,
        r1.0 != NULL_ADDR,
        in_half(s1, Handle(r1.0)),
{
    let hp = s0.gc_heap();
    let hq = s1.gc_heap();
    let size = hp.spec_size(h);
    assert(h.0 + 16 <= s0.spec_current() || h.0 >= s0.spec_current() + s0.spec_half());
    assert forall|j: int| h.0 <= j < h.0 + 8 implies hq@[j] == hp@[j] by {
        assert(!(r1.0 <= j < r1.0 + size));
    }
    assert(hq.spec_size(h) == size);
}

/// An object reachable by two paths is copied once: asking for its copy a
/// second time answers with the first copy and changes nothing.
pub proof fn law_copy_once(s0: SemiSpace, s1: SemiSpace, s2: SemiSpace, h: Handle, r1: Handle, r2: Handle)
    requires
        s0.layout_ok(),
        copied(s0, h, s1, r1),
        copied(s1, h, s2, r2),
    ensures
        r2 == r1,
        s2.gc_heap() == s1.gc_heap(),
        s2.spec_free() == s1.spec_free(),
{
    let hp = s0.gc_heap();
    if in_half(s0, h) || h.0 == NULL_ADDR || !hp.spec_in_bounds(h) {
    } else if hp.spec_fwd(h) != NULL_ADDR && in_half(s0, Handle(hp.spec_fwd(h) as u32)) {
    } else if hp.spec_size(h) > s0.spec_current() + s0.spec_half() - s0.spec_free() {
    } else {
        lemma_copy_leaves_note(s0, h, s1, r1);
        assert(Handle(s1.gc_heap().spec_fwd(h) as u32) == Handle(r1.0));
    }
}

pub struct SemiSpace {
    heap: Heap,
    roots: Roots,
    stats: GcStats,
    /// Size of each half.
    half: u32,
    /// Start of the half currently being allocated into.
    current: u32,
    /// Start of the half currently standing idle.
    idle: u32,
    /// Next free address in the current half.
    free: u32,
    /// During a collection, how far to-space has been scanned.
    scan: u32,
    /// Objects currently in the space being allocated into.
    live_objects: u64,
    collections_with_no_survivors: u64,
}

impl SemiSpace {
    pub closed spec fn spec_half(&self) -> int {
        self.half as int
    }

    pub closed spec fn spec_current(&self) -> int {
        self.current as int
    }

    pub closed spec fn spec_idle(&self) -> int {
        self.idle as int
    }

    pub closed spec fn spec_free(&self) -> int {
        self.free as int
    }

    pub closed spec fn spec_empty_collections(&self) -> u64 {
        self.collections_with_no_survivors
    }

    /// The two halves split the arena exactly; one is current, the other
    /// idle, and the free pointer lies inside the current one.
    pub closed spec fn layout_ok(&self) -> bool {
        &&& self.heap.wf()
        &&& self.half % 16 == 0
        &&& self.half * 2 == self.heap.cap()
        &&& ((self.current == 0 && self.idle == self.half) || (self.current == self.half
            && self.idle == 0))
        &&& self.current <= self.free <= self.current + self.half
        &&& self.free % 16 == 0
    }

    /// Each half is exactly half of a `capacity`-byte arena, so `capacity`
    /// must be a multiple of 32.
    pub fn new(capacity: usize) -> (r: SemiSpace)
        requires
            capacity >= 32,
            capacity < NULL_ADDR,
            capacity % 32 == 0,
        ensures
            r.gc_inv(),
            r.gc_heap().cap() == capacity,
            r.gc_roots().stack().len() == 0,
            r.gc_roots().globals().len() == 0,
            r.gc_used() == 0,
            r.spec_half() == capacity / 2,
            r.spec_current() == 0,
            r.spec_idle() == capacity / 2,
            r.spec_free() == 0,
            r.spec_empty_collections() == 0,
    {
        let heap = Heap::new(capacity);
        assert(capacity / 2 % 16 == 0 && (capacity / 2) * 2 == capacity) by (nonlinear_arith)
            requires
                capacity % 32 == 0,
        ;
        let half = (capacity / 2) as u32;
        SemiSpace {
            heap,
            roots: Roots::new(),
            stats: GcStats::default(),
            half,
            current: 0,
            idle: half,
            free: 0,
            scan: 0,
            live_objects: 0,
            collections_with_no_survivors: 0,
        }
    }

    /// Bytes in each half. Only one half is usable at a time.
    pub fn half_size(&self) -> (r: u32)
        ensures
            r == self.spec_half(),
    {
        self.half
    }

    /// Start of the half currently being allocated into.
    pub fn current_space(&self) -> (r: u32)
        ensures
            r == self.spec_current(),
    {
        self.current
    }

    /// Start of the half standing idle.
    pub fn idle_space(&self) -> (r: u32)
        ensures
            r == self.spec_idle(),
    {
        self.idle
    }

    /// Next free address in the current half.
    pub fn free_pointer(&self) -> (r: u32)
        ensures
            r == self.spec_free(),
    {
        self.free
    }

    /// One past the last usable byte of the current half.
    pub fn limit(&self) -> (r: u32)
        requires
            self.gc_inv(),
        ensures
            r == self.spec_current() + self.spec_half(),
    {
        self.current + self.half
    }

    /// True if `h` lies in the half currently being allocated into.
    pub fn in_current_space(&self, h: Handle) -> (r: bool)
        requires
            self.gc_inv(),
        ensures
            r == (self.spec_current() <= h.0 < self.spec_current() + self.spec_half()),
    {
        h.0 >= self.current && h.0 < self.current + self.half
    }

    /// The size of the block at `at`, if its header describes an aligned
    /// block that ends at or below `end`.
    fn block_size(&self, at: u32, end: u32) -> (r: Option<u32>)
        requires
            self.heap.wf(),
            end <= self.heap.cap(),
        ensures
            r matches Some(s) ==> {
                &&& self.heap.spec_in_bounds(Handle(at))
                &&& s == self.heap.spec_size(Handle(at))
                &&& at + s <= end
            },
            r == if step_ok(self.heap, at as int, end as int) {
                Some(self.heap.spec_size(Handle(at)) as u32)
            } else {
                None
            },
    {
        let cap = self.heap.capacity();
        if at % 16 != 0 || at > cap - 16 {
            return None;
        }
        let s = self.heap.size(Handle(at));
        if s < 16 || s % 16 != 0 || at > end || s > end - at {
            None
        } else {
            Some(s)
        }
    }

    /// Every object in the current half, in address order.
    pub fn objects(&self) -> (r: Vec<Handle>)
        requires
            self.gc_inv(),
        ensures
            forall|j: int|
                0 <= j < r@.len() ==> self.gc_heap().spec_in_bounds(#[trigger] r@[j]) && self.spec_current()
                    <= r@[j].0 < self.spec_free(),
            forall|h: Handle| #[trigger]
                r@.contains(h) <==> walk_block(self.gc_heap(), self.spec_current(), self.spec_free(), h.0 as int),
    {
        let mut out: Vec<Handle> = Vec::new();
        let mut at = self.current;
        let ghost start = self.current as int;
        let ghost end = self.free as int;
        proof {
            lemma_reaches_stop(self.heap, start, end);
        }
        while at < self.free
            invariant
                self.layout_ok(),
                self.current <= at,
                start == self.current,
                end == self.free,
                forall|j: int|
                    0 <= j < out@.len() ==> self.heap.spec_in_bounds(#[trigger] out@[j]) && self.current
                        <= out@[j].0 < self.free,
                reaches(self.heap, start, at as int, end),
                walk_stop(self.heap, start, end) == walk_stop(self.heap, at as int, end),
                forall|h: Handle| #[trigger] out@.contains(h) <==> walked(self.heap, start, at as int, end, h.0 as int),
            ensures
                forall|j: int|
                    0 <= j < out@.len() ==> self.heap.spec_in_bounds(#[trigger] out@[j]) && self.current
                        <= out@[j].0 < self.free,
                forall|h: Handle| #[trigger] out@.contains(h) <==> walk_block(self.heap, start, end, h.0 as int),
            decreases self.free - at,
        {
            proof {
                lemma_walk_progress(self.heap, start, at as int, end);
            }
            match self.block_size(at, self.free) {
                None => {
                    break;
                },
                Some(s) => {
                    let ghost o = out@;
                    out.push(Handle(at));
                    proof {
                        assert forall|h: Handle| #[trigger] out@.contains(h) <==> walked(self.heap, start, at + s, end, h.0 as int) by {
                            if h == Handle(at) {
                                assert(out@[o.len() as int] == h);
                            }
                            if o.contains(h) {
                                let k = choose|k: int| 0 <= k < o.len() && o[k] == h;
                                assert(out@[k] == h);
                            }
                            if out@.contains(h) && h != Handle(at) {
                                let k = choose|k: int| 0 <= k < out@.len() && out@[k] == h;
                                assert(k < o.len());
                                assert(o[k] == h);
                            }
                        }
                    }
                    at = at + s;
                },
            }
        }
        proof {
            if at >= self.free {
                lemma_walk_progress(self.heap, start, at as int, end);
            }
        }
        out
    }

    /// Collections after which nothing at all survived.
    pub fn empty_collections(&self) -> (r: u64)
        ensures
            r == self.spec_empty_collections(),
    {
        self.collections_with_no_survivors
    }

    /// Ensure `h` has a copy in to-space and return where that copy is.
    ///
    /// Reached once for every reference to an object, so it answers the same
    /// way every time: an object already in to-space is its own answer, and
    /// one that already left a forwarding note in from-space answers with
    /// the note. A handle that addresses no well-formed object, or an
    /// object that would not fit in what is left of to-space, is returned
    /// unchanged.
    fn copy_object(&mut self, h: Handle) -> (r: Handle)
        requires
            old(self).layout_ok(),
        ensures
            final(self).layout_ok(),
            final(self).heap.cap() == old(self).heap.cap(),
            final(self).roots == old(self).roots,
            final(self).current == old(self).current,
            final(self).half == old(self).half,
            final(self).idle == old(self).idle,
            final(self).scan == old(self).scan,
            final(self).free >= old(self).free,
            old(self).current <= h.0 < old(self).current + old(self).half ==> r == h
                && final(self).heap == old(self).heap && final(self).free == old(self).free,
            copied(*old(self), h, *final(self), r),
            same_collections(old(self).stats, final(self).stats),
    {
        if self.in_current_space(h) || h.is_null() || !self.heap.in_bounds(h) {
            return h;
        }
        let fwd = self.heap.forward(h);
        if !fwd.is_null() && self.in_current_space(fwd) {
            return fwd;
        }
        let size = self.heap.size(h);
        let dest = self.free;
        let limit = self.current + self.half;
        if size > limit - dest {
            return h;
        }
        let copy = self.heap.relocate(h, dest);
        self.free = self.free + size;
        self.stats.objects_copied = self.stats.objects_copied.saturating_add(1);
        // Leave a note in the original saying where the object went. Every
        // reference still waiting to be followed points at the original.
        self.heap.set_forward(h, Handle(dest));
        copy
    }

    /// Run the Cheney loop until to-space holds a complete, self-consistent
    /// copy of everything reachable.
    ///
    /// Take the object at `scan`, replace each of its references with the
    /// address of that target's copy, and move `scan` past it. Copying a
    /// target moves `free` further on; the loop ends when `scan` reaches
    /// `free`, re-reading `free` every time round.
    fn scan_to_space(&mut self)
        requires
            old(self).layout_ok(),
            old(self).current <= old(self).scan <= old(self).free,
        ensures
            final(self).layout_ok(),
            final(self).heap.cap() == old(self).heap.cap(),
            final(self).roots == old(self).roots,
            final(self).current == old(self).current,
            final(self).half == old(self).half,
            final(self).idle == old(self).idle,
            same_collections(old(self).stats, final(self).stats),
            old(self).scan <= final(self).scan <= final(self).free,
            final(self).free >= old(self).free,
            final(self).scan == final(self).free || !step_ok(
                final(self).heap,
                final(self).scan as int,
                final(self).free as int,
            ),
    {
        while self.scan < self.free
            invariant
                same_collections(old(self).stats, self.stats),
                old(self).scan <= self.scan,
                old(self).free <= self.free,
                self.layout_ok(),
                self.heap.cap() == old(self).heap.cap(),
                self.roots == old(self).roots,
                self.current == old(self).current,
                self.half == old(self).half,
                self.idle == old(self).idle,
                self.current <= self.scan <= self.free,
            ensures
                self.scan == self.free || !step_ok(self.heap, self.scan as int, self.free as int),
            decreases self.current + self.half - self.scan,
        {
            let s = match self.block_size(self.scan, self.free) {
                None => {
                    break;
                },
                Some(s) => s,
            };
            let h = Handle(self.scan);
            let n = self.heap.nrefs(h);
            let mut i: u16 = 0;
            while i < n
                invariant
                    self.layout_ok(),
                    self.heap.cap() == old(self).heap.cap(),
                    self.roots == old(self).roots,
                    self.current == old(self).current,
                    self.half == old(self).half,
                    self.idle == old(self).idle,
                    self.current <= self.scan <= self.free,
                    self.scan + s <= self.free,
                    h.0 == self.scan,
                    same_collections(old(self).stats, self.stats),
                    old(self).scan <= self.scan,
                    old(self).free <= self.free,
                decreases n - i,
            {
                if self.heap.field_ok(h, i) {
                    let child = self.heap.field(h, i);
                    if !child.is_null() {
                        let moved_to = self.copy_object(child);
                        if self.heap.field_ok(h, i) {
                            self.heap.set_field(h, i, moved_to);
                        }
                    }
                }
                i = i + 1;
            }
            self.scan = self.scan + s;
        }
    }

    fn account(&mut self, h: Handle) -> (r: Handle)
        requires
            old(self).layout_ok(),
            old(self).heap.hdr_in(h),
        ensures
            r == h,
            final(self).heap == old(self).heap,
            final(self).roots == old(self).roots,
            final(self).current == old(self).current,
            final(self).half == old(self).half,
            final(self).idle == old(self).idle,
            final(self).free == old(self).free,
            final(self).stats == counted_allocation(
                old(self).stats,
                old(self).heap.spec_size(h),
                (old(self).free - old(self).current) as u32,
            ),
    {
        self.stats.allocations = self.stats.allocations.saturating_add(1);
        self.live_objects = self.live_objects.saturating_add(1);
        let size = self.heap.size(h);
        self.stats.bytes_allocated = self.stats.bytes_allocated.saturating_add(size as u64);
        self.stats.observe_used(self.free - self.current);
        h
    }
}

impl Collector for SemiSpace {
    closed spec fn gc_heap(&self) -> Heap {
        self.heap
    }

    closed spec fn gc_roots(&self) -> Roots {
        self.roots
    }

    closed spec fn gc_stats(&self) -> GcStats {
        self.stats
    }

    closed spec fn gc_used(&self) -> int {
        if self.free >= self.current {
            self.free - self.current
        } else {
            0
        }
    }

    closed spec fn gc_inv(&self) -> bool {
        self.layout_ok()
    }

    proof fn lemma_inv_heap(&self) {
    }

    fn name(&self) -> &'static str {
        "semispace copying"
    }

    fn heap(&self) -> (r: &Heap) {
        &self.heap
    }

    fn heap_mut(&mut self) -> (r: &mut Heap) {
        &mut self.heap
    }

    fn roots(&self) -> (r: &Roots) {
        &self.roots
    }

    fn roots_mut(&mut self) -> (r: &mut Roots) {
        &mut self.roots
    }

    fn stats(&self) -> (r: &GcStats) {
        &self.stats
    }

    /// Bytes allocated in the current half.
    fn used_bytes(&self) -> (r: u32)
        ensures
            r == (if self.spec_free() >= self.spec_current() {
                self.spec_free() - self.spec_current()
            } else {
                0
            }),
    {
        if self.free >= self.current {
            self.free - self.current
        } else {
            0
        }
    }

    /// Allocation succeeds at the free pointer, without collecting,
    /// whenever the object fits in what is left of the current half.
    #[verifier::spinoff_prover]
    fn allocate(&mut self, nrefs: u16, ndata: u32) -> (r: Result<Handle, GcError>)
        ensures
            spec_size_for(nrefs as int, ndata as int) <= old(self).spec_current() + old(self).spec_half() - old(self).spec_free() ==> r
                == Ok::<Handle, GcError>(Handle(old(self).spec_free() as u32)) && final(self).spec_free()
                == old(self).spec_free() + spec_size_for(nrefs as int, ndata as int),
    {
        let need = Heap::size_for(nrefs, ndata);
        if need > self.limit() - self.free {
            self.collect();
        }
        if need > self.limit() - self.free {
            self.stats.allocation_failures = self.stats.allocation_failures.saturating_add(1);
            return Err(
                GcError::OutOfMemory { requested: need, used: self.used_bytes(), capacity: self.half },
            );
        }
        let at = self.free;
        self.free = self.free + need;
        let h = self.heap.emplace(at, nrefs, ndata);
        Ok(self.account(h))
    }

    fn write_field(&mut self, obj: Handle, i: u16, val: Handle)
        ensures
            final(self).gc_heap().spec_field(obj, i as int) == val.0,
            crate::heap::same_outside(
                final(self).gc_heap()@,
                old(self).gc_heap()@,
                obj.0 + 16 + 4 * i,
                obj.0 + 16 + 4 * i + 4,
            ),
            final(self).gc_stats() == old(self).gc_stats(),
    {
        self.heap.set_field(obj, i, val);
    }

    /// A collection swaps the halves and copies everything reachable from
    /// the roots into the one that was idle.
    fn collect(&mut self)
        ensures
            final(self).spec_current() == old(self).spec_idle(),
            final(self).spec_idle() == old(self).spec_current(),
            final(self).gc_stats().collections == sat_add(old(self).gc_stats().collections, 1),
            final(self).gc_stats().major_collections == sat_add(old(self).gc_stats().major_collections, 1),
            final(self).gc_stats().minor_collections == old(self).gc_stats().minor_collections,
    {
        let start = clock::now();
        let before = self.used_bytes();
        let before_objects = self.live_objects;
        let copied_before = self.stats.objects_copied;

        // Swap the halves. Everything the mutator built is now in
        // from-space, and to-space is empty.
        let was = self.current;
        self.current = self.idle;
        self.idle = was;
        self.free = self.current;
        self.scan = self.current;

        // Copying a root both moves the object and gives the new address to
        // store back into the root itself.
        let depth = self.roots.depth();
        let mut s: usize = 0;
        while s < depth
            invariant
                self.layout_ok(),
                self.heap.cap() == old(self).heap.cap(),
                self.roots.stack().len() == depth,
                self.roots.stack().len() == old(self).roots.stack().len(),
                self.scan == self.current,
                same_collections(old(self).stats, self.stats),
                self.current == old(self).idle,
                self.idle == old(self).current,
            decreases depth - s,
        {
            let h = self.roots.get(RootSlot(s));
            if !h.is_null() {
                let moved_to = self.copy_object(h);
                self.roots.set(RootSlot(s), moved_to);
            }
            s = s + 1;
        }
        let n = self.roots.global_count();
        let mut j: usize = 0;
        while j < n
            invariant
                self.layout_ok(),
                self.heap.cap() == old(self).heap.cap(),
                n == self.roots.globals().len(),
                self.roots.stack().len() == old(self).roots.stack().len(),
                self.scan == self.current,
                same_collections(old(self).stats, self.stats),
                self.current == old(self).idle,
                self.idle == old(self).current,
            decreases n - j,
        {
            let h = self.roots.global_at(j);
            if !h.is_null() {
                let moved_to = self.copy_object(h);
                self.roots.set_global_at(j, moved_to);
            }
            j = j + 1;
        }

        self.scan_to_space();

        // From-space is abandoned wholesale; nothing in it is examined.
        let survivors = self.stats.objects_copied.saturating_sub(copied_before);
        self.live_objects = survivors;
        self.stats.objects_freed = self.stats.objects_freed.saturating_add(
            before_objects.saturating_sub(survivors),
        );
        let after = self.used_bytes();
        self.stats.bytes_freed = self.stats.bytes_freed.saturating_add(before.saturating_sub(after) as u64);
        if after == 0 {
            self.collections_with_no_survivors = self.collections_with_no_survivors.saturating_add(1);
        }
        self.stats.collections = self.stats.collections.saturating_add(1);
        self.stats.major_collections = self.stats.major_collections.saturating_add(1);
        let pause = clock::nanos_since(&start);
        self.stats.record_pause(pause);
    }
}

} // verus!
