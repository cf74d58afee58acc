//! Reference counting.
//!
//! Every object records how many references point at it, and when that count
//! reaches zero the object is dead, immediately and by definition.
//!
//! A count changes at exactly four moments: a reference is pushed onto the
//! shadow stack or popped off it; a reference is stored into a field,
//! replacing what was there; a global binding is rebound; an object dies,
//! releasing everything it referred to. Freeing an object returns its memory
//! and releases every reference it held, which may kill more objects, so
//! [`RefCount::release`] carries an explicit worklist rather than recursing.
//!
//! When a reference is overwritten, the new value is retained before the old
//! one is released: for `x.field = x.field` the other order frees the object
//! and then resurrects a corpse.
//!
//! A group of objects that reference each other keeps its own counts above
//! zero forever; reference counting alone cannot reclaim cycles.

use crate::clock;
use crate::collector::{Collector, GcError};
use crate::heap::{spec_size_for, Handle, Heap, FLAG_FREE, NULL_ADDR, POISON};
use crate::roots::Roots;
use crate::space::{free_blocks_stay_free, hb, is_free_byte, live_blocks_kept, lemma_count_unsat_drop, lemma_count_unsat_frame, unfree_count, FreeListSpace};
use crate::stats::{sat_add, GcStats};
use vstd::prelude::*;

verus! {

/// What a count update may do to the heap: nothing outside the four count
/// bytes of an aligned header, so no header's flags change.
pub open spec fn only_count_changed(before: Heap, after: Heap, h: Handle) -> bool {
    &&& h.0 % 16 == 0
    &&& crate::heap::same_outside(after@, before@, h.0 + 12, h.0 + 16)
}

/// `after` is `before` with the count of `h` one higher and nothing else
/// changed.
pub open spec fn counted_up(before: Heap, after: Heap, h: Handle) -> bool {
    &&& crate::heap::same_outside(after@, before@, h.0 + 12, h.0 + 16)
    &&& after.spec_rc(h) == before.spec_rc(h) + 1
}

/// `after` is `before` with the count of `h` one lower and nothing else
/// changed.
pub open spec fn counted_down(before: Heap, after: Heap, h: Handle) -> bool {
    &&& crate::heap::same_outside(after@, before@, h.0 + 12, h.0 + 16)
    &&& after.spec_rc(h) == before.spec_rc(h) - 1
}

/// Four bytes are determined by the little-endian number they spell.
proof fn lemma_le32_bytes(b1: Seq<u8>, b2: Seq<u8>, o: int)
    requires
        0 <= o,
        o + 4 <= b1.len(),
        o + 4 <= b2.len(),
        crate::heap::le32(b1, o) == crate::heap::le32(b2, o),
    ensures
        b1[o] == b2[o],
        b1[o + 1] == b2[o + 1],
        b1[o + 2] == b2[o + 2],
        b1[o + 3] == b2[o + 3],
{
    let (x0, x1, x2, x3) = (b1[o], b1[o + 1], b1[o + 2], b1[o + 3]);
    let (y0, y1, y2, y3) = (b2[o], b2[o + 1], b2[o + 2], b2[o + 3]);
    assert(x0 == y0 && x1 == y1 && x2 == y2 && x3 == y3) by (nonlinear_arith)
        requires
            x0 as int + 256 * x1 + 65536 * x2 + 16777216 * x3 == y0 as int + 256 * y1 + 65536 * y2
                + 16777216 * y3,
    ;
}

/// Retaining an object and then releasing it leaves the heap exactly as it
/// was: the count goes up by one and back down, and nothing else moves.
pub proof fn law_retain_then_release(a: Heap, b: Heap, c: Heap, h: Handle)
    requires
        a.spec_in_bounds(h),
        counted_up(a, b, h),
        counted_down(b, c, h),
    ensures
        c@ == a@,
{
    assert(c.spec_rc(h) == a.spec_rc(h));
    lemma_le32_bytes(c@, a@, h.0 + 12);
    assert(c@ =~= a@);
}

/// Counting `val` up leaves the slot count of an aligned `obj` alone, and
/// with it which of its slots exist.
proof fn lemma_count_keeps_slot(h0: Heap, h1: Heap, obj: Handle, i: int, val: Handle)
    requires
        h0.spec_in_bounds(val),
        obj.0 % 16 == 0,
        counted_up(h0, h1, val),
    ensures
        h0.slot_ok(obj, i) ==> h1.slot_ok(obj, i),
{
    if h0.slot_ok(obj, i) {
        assert(h1@[obj.0 + 4] == h0@[obj.0 + 4]);
        assert(h1@[obj.0 + 5] == h0@[obj.0 + 5]);
    }
}

/// Counting `h` up leaves it an object in bounds, with the size it had.
proof fn lemma_count_keeps_bounds(h0: Heap, h1: Heap, h: Handle)
    requires
        h0.spec_in_bounds(h),
        counted_up(h0, h1, h),
    ensures
        h1.spec_in_bounds(h),
        h1.spec_size(h) == h0.spec_size(h),
{
    assert(h1@[h.0 as int] == h0@[h.0 as int] && h1@[h.0 + 1] == h0@[h.0 + 1] && h1@[h.0 + 2] == h0@[h.0 + 2]
        && h1@[h.0 + 3] == h0@[h.0 + 3]);
    lemma_le32_bytes(h1@, h0@, h.0 as int);
}

/// Counting `val` up leaves a slot of an aligned `obj` that is not `val`'s
/// count holding what it held.
#[verifier::spinoff_prover]
#[verifier::rlimit(30)]
proof fn lemma_count_keeps_field(h0: Heap, h1: Heap, obj: Handle, i: int, val: Handle)
    requires
        h0.spec_in_bounds(val),
        obj.0 % 16 == 0,
        0 <= i,
        obj.0 + 16 + 4 * i + 4 <= h0.cap(),
        obj.0 + 16 + 4 * i != val.0 + 12,
        counted_up(h0, h1, val),
    ensures
        h1.spec_field(obj, i) == h0.spec_field(obj, i),
{
    let o = obj.0 + 16 + 4 * i;
    assert(o % 4 == 0 && (val.0 + 12) % 4 == 0);
    assert(h1@[o] == h0@[o] && h1@[o + 1] == h0@[o + 1] && h1@[o + 2] == h0@[o + 2] && h1@[o + 3] == h0@[o
        + 3]);
    lemma_le32_bytes(h1@, h0@, o);
}

/// Writing a slot of an aligned `obj` that is not `val`'s count leaves
/// that count alone.
proof fn lemma_store_keeps_count(h1: Heap, h2: Heap, obj: Handle, i: int, val: Handle)
    requires
        h1.spec_in_bounds(val),
        obj.0 % 16 == 0,
        0 <= i,
        obj.0 + 16 + 4 * i != val.0 + 12,
        crate::heap::same_outside(h2@, h1@, obj.0 + 16 + 4 * i, obj.0 + 16 + 4 * i + 4),
    ensures
        h2.spec_rc(val) == h1.spec_rc(val),
{
    let c = val.0 + 12;
    let o = obj.0 + 16 + 4 * i;
    assert(o % 4 == 0 && c % 4 == 0);
    assert(h2@[c] == h1@[c] && h2@[c + 1] == h1@[c + 1] && h2@[c + 2] == h1@[c + 2] && h2@[c + 3] == h1@[c
        + 3]);
    lemma_le32_bytes(h2@, h1@, c);
}

/// Retaining `val` and then writing it into a slot that already held it
/// leaves the slot, and every other byte but the count, as it was.
#[verifier::spinoff_prover]
proof fn lemma_store_same(h0: Heap, h1: Heap, h2: Heap, obj: Handle, i: int, val: Handle)
    requires
        h0.spec_in_bounds(val),
        obj.0 % 16 == 0,
        0 <= i,
        obj.0 + 16 + 4 * i + 4 <= h0.cap(),
        h0.spec_field(obj, i) == val.0,
        obj.0 + 16 + 4 * i != val.0 + 12,
        counted_up(h0, h1, val),
        crate::heap::same_outside(h2@, h1@, obj.0 + 16 + 4 * i, obj.0 + 16 + 4 * i + 4),
        h2.spec_field(obj, i) == val.0,
    ensures
        h1.spec_field(obj, i) == val.0,
        h2@ == h1@,
        h2.spec_in_bounds(val),
        h2.spec_rc(val) == h0.spec_rc(val) + 1,
{
    let o = obj.0 + 16 + 4 * i;
    assert(h1@[o] == h0@[o] && h1@[o + 1] == h0@[o + 1] && h1@[o + 2] == h0@[o + 2] && h1@[o + 3] == h0@[o
        + 3]);
    lemma_le32_bytes(h2@, h1@, o);
    assert(h2@ =~= h1@);
}

pub struct RefCount {
    space: FreeListSpace,
    roots: Roots,
    stats: GcStats,
    /// Objects whose count still has to be decremented. Held here rather
    /// than on the native stack so that freeing a long chain cannot overflow
    /// it.
    pending: Vec<Handle>,
}

/// Counting never changes which headers are flagged free.
proof fn lemma_count_keeps_flags(before: Heap, after: Heap, h: Handle)
    requires
        only_count_changed(before, after, h),
        before.cap() % 16 == 0,
    ensures
        unfree_count(after@, before.cap() / 16) == unfree_count(before@, before.cap() / 16),
{
    let k = before.cap() / 16;
    assert forall|i: int| 0 <= i < k implies !(h.0 + 12 <= #[trigger] (16 * i + 6) < h.0 + 16) by {}
    lemma_count_unsat_frame(before@, after@, k, 6, |x: u8| is_free_byte(x), h.0 + 12, h.0 + 16);
}

/// Freeing the aligned block `h` frees its own boundary and at most poisons
/// the ones inside it.
proof fn lemma_free_drops(before: Heap, after: Heap, h: Handle, size: int)
    requires
        before.cap() % 16 == 0,
        after@.len() == before@.len(),
        h.0 % 16 == 0,
        h.0 + 16 <= before.cap(),
        size >= 16,
        h.0 + size <= before.cap(),
        !before.spec_flag(h, FLAG_FREE),
        after.spec_flag(h, FLAG_FREE),
        forall|j: int| h.0 + 16 <= j < h.0 + size ==> #[trigger] after@[j] == POISON,
        forall|j: int|
            0 <= j < before.cap() && !(h.0 <= j < h.0 + size) ==> #[trigger] after@[j] == before@[j],
    ensures
        unfree_count(after@, before.cap() / 16) < unfree_count(before@, before.cap() / 16),
{
    let k = before.cap() / 16;
    let p = |x: u8| is_free_byte(x);
    assert(POISON & FLAG_FREE != 0) by (bit_vector);
    assert forall|i: int| 0 <= i < k && p(hb(before@, i, 6)) implies p(#[trigger] hb(after@, i, 6)) by {
        let j = 16 * i + 6;
        if 16 * i == h.0 {
        } else if h.0 <= j < h.0 + size {
            assert(j >= h.0 + 16);
            assert(after@[j] == POISON);
        } else {
            assert(after@[j] == before@[j]);
        }
    }
    let i0 = h.0 / 16;
    assert(16 * i0 == h.0);
    lemma_count_unsat_drop(before@, after@, k, 6, p, i0 as int);
}

/// Freeing the aligned block `obj` leaves every other aligned header that
/// was flagged free flagged free: its flag byte is either outside the block
/// or poisoned, and poison carries the free bit.
pub proof fn lemma_free_keeps_free(before: Heap, after: Heap, obj: Handle, size: int, h: Handle)
    requires
        after@.len() == before@.len(),
        obj.0 % 16 == 0,
        h.0 % 16 == 0,
        h.0 + 16 <= before.cap(),
        !before.spec_flag(obj, FLAG_FREE),
        before.spec_flag(h, FLAG_FREE),
        forall|j: int| obj.0 + 16 <= j < obj.0 + size ==> #[trigger] after@[j] == POISON,
        forall|j: int|
            0 <= j < before.cap() && !(obj.0 <= j < obj.0 + size) ==> #[trigger] after@[j] == before@[j],
    ensures
        after.spec_flag(h, FLAG_FREE),
{
    assert(POISON & FLAG_FREE != 0) by (bit_vector);
    let j = h.0 + 6;
    if obj.0 <= j < obj.0 + size {
        assert(j >= obj.0 + 16);
        assert(after@[j] == POISON);
    } else {
        assert(after@[j] == before@[j]);
    }
}

impl RefCount {
    pub closed spec fn spec_space(&self) -> FreeListSpace {
        self.space
    }

    pub fn new(capacity: usize) -> (r: RefCount)
        requires
            capacity >= 16,
            capacity < NULL_ADDR,
            capacity % 16 == 0,
        ensures
            r.gc_inv(),
            r.gc_heap().cap() == capacity,
            r.gc_roots().stack().len() == 0,
            r.gc_roots().globals().len() == 0,
            r.gc_used() == 0,
    {
        RefCount {
            space: FreeListSpace::new(capacity),
            roots: Roots::new(),
            stats: GcStats::default(),
            pending: Vec::new(),
        }
    }

    /// The current reference count of `h`.
    pub fn rc_of(&self, h: Handle) -> (r: u32)
        requires
            self.gc_inv(),
            self.gc_heap().hdr_in(h),
        ensures
            r == self.gc_heap().spec_rc(h),
    {
        proof {
            self.space.lemma_wf();
        }
        self.space.heap().rc(h)
    }

    /// Whether `h`'s memory has been returned to the allocator.
    pub fn is_freed(&self, h: Handle) -> (r: bool)
        requires
            self.gc_inv(),
            self.gc_heap().hdr_in(h),
        ensures
            r == self.gc_heap().spec_flag(h, FLAG_FREE),
    {
        self.space.is_free(h)
    }

    pub fn space(&self) -> (r: &FreeListSpace)
        ensures
            *r == self.spec_space(),
    {
        &self.space
    }

    pub fn space_mut(&mut self) -> (r: &mut FreeListSpace)
        ensures
            *r == old(self).spec_space(),
            final(self).spec_space() == *final(r),
            final(self).gc_roots() == old(self).gc_roots(),
            final(self).gc_stats() == old(self).gc_stats(),
    {
        &mut self.space
    }

    /// Record one more reference to `h`.
    ///
    /// A null handle, or one whose header lies outside the arena, names no
    /// object and is ignored; a count already at `u32::MAX` stays there.
    pub fn retain(&mut self, h: Handle)
        requires
            old(self).gc_inv(),
        ensures
            final(self).gc_inv(),
            final(self).gc_roots() == old(self).gc_roots(),
            final(self).gc_stats() == old(self).gc_stats(),
            final(self).gc_used() == old(self).gc_used(),
            final(self).gc_heap().cap() == old(self).gc_heap().cap(),
            crate::heap::same_outside(final(self).gc_heap()@, old(self).gc_heap()@, h.0 + 12, h.0 + 16),
            h.0 != NULL_ADDR && old(self).gc_heap().hdr_in(h) && old(self).gc_heap().spec_rc(h)
                < u32::MAX ==> counted_up(old(self).gc_heap(), final(self).gc_heap(), h),
            !(h.0 != NULL_ADDR && old(self).gc_heap().hdr_in(h) && old(self).gc_heap().spec_rc(h) < u32::MAX)
                ==> *final(self) == *old(self),
    {
        proof {
            self.space.lemma_wf();
        }
        if h.is_null() || h.0 > self.space.capacity() - 16 {
            return;
        }
        let rc = self.space.heap().rc(h);
        if rc < u32::MAX {
            self.space.heap_mut().set_rc(h, rc + 1);
        }
    }

    /// Record one fewer reference to `h`, freeing it if that was the last one.
    ///
    /// Freeing an object releases everything it referred to, which can
    /// cascade through an arbitrarily long chain, so the cascade runs on an
    /// explicit worklist. Only well-formed, aligned objects are counted: a
    /// handle that addresses none, or an object whose count is already zero,
    /// is passed over.
    pub fn release(&mut self, h: Handle)
        requires
            old(self).gc_inv(),
        ensures
            final(self).gc_inv(),
            final(self).gc_roots() == old(self).gc_roots(),
            final(self).gc_heap().cap() == old(self).gc_heap().cap(),
            !(old(self).gc_heap().spec_in_bounds(h) && old(self).gc_heap().spec_rc(h) >= 1) ==> final(self).spec_space()
                == old(self).spec_space() && final(self).gc_stats() == old(self).gc_stats(),
            old(self).gc_heap().spec_in_bounds(h) && old(self).gc_heap().spec_rc(h) == 1 ==> final(self).gc_heap().spec_flag(
                h,
                FLAG_FREE,
            ),
            old(self).gc_heap().spec_in_bounds(h) && old(self).gc_heap().spec_rc(h) >= 2
                ==> counted_down(old(self).gc_heap(), final(self).gc_heap(), h),
            old(self).gc_heap().spec_in_bounds(h) && old(self).gc_heap().spec_rc(h) >= 2
                ==> final(self).gc_used() == old(self).gc_used() && final(self).gc_stats() == old(self).gc_stats(),
    {
        if h.is_null() {
            return;
        }
        proof {
            self.space.lemma_wf();
        }
        // A release that leaves the count above zero kills nothing.
        if self.space.heap().in_bounds(h) {
            let rc = self.space.heap().rc(h);
            if rc >= 2 {
                self.space.heap_mut().set_rc(h, rc - 1);
                return;
            }
        }
        self.pending.push(h);
        let ghost cap = self.space.spec_heap().cap();
        let ghost hs = self.space.spec_heap();
        let ghost quiet = !(hs.spec_in_bounds(h) && hs.spec_rc(h) >= 1);
        let ghost last = hs.spec_in_bounds(h) && hs.spec_rc(h) == 1;
        proof {
            self.space.lemma_wf();
        }
        while self.pending.len() > 0
            invariant
                self.space.wf(),
                self.space.spec_heap().cap() == cap,
                cap % 16 == 0,
                self.roots == old(self).roots,
                hs.cap() == cap,
                hs == old(self).space.spec_heap(),
                quiet == !(hs.spec_in_bounds(h) && hs.spec_rc(h) >= 1),
                last == (hs.spec_in_bounds(h) && hs.spec_rc(h) == 1),
                quiet ==> self.space == old(self).space && self.stats == old(self).stats && self.pending@.len() <= 1
                    && (self.pending@.len() == 1 ==> self.pending@[0] == h),
                last ==> self.space.spec_heap().spec_flag(h, FLAG_FREE) || (self.pending@ == seq![h]
                    && self.space.spec_heap() == hs),
            decreases unfree_count(self.space.spec_heap()@, cap / 16), self.pending@.len(),
        {
            let ghost u0 = unfree_count(self.space.spec_heap()@, cap / 16);
            let ghost was_free = self.space.spec_heap().spec_flag(h, FLAG_FREE);
            let ghost pend = self.pending@;
            let obj = self.pending.pop().unwrap();
            proof {
                self.space.lemma_wf();
                if quiet {
                    assert(pend =~= seq![h]);
                    assert(obj == h);
                }
                if last && !was_free {
                    assert(pend == seq![h]);
                    assert(obj == pend.last());
                    assert(obj == h);
                }
            }
            if !self.space.heap().in_bounds(obj) {
                continue;
            }
            let rc = self.space.heap().rc(obj);
            if rc == 0 {
                continue;
            }
            let ghost before = self.space.spec_heap();
            self.space.heap_mut().set_rc(obj, rc - 1);
            proof {
                lemma_count_keeps_flags(before, self.space.spec_heap(), obj);
                assert(unfree_count(self.space.spec_heap()@, cap / 16) == u0);
                if last && was_free {
                    assert(h.0 % 16 == 0 && obj.0 % 16 == 0);
                    assert(!(obj.0 + 12 <= h.0 + 6 < obj.0 + 16)) by (nonlinear_arith)
                        requires
                            h.0 % 16 == 0,
                            obj.0 % 16 == 0,
                    ;
                    assert(self.space.spec_heap()@[h.0 + 6] == before@[h.0 + 6]);
                }
            }
            if rc == 1 && self.space.can_free(obj) {
                proof {
                    self.space.lemma_wf();
                }
                let n = self.space.heap().nrefs(obj) as u32;
                if 16 + 4 * n <= self.space.capacity() - obj.0 {
                    let children = self.space.heap().children(obj);
                    let ghost sp = self.space;
                    let mut k: usize = 0;
                    while k < children.len()
                        invariant
                            k <= children@.len(),
                            self.space == sp,
                            self.roots == old(self).roots,
                        decreases children@.len() - k,
                    {
                        self.pending.push(children[k]);
                        k = k + 1;
                    }
                }
                let ghost before = self.space.spec_heap();
                let ghost flagged = before.spec_flag(h, FLAG_FREE);
                self.free_object(obj);
                proof {
                    lemma_free_drops(before, self.space.spec_heap(), obj, before.spec_size(obj));
                    assert(unfree_count(self.space.spec_heap()@, cap / 16) < u0);
                    if last && flagged {
                        lemma_free_keeps_free(before, self.space.spec_heap(), obj, before.spec_size(obj), h);
                    }
                }
            }
        }
    }

    fn free_object(&mut self, h: Handle)
        requires
            old(self).space.wf(),
            old(self).space.freeable(h),
        ensures
            final(self).space.wf(),
            final(self).roots == old(self).roots,
            final(self).pending == old(self).pending,
            final(self).space.spec_heap().cap() == old(self).space.spec_heap().cap(),
            final(self).space.spec_heap().spec_flag(h, FLAG_FREE),
            forall|j: int|
                h.0 + 16 <= j < h.0 + old(self).space.spec_heap().spec_size(h) ==> #[trigger] final(self).space.spec_heap()@[j] == POISON,
            forall|j: int|
                0 <= j < old(self).space.spec_heap().cap() && !(h.0 <= j < h.0 + old(self).space.spec_heap().spec_size(h)) ==> #[trigger] final(self).space.spec_heap()@[j]
                    == old(self).space.spec_heap()@[j],
    {
        proof {
            self.space.lemma_wf();
        }
        let size = self.space.heap().size(h);
        self.space.free(h);
        self.stats.objects_freed = self.stats.objects_freed.saturating_add(1);
        self.stats.bytes_freed = self.stats.bytes_freed.saturating_add(size as u64);
    }
}

impl Collector for RefCount {
    closed spec fn gc_heap(&self) -> Heap {
        self.space.spec_heap()
    }

    closed spec fn gc_roots(&self) -> Roots {
        self.roots
    }

    closed spec fn gc_stats(&self) -> GcStats {
        self.stats
    }

    closed spec fn gc_used(&self) -> int {
        self.space.spec_used()
    }

    closed spec fn gc_inv(&self) -> bool {
        &&& self.space.wf()
        &&& self.pending@.len() == 0
    }

    proof fn lemma_inv_heap(&self) {
        self.space.lemma_wf();
    }

    fn name(&self) -> &'static str {
        "reference counting"
    }

    fn heap(&self) -> (r: &Heap) {
        self.space.heap()
    }

    fn heap_mut(&mut self) -> (r: &mut Heap) {
        self.space.heap_mut()
    }

    fn roots(&self) -> (r: &Roots) {
        &self.roots
    }

    fn roots_mut(&mut self) -> (r: &mut Roots) {
        &mut self.roots
    }

    fn stats(&self) -> (r: &GcStats) {
        &self.stats
    }

    fn used_bytes(&self) -> (r: u32) {
        self.space.used_bytes()
    }

    /// Allocation succeeds whenever the space has room for the object.
    fn allocate(&mut self, nrefs: u16, ndata: u32) -> (r: Result<Handle, GcError>)
        ensures
            old(self).spec_space().room_for(spec_size_for(nrefs as int, ndata as int)) ==> r is Ok,
    {
        let h = match self.space.allocate(nrefs, ndata) {
            Some(h) => h,
            None => {
                // Nothing can be reclaimed by collecting (counts are already
                // exact) but adjacent holes may add up to enough room.
                self.space.coalesce();
                match self.space.allocate(nrefs, ndata) {
                    Some(h) => h,
                    None => {
                        self.stats.allocation_failures = self.stats.allocation_failures.saturating_add(1);
                        return Err(
                            GcError::OutOfMemory {
                                requested: Heap::size_for(nrefs, ndata),
                                used: self.space.used_bytes(),
                                capacity: self.space.capacity(),
                            },
                        );
                    },
                }
            },
        };
        proof {
            self.space.lemma_wf();
        }
        self.stats.allocations = self.stats.allocations.saturating_add(1);
        let size = self.space.heap().size(h);
        self.stats.bytes_allocated = self.stats.bytes_allocated.saturating_add(size as u64);
        self.stats.observe_used(self.space.used_bytes());
        Ok(h)
    }

    /// Store `val` into reference slot `i` of `obj`, keeping counts exact:
    /// `val` gains a reference before the slot's old value loses one.
    ///
    /// Storing into a slot the value it already holds therefore changes
    /// nothing at all, even when that slot holds the object's only
    /// reference.
    ///
    /// Storing into an empty slot frees nothing: the slot ends up holding
    /// `val`, whose count goes up by one if it is counted at all.
    fn write_field(&mut self, obj: Handle, i: u16, val: Handle)
        ensures
            ({
                let hp = old(self).gc_heap();
                hp.spec_in_bounds(val) && obj.0 % 16 == 0 && hp.spec_field(obj, i as int) == val.0
                    && obj.0 + 16 + 4 * i != val.0 + 12 && 1 <= hp.spec_rc(val) < u32::MAX
                    ==> final(self).gc_heap()@ == hp@ && final(self).gc_used() == old(self).gc_used()
            }),
            ({
                let hp = old(self).gc_heap();
                let counted = val.0 != NULL_ADDR && hp.hdr_in(val) && hp.spec_rc(val) < u32::MAX;
                let o = obj.0 + 16 + 4 * i;
                hp.spec_field(obj, i as int) == NULL_ADDR && (!counted || (hp.spec_in_bounds(val) && obj.0 % 16 == 0
                    && o != val.0 + 12)) ==> {
                    &&& final(self).gc_heap().spec_field(obj, i as int) == val.0
                    &&& final(self).gc_used() == old(self).gc_used()
                    &&& final(self).gc_stats() == old(self).gc_stats()
                    &&& !counted ==> crate::heap::same_outside(final(self).gc_heap()@, hp@, o, o + 4)
                    &&& counted ==> final(self).gc_heap().spec_rc(val) == hp.spec_rc(val) + 1
                }
            }),
    {
        let ghost h0 = self.space.spec_heap();
        self.retain(val);
        let ghost h1 = self.space.spec_heap();
        proof {
            self.space.lemma_wf();
            if h0.spec_in_bounds(val) && obj.0 % 16 == 0 && h0.spec_rc(val) < u32::MAX {
                lemma_count_keeps_slot(h0, h1, obj, i as int, val);
            }
        }
        if !self.space.heap().field_ok(obj, i) {
            return;
        }
        let was = self.space.heap().field(obj, i);
        proof {
            if h0.spec_field(obj, i as int) == NULL_ADDR && h0.spec_in_bounds(val) && obj.0 % 16 == 0
                && obj.0 + 16 + 4 * i != val.0 + 12 && h0.spec_rc(val) < u32::MAX {
                lemma_count_keeps_field(h0, h1, obj, i as int, val);
            }
        }
        self.space.heap_mut().set_field(obj, i, val);
        let ghost h2 = self.space.spec_heap();
        proof {
            if h0.spec_in_bounds(val) && obj.0 % 16 == 0 && obj.0 + 16 + 4 * i != val.0 + 12 && h0.spec_rc(val)
                < u32::MAX {
                lemma_store_keeps_count(h1, h2, obj, i as int, val);
            }
        }
        let ghost same = h0.spec_in_bounds(val) && obj.0 % 16 == 0 && h0.spec_field(obj, i as int) == val.0
            && obj.0 + 16 + 4 * i != val.0 + 12 && 1 <= h0.spec_rc(val) < u32::MAX;
        proof {
            if same {
                lemma_store_same(h0, h1, h2, obj, i as int, val);
            }
        }
        self.release(was);
        proof {
            if same {
                law_retain_then_release(h0, h2, self.space.spec_heap(), val);
            }
        }
    }

    /// A global binding is a reference like any other: rebinding one both
    /// creates a reference and destroys one, in that order.
    ///
    /// Rebinding a global to the object it already names changes nothing.
    fn on_global_changed(&mut self, was: Handle, now: Handle)
        ensures
            ({
                let hp = old(self).gc_heap();
                &&& was.0 == NULL_ADDR && now.0 != NULL_ADDR && hp.hdr_in(now) && hp.spec_rc(now) < u32::MAX
                    ==> counted_up(hp, final(self).gc_heap(), now)
                &&& was.0 == NULL_ADDR && !(now.0 != NULL_ADDR && hp.hdr_in(now) && hp.spec_rc(now) < u32::MAX)
                    ==> final(self).gc_heap() == hp
                &&& was.0 == NULL_ADDR ==> final(self).gc_used() == old(self).gc_used() && final(self).gc_stats()
                    == old(self).gc_stats()
                &&& now.0 == NULL_ADDR && hp.spec_in_bounds(was) && hp.spec_rc(was) == 1
                    ==> final(self).gc_heap().spec_flag(was, FLAG_FREE)
                &&& now.0 == NULL_ADDR && hp.spec_in_bounds(was) && hp.spec_rc(was) >= 2
                    ==> counted_down(hp, final(self).gc_heap(), was) && final(self).gc_used() == old(self).gc_used()
                &&& now.0 == NULL_ADDR && !(hp.spec_in_bounds(was) && hp.spec_rc(was) >= 1)
                    ==> final(self).gc_heap() == hp && final(self).gc_used() == old(self).gc_used()
                &&& was == now && hp.spec_in_bounds(now) && 1 <= hp.spec_rc(now) < u32::MAX
                    ==> final(self).gc_heap()@ == hp@ && final(self).gc_used() == old(self).gc_used()
                        && final(self).gc_stats() == old(self).gc_stats()
            }),
    {
        let ghost h0 = self.space.spec_heap();
        self.retain(now);
        let ghost h1 = self.space.spec_heap();
        proof {
            if was == now && h0.spec_in_bounds(now) && 1 <= h0.spec_rc(now) < u32::MAX {
                lemma_count_keeps_bounds(h0, h1, now);
            }
        }
        self.release(was);
        proof {
            if was == now && h0.spec_in_bounds(now) && 1 <= h0.spec_rc(now) < u32::MAX {
                law_retain_then_release(h0, h1, self.space.spec_heap(), now);
            }
        }
    }

    /// Pushing a root counts one more reference to what it names.
    fn on_root_pushed(&mut self, h: Handle)
        ensures
            final(self).gc_stats() == old(self).gc_stats(),
            final(self).gc_used() == old(self).gc_used(),
            h.0 != NULL_ADDR && old(self).gc_heap().hdr_in(h) && old(self).gc_heap().spec_rc(h) < u32::MAX
                ==> counted_up(old(self).gc_heap(), final(self).gc_heap(), h),
            !(h.0 != NULL_ADDR && old(self).gc_heap().hdr_in(h) && old(self).gc_heap().spec_rc(h) < u32::MAX)
                ==> final(self).gc_heap() == old(self).gc_heap(),
    {
        self.retain(h);
    }

    /// Popping a root drops the reference it held, freeing the object if
    /// that was the last one.
    fn on_root_popped(&mut self, h: Handle)
        ensures
            old(self).gc_heap().spec_in_bounds(h) && old(self).gc_heap().spec_rc(h) == 1
                ==> final(self).gc_heap().spec_flag(h, FLAG_FREE),
            old(self).gc_heap().spec_in_bounds(h) && old(self).gc_heap().spec_rc(h) >= 2
                ==> counted_down(old(self).gc_heap(), final(self).gc_heap(), h) && final(self).gc_used()
                == old(self).gc_used() && final(self).gc_stats() == old(self).gc_stats(),
            !(old(self).gc_heap().spec_in_bounds(h) && old(self).gc_heap().spec_rc(h) >= 1)
                ==> final(self).gc_heap() == old(self).gc_heap() && final(self).gc_used() == old(self).gc_used()
                && final(self).gc_stats() == old(self).gc_stats(),
    {
        self.release(h);
    }

    /// Reference counting has no collection phase: an object is freed the
    /// moment its last reference goes away. All this can usefully do is merge
    /// adjacent holes.
    ///
    /// Merging holes moves no object and frees nothing: the bytes in use
    /// stay as they were, and on a walkable heap every live block is kept
    /// and every free block stays free.
    fn collect(&mut self)
        ensures
            final(self).gc_roots() == old(self).gc_roots(),
            final(self).gc_used() == old(self).gc_used(),
            final(self).gc_stats().collections == sat_add(old(self).gc_stats().collections, 1),
            final(self).spec_space().is_sorted(),
            final(self).spec_space().spec_bump() <= old(self).spec_space().spec_bump(),
            old(self).spec_space().walkable() ==> {
                &&& final(self).spec_space().walkable()
                &&& live_blocks_kept(
                    old(self).gc_heap(),
                    old(self).spec_space().spec_bump(),
                    final(self).gc_heap(),
                    final(self).spec_space().spec_bump(),
                )
                &&& free_blocks_stay_free(
                    old(self).gc_heap(),
                    old(self).spec_space().spec_bump(),
                    final(self).gc_heap(),
                    final(self).spec_space().spec_bump(),
                )
            },
    {
        let start = clock::now();
        self.space.coalesce();
        self.stats.collections = self.stats.collections.saturating_add(1);
        let pause = clock::nanos_since(&start);
        self.stats.record_pause(pause);
    }
}

} // verus!
