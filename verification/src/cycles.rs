//! Reference counting with cycle collection by trial deletion, after Bacon
//! and Rajan's synchronous algorithm.
//!
//! A reference count says how many references point at an object, but not
//! where they come from. For a garbage cycle every one of them comes from
//! inside the cycle. So a suspect subgraph is trially deleted: every edge
//! inside it is subtracted from its target's count. An object left at zero
//! is referenced only from within and is garbage; one left above zero is
//! referenced from elsewhere, so it and everything it reaches get their
//! references back.
//!
//! Colours (not the tri-colour marks of incremental marking):
//!
//! - [`BLACK`]: in use, or already dealt with.
//! - [`PURPLE`]: a possible cycle root, waiting in the candidate buffer.
//! - [`GRAY`]: being trially deleted.
//! - [`WHITE`]: proven to be a member of a garbage cycle.
//!
//! Only an object whose count is decremented without reaching zero can be
//! the root of a garbage cycle, so [`CycleCollector::release`] files exactly
//! those, and a collection looks only at the candidate buffer. Each of the
//! three passes (mark gray, scan, collect white) runs over every candidate
//! before the next begins, and every traversal uses an explicit worklist.
//!
//! Each traversal touches only well-formed, aligned objects, and each is
//! bounded by the number of headers it can still recolour.

use crate::clock;
use crate::collector::{Collector, GcError};
use crate::heap::{spec_size_for, Handle, Heap, FLAG_BUFFERED, FLAG_FREE, NULL_ADDR, POISON};
use crate::roots::Roots;
use crate::space::{
    hb, is_free_byte, lemma_count_unsat_drop, lemma_count_unsat_frame, lemma_count_unsat_other_byte,
    lemma_count_unsat_set, count_unsat, unfree_count, FreeListSpace,
};
use crate::stats::{counted_allocation, same_collections, GcStats};
use vstd::prelude::*;

verus! {

/// In use, or already dealt with by this collection.
pub const BLACK: u8 = 0;
/// Being trially deleted.
pub const GRAY: u8 = 1;
/// Proven to be a member of a garbage cycle.
pub const WHITE: u8 = 2;
/// A possible root of a cycle, waiting in the candidate buffer.
pub const PURPLE: u8 = 3;

/// Headers not yet gray: marking gray lowers it.
pub open spec fn not_gray(b: Seq<u8>, k: int) -> nat {
    count_unsat(b, k, 7, |x: u8| x == GRAY)
}

/// Headers still gray: scanning lowers it.
pub open spec fn gray_left(b: Seq<u8>, k: int) -> nat {
    count_unsat(b, k, 7, |x: u8| x != GRAY)
}

/// Headers not yet black: restoring lowers it.
pub open spec fn not_black(b: Seq<u8>, k: int) -> nat {
    count_unsat(b, k, 7, |x: u8| x == BLACK)
}

/// Headers still white: collecting lowers it.
pub open spec fn white_left(b: Seq<u8>, k: int) -> nat {
    count_unsat(b, k, 7, |x: u8| x != WHITE)
}

/// Changing bit 2 of a flag byte leaves its free bit alone.
proof fn lemma_buffered_keeps_free(f: u8)
    ensures
        (f | FLAG_BUFFERED) & FLAG_FREE == f & FLAG_FREE,
        (f & !FLAG_BUFFERED) & FLAG_FREE == f & FLAG_FREE,
{
    assert((f | 4u8) & 8u8 == f & 8u8) by (bit_vector);
    assert((f & !4u8) & 8u8 == f & 8u8) by (bit_vector);
}

/// A count update on an aligned header leaves every header's flag and colour
/// byte alone.
proof fn lemma_rc_frame(b1: Seq<u8>, b2: Seq<u8>, k: int, t: int)
    requires
        16 * k == b1.len(),
        t % 16 == 0,
        crate::heap::same_outside(b2, b1, t + 12, t + 16),
    ensures
        unfree_count(b2, k) == unfree_count(b1, k),
        not_gray(b2, k) == not_gray(b1, k),
        gray_left(b2, k) == gray_left(b1, k),
        not_black(b2, k) == not_black(b1, k),
        white_left(b2, k) == white_left(b1, k),
{
    assert forall|i: int| 0 <= i < k implies !(t + 12 <= #[trigger] (16 * i + 6) < t + 16) by {}
    assert forall|i: int| 0 <= i < k implies !(t + 12 <= #[trigger] (16 * i + 7) < t + 16) by {}
    lemma_count_unsat_frame(b1, b2, k, 6, |x: u8| is_free_byte(x), t + 12, t + 16);
    lemma_count_unsat_frame(b1, b2, k, 7, |x: u8| x == GRAY, t + 12, t + 16);
    lemma_count_unsat_frame(b1, b2, k, 7, |x: u8| x != GRAY, t + 12, t + 16);
    lemma_count_unsat_frame(b1, b2, k, 7, |x: u8| x == BLACK, t + 12, t + 16);
    lemma_count_unsat_frame(b1, b2, k, 7, |x: u8| x != WHITE, t + 12, t + 16);
}

/// Recolouring an aligned header leaves every flag byte alone.
proof fn lemma_color_keeps_free(b1: Seq<u8>, b2: Seq<u8>, k: int, h: int, c: u8)
    requires
        16 * k == b1.len(),
        h % 16 == 0,
        0 <= h,
        h + 16 <= b1.len(),
        b2 == b1.update(h + 7, c),
    ensures
        unfree_count(b2, k) == unfree_count(b1, k),
{
    lemma_count_unsat_other_byte(b1, b2, k, 6, |x: u8| is_free_byte(x), h, 7, c);
}

/// Flagging an aligned header buffered, or not, leaves every colour and
/// every free flag alone.
proof fn lemma_flag_frame(b1: Seq<u8>, b2: Seq<u8>, k: int, h: int, f: u8)
    requires
        16 * k == b1.len(),
        h % 16 == 0,
        0 <= h,
        h + 16 <= b1.len(),
        b2 == b1.update(h + 6, f),
        f & FLAG_FREE == b1[h + 6] & FLAG_FREE,
    ensures
        unfree_count(b2, k) == unfree_count(b1, k),
        not_gray(b2, k) == not_gray(b1, k),
        gray_left(b2, k) == gray_left(b1, k),
        not_black(b2, k) == not_black(b1, k),
        white_left(b2, k) == white_left(b1, k),
{
    lemma_count_unsat_other_byte(b1, b2, k, 7, |x: u8| x == GRAY, h, 6, f);
    lemma_count_unsat_other_byte(b1, b2, k, 7, |x: u8| x != GRAY, h, 6, f);
    lemma_count_unsat_other_byte(b1, b2, k, 7, |x: u8| x == BLACK, h, 6, f);
    lemma_count_unsat_other_byte(b1, b2, k, 7, |x: u8| x != WHITE, h, 6, f);
    let p = |x: u8| is_free_byte(x);
    let i0 = h / 16;
    assert(16 * i0 == h);
    assert forall|i: int| 0 <= i < k && p(hb(b1, i, 6)) implies p(#[trigger] hb(b2, i, 6)) by {
        if i != i0 {
            assert(16 * i + 6 != h + 6);
        }
    }
    assert forall|i: int| 0 <= i < k && p(hb(b2, i, 6)) implies p(#[trigger] hb(b1, i, 6)) by {
        if i != i0 {
            assert(16 * i + 6 != h + 6);
        }
    }
    lemma_count_unsat_drop(b1, b2, k, 6, p, -1);
    lemma_count_unsat_drop(b2, b1, k, 6, p, -1);
}

/// Freeing the aligned block `h` frees its own boundary and at most poisons
/// the ones inside it.
proof fn lemma_free_drops(before: Heap, after: Heap, h: Handle, size: int)
    requires
        before.cap() % 16 == 0,
        after@.len() == before@.len(),
        h.0 % 16 == 0,
        h.0 + 16 <= before.cap(),
        size >= 16,
        h.0 + size <= before.cap(),
        !before.spec_flag(h, FLAG_FREE),
        after.spec_flag(h, FLAG_FREE),
        forall|j: int| h.0 + 16 <= j < h.0 + size ==> #[trigger] after@[j] == POISON,
        forall|j: int|
            0 <= j < before.cap() && !(h.0 <= j < h.0 + size) ==> #[trigger] after@[j] == before@[j],
    ensures
        unfree_count(after@, before.cap() / 16) < unfree_count(before@, before.cap() / 16),
{
    let k = before.cap() / 16;
    let p = |x: u8| is_free_byte(x);
    assert(POISON & FLAG_FREE != 0) by (bit_vector);
    assert forall|i: int| 0 <= i < k && p(hb(before@, i, 6)) implies p(#[trigger] hb(after@, i, 6)) by {
        let j = 16 * i + 6;
        if 16 * i == h.0 {
        } else if h.0 <= j < h.0 + size {
            assert(j >= h.0 + 16);
            assert(after@[j] == POISON);
        } else {
            assert(after@[j] == before@[j]);
        }
    }
    let i0 = h.0 / 16;
    assert(16 * i0 == h.0);
    lemma_count_unsat_drop(before@, after@, k, 6, p, i0 as int);
}

/// `s` has been filed as a possible cycle root, going from heap `b` and
/// candidate list `cb` to `c` and `cc`: it is purple, and unless it already
/// was, or was already listed, it is flagged as listed and appended to the
/// candidates. Nothing else changes.
pub open spec fn filed(b: Heap, c: Heap, cb: Seq<Handle>, cc: Seq<Handle>, s: Handle) -> bool {
    let fresh = b.spec_color(s) != PURPLE && !b.spec_flag(s, FLAG_BUFFERED);
    &&& c@ == if b.spec_color(s) == PURPLE {
        b@
    } else if fresh {
        b@.update(s.0 + 7, PURPLE).update(s.0 + 6, b.spec_flags(s) | FLAG_BUFFERED)
    } else {
        b@.update(s.0 + 7, PURPLE)
    }
    &&& cc == if fresh {
        cb.push(s)
    } else {
        cb
    }
}

/// Filing a possible root leaves every aligned header flagged free still
/// flagged free.
proof fn lemma_filed_keeps_free(b: Heap, c: Heap, cb: Seq<Handle>, cc: Seq<Handle>, s: Handle, h: Handle)
    requires
        filed(b, c, cb, cc, s),
        s.0 % 16 == 0,
        h.0 % 16 == 0,
        h.0 + 16 <= b.cap(),
        s.0 + 16 <= b.cap(),
        b.spec_flag(h, FLAG_FREE),
    ensures
        c.spec_flag(h, FLAG_FREE),
{
    let f = b.spec_flags(h);
    assert((f | FLAG_BUFFERED) & FLAG_FREE != 0) by (bit_vector)
        requires
            f & FLAG_FREE != 0,
    ;
    if h != s {
        assert(h.0 + 6 != s.0 + 7 && h.0 + 6 != s.0 + 6) by (nonlinear_arith)
            requires
                h.0 % 16 == 0,
                s.0 % 16 == 0,
                h.0 != s.0,
        ;
    }
}

/// `c` is `b` with `h` coloured black and counted up, unless its count is
/// already pinned at the top. Nothing else changes.
pub open spec fn retained(b: Heap, c: Heap, h: Handle) -> bool {
    &&& c@.len() == b@.len()
    &&& forall|j: int| 0 <= j < b@.len() && j != h.0 + 7 && !(h.0 + 12 <= j < h.0 + 16) ==> #[trigger] c@[j] == b@[j]
    &&& c.spec_color(h) == BLACK
    &&& c.spec_rc(h) == if b.spec_rc(h) < u32::MAX {
        b.spec_rc(h) + 1
    } else {
        b.spec_rc(h)
    }
}

/// The colour byte of an aligned header lies outside the count of any
/// other aligned header, and outside its own.
proof fn lemma_color_apart(a: int, b: int)
    requires
        a % 16 == 0,
        b % 16 == 0,
    ensures
        !(a + 12 <= b + 7 < a + 16),
        a != b ==> a + 7 != b + 7,
{
    assert(!(a + 12 <= b + 7 < a + 16)) by (nonlinear_arith)
        requires
            a % 16 == 0,
            b % 16 == 0,
    ;
}

/// Retaining an object leaves its size, and so its being in bounds, alone.
proof fn lemma_retained_keeps_bounds(b: Heap, c: Heap, h: Handle)
    requires
        b.spec_in_bounds(h),
        retained(b, c, h),
    ensures
        c.spec_in_bounds(h),
        c.spec_size(h) == b.spec_size(h),
{
    assert(c@[h.0 as int] == b@[h.0 as int] && c@[h.0 + 1] == b@[h.0 + 1] && c@[h.0 + 2] == b@[h.0 + 2] && c@[h.0
        + 3] == b@[h.0 + 3]);
}

/// Retaining `val` leaves an aligned object's slot that lies outside
/// `val`'s header, and the slot count of that object, alone.
proof fn lemma_retained_keeps_slot(b: Heap, c: Heap, val: Handle, obj: Handle, i: int)
    requires
        b.spec_in_bounds(val),
        retained(b, c, val),
        obj.0 % 16 == 0,
        b.slot_ok(obj, i),
        !(val.0 <= obj.0 + 16 + 4 * i < val.0 + 16),
    ensures
        c.slot_ok(obj, i),
        c.spec_field(obj, i) == b.spec_field(obj, i),
{
    let o = obj.0 + 16 + 4 * i;
    assert(c@[obj.0 + 4] == b@[obj.0 + 4] && c@[obj.0 + 5] == b@[obj.0 + 5]) by {
        if obj.0 != val.0 {
            assert(obj.0 + 16 <= val.0 || val.0 + 16 <= obj.0) by (nonlinear_arith)
                requires
                    obj.0 % 16 == 0,
                    val.0 % 16 == 0,
                    obj.0 != val.0,
            ;
        }
    }
    assert(o + 4 <= val.0 || val.0 + 16 <= o) by (nonlinear_arith)
        requires
            obj.0 % 16 == 0,
            val.0 % 16 == 0,
            o == obj.0 + 16 + 4 * i,
            !(val.0 <= o < val.0 + 16),
    ;
    assert(c@[o] == b@[o] && c@[o + 1] == b@[o + 1] && c@[o + 2] == b@[o + 2] && c@[o + 3] == b@[o + 3]);
}

pub struct CycleCollector {
    space: FreeListSpace,
    roots: Roots,
    stats: GcStats,
    pending: Vec<Handle>,
    /// Objects that lost a reference without dying. Only these are examined.
    candidates: Vec<Handle>,
    cycles_collected: u64,
}

impl CycleCollector {
    pub closed spec fn spec_space(&self) -> FreeListSpace {
        self.space
    }

    pub closed spec fn spec_candidates(&self) -> Seq<Handle> {
        self.candidates@
    }

    pub closed spec fn spec_cycles_collected(&self) -> u64 {
        self.cycles_collected
    }

    /// The arena, the root set and the counters the traversals must leave
    /// alone are as they were.
    pub open spec fn same_frame(&self, other: &Self) -> bool {
        &&& self.gc_inv()
        &&& self.gc_heap().cap() == other.gc_heap().cap()
        &&& self.gc_roots() == other.gc_roots()
    }

    pub fn new(capacity: usize) -> (r: CycleCollector)
        requires
            capacity >= 16,
            capacity < NULL_ADDR,
            capacity % 16 == 0,
        ensures
            r.gc_inv(),
            r.gc_heap().cap() == capacity,
            r.gc_roots().stack().len() == 0,
            r.gc_roots().globals().len() == 0,
            r.gc_used() == 0,
            r.spec_candidates().len() == 0,
            r.spec_cycles_collected() == 0,
    {
        CycleCollector {
            space: FreeListSpace::new(capacity),
            roots: Roots::new(),
            stats: GcStats::default(),
            pending: Vec::new(),
            candidates: Vec::new(),
            cycles_collected: 0,
        }
    }

    pub fn rc_of(&self, h: Handle) -> (r: u32)
        requires
            self.gc_inv(),
            self.gc_heap().hdr_in(h),
        ensures
            r == self.gc_heap().spec_rc(h),
    {
        proof {
            self.space.lemma_wf();
        }
        self.space.heap().rc(h)
    }

    pub fn is_freed(&self, h: Handle) -> (r: bool)
        requires
            self.gc_inv(),
            self.gc_heap().hdr_in(h),
        ensures
            r == self.gc_heap().spec_flag(h, FLAG_FREE),
    {
        self.space.is_free(h)
    }

    pub fn color_of(&self, h: Handle) -> (r: u8)
        requires
            self.gc_inv(),
            self.gc_heap().hdr_in(h),
        ensures
            r == self.gc_heap().spec_color(h),
    {
        proof {
            self.space.lemma_wf();
        }
        self.space.heap().color(h)
    }

    /// Objects currently waiting to be examined as possible cycle roots.
    pub fn candidate_count(&self) -> (r: usize)
        ensures
            r == self.spec_candidates().len(),
    {
        self.candidates.len()
    }

    /// Objects freed because they belonged to a garbage cycle.
    pub fn cycles_collected(&self) -> (r: u64)
        ensures
            r == self.spec_cycles_collected(),
    {
        self.cycles_collected
    }

    pub fn space(&self) -> (r: &FreeListSpace)
        ensures
            *r == self.spec_space(),
    {
        &self.space
    }

    fn set_color(&mut self, h: Handle, c: u8)
        requires
            old(self).space.wf(),
            old(self).space.spec_heap().hdr_in(h),
            h.0 % 16 == 0,
        ensures
            final(self).space.wf(),
            final(self).space.spec_used() == old(self).space.spec_used(),
            final(self).space.spec_heap()@ == old(self).space.spec_heap()@.update(h.0 + 7, c),
            final(self).space.free_list() == old(self).space.free_list(),
            final(self).roots == old(self).roots,
            final(self).candidates == old(self).candidates,
            final(self).pending == old(self).pending,
            final(self).stats == old(self).stats,
            final(self).cycles_collected == old(self).cycles_collected,
    {
        proof {
            self.space.lemma_wf();
        }
        self.space.heap_mut().set_color(h, c);
    }

    fn set_buffered(&mut self, h: Handle, on: bool)
        requires
            old(self).space.wf(),
            old(self).space.spec_heap().hdr_in(h),
            h.0 % 16 == 0,
        ensures
            final(self).space.wf(),
            final(self).space.spec_used() == old(self).space.spec_used(),
            final(self).space.free_list() == old(self).space.free_list(),
            final(self).space.spec_heap()@ == old(self).space.spec_heap()@.update(
                h.0 + 6,
                if on {
                    old(self).space.spec_heap().spec_flags(h) | FLAG_BUFFERED
                } else {
                    old(self).space.spec_heap().spec_flags(h) & !FLAG_BUFFERED
                },
            ),
            final(self).roots == old(self).roots,
            final(self).candidates == old(self).candidates,
            final(self).pending == old(self).pending,
            final(self).stats == old(self).stats,
            final(self).cycles_collected == old(self).cycles_collected,
    {
        proof {
            self.space.lemma_wf();
        }
        self.space.heap_mut().set_flag(h, FLAG_BUFFERED, on);
    }

    /// Move the count of the aligned object `t` one step up or down, pinned
    /// at both ends.
    fn step_rc(&mut self, t: Handle, up: bool)
        requires
            old(self).space.wf(),
            old(self).space.spec_heap().hdr_in(t),
            t.0 % 16 == 0,
        ensures
            final(self).space.wf(),
            final(self).space.spec_used() == old(self).space.spec_used(),
            final(self).space.free_list() == old(self).space.free_list(),
            up && old(self).space.spec_heap().spec_rc(t) < u32::MAX ==> final(self).space.spec_heap().spec_rc(t)
                == old(self).space.spec_heap().spec_rc(t) + 1,
            !up && old(self).space.spec_heap().spec_rc(t) > 0 ==> final(self).space.spec_heap().spec_rc(t)
                == old(self).space.spec_heap().spec_rc(t) - 1,
            up && old(self).space.spec_heap().spec_rc(t) >= u32::MAX ==> final(self).space == old(self).space,
            crate::heap::same_outside(
                final(self).space.spec_heap()@,
                old(self).space.spec_heap()@,
                t.0 + 12,
                t.0 + 16,
            ),
            final(self).roots == old(self).roots,
            final(self).candidates == old(self).candidates,
            final(self).pending == old(self).pending,
            final(self).stats == old(self).stats,
            final(self).cycles_collected == old(self).cycles_collected,
    {
        proof {
            self.space.lemma_wf();
        }
        let rc = self.space.heap().rc(t);
        if up && rc < u32::MAX {
            self.space.heap_mut().set_rc(t, rc + 1);
        } else if !up && rc > 0 {
            self.space.heap_mut().set_rc(t, rc - 1);
        }
    }

    /// The non-null reference slots of `s`, or none if they do not fit in
    /// the arena.
    fn kids(&self, s: Handle) -> (r: Vec<Handle>)
        requires
            self.space.wf(),
            self.space.spec_heap().hdr_in(s),
        ensures
            r@ == if self.space.spec_heap().fields_in(s) {
                self.space.spec_heap().spec_children(s)
            } else {
                Seq::<Handle>::empty()
            },
    {
        proof {
            self.space.lemma_wf();
        }
        let n = self.space.heap().nrefs(s) as u32;
        if 16 + 4 * n <= self.space.capacity() - s.0 {
            self.space.heap().children(s)
        } else {
            Vec::new()
        }
    }

    /// Add one to `h`'s count. An object that has just gained a reference
    /// is in use, so it is no longer a suspect.
    pub fn retain(&mut self, h: Handle)
        requires
            old(self).gc_inv(),
        ensures
            final(self).same_frame(old(self)),
            final(self).gc_used() == old(self).gc_used(),
            final(self).spec_candidates() == old(self).spec_candidates(),
            old(self).gc_heap().spec_in_bounds(h) ==> {
                &&& final(self).gc_heap().spec_color(h) == BLACK
                &&& old(self).gc_heap().spec_rc(h) < u32::MAX ==> final(self).gc_heap().spec_rc(h)
                    == old(self).gc_heap().spec_rc(h) + 1
            },
            old(self).gc_heap().spec_in_bounds(h) ==> retained(old(self).gc_heap(), final(self).gc_heap(), h),
            final(self).gc_stats() == old(self).gc_stats(),
            !old(self).gc_heap().spec_in_bounds(h) ==> *final(self) == *old(self),
    {
        proof {
            self.space.lemma_wf();
        }
        if !self.space.heap().in_bounds(h) {
            return;
        }
        let ghost b0 = self.space.spec_heap();
        self.step_rc(h, true);
        let ghost b1 = self.space.spec_heap();
        self.set_color(h, BLACK);
        proof {
            let b2 = self.space.spec_heap();
            let r = h.0 + 12;
            assert(b2@[r] == b1@[r] && b2@[r + 1] == b1@[r + 1] && b2@[r + 2] == b1@[r + 2] && b2@[r + 3] == b1@[r
                + 3]);
        }
    }

    /// File `s` as a possible root of a garbage cycle.
    fn possible_root(&mut self, s: Handle)
        requires
            old(self).space.wf(),
            old(self).space.spec_heap().spec_in_bounds(s),
        ensures
            final(self).space.wf(),
            final(self).space.spec_heap().cap() == old(self).space.spec_heap().cap(),
            unfree_count(final(self).space.spec_heap()@, old(self).space.spec_heap().cap() / 16)
                == unfree_count(old(self).space.spec_heap()@, old(self).space.spec_heap().cap() / 16),
            final(self).roots == old(self).roots,
            final(self).pending == old(self).pending,
            final(self).space.spec_used() == old(self).space.spec_used(),
            final(self).stats == old(self).stats,
            filed(
                old(self).space.spec_heap(),
                final(self).space.spec_heap(),
                old(self).candidates@,
                final(self).candidates@,
                s,
            ),
    {
        proof {
            self.space.lemma_wf();
        }
        let ghost k = self.space.spec_heap().cap() / 16;
        if self.space.heap().color(s) != PURPLE {
            let ghost b0 = self.space.spec_heap()@;
            self.set_color(s, PURPLE);
            proof {
                lemma_color_keeps_free(b0, self.space.spec_heap()@, k, s.0 as int, PURPLE);
                self.space.lemma_wf();
            }
            if !self.space.heap().flag(s, FLAG_BUFFERED) {
                let ghost b1 = self.space.spec_heap()@;
                proof {
                    lemma_buffered_keeps_free(self.space.spec_heap().spec_flags(s));
                }
                self.set_buffered(s, true);
                proof {
                    lemma_flag_frame(
                        b1,
                        self.space.spec_heap()@,
                        k,
                        s.0 as int,
                        self.space.spec_heap()@[s.0 + 6],
                    );
                }
                self.candidates.push(s);
            }
        }
    }

    /// Take one off `h`'s count, freeing it if that was the last reference
    /// and filing it as a possible cycle root if it was not.
    ///
    /// A handle that names no counted object changes nothing. Releasing
    /// the last reference frees the object; releasing any other lowers its
    /// count by one and files it as a possible cycle root, changing nothing
    /// else.
    pub fn release(&mut self, h: Handle)
        requires
            old(self).gc_inv(),
        ensures
            final(self).same_frame(old(self)),
            !(old(self).gc_heap().spec_in_bounds(h) && old(self).gc_heap().spec_rc(h) >= 1) ==> final(self).spec_space()
                == old(self).spec_space() && final(self).spec_candidates() == old(self).spec_candidates()
                && final(self).gc_stats() == old(self).gc_stats(),
            old(self).gc_heap().spec_in_bounds(h) && old(self).gc_heap().spec_rc(h) == 1 ==> final(self).gc_heap().spec_flag(
                h,
                FLAG_FREE,
            ),
            ({
                let b = old(self).gc_heap();
                let c = final(self).gc_heap();
                b.spec_in_bounds(h) && b.spec_rc(h) >= 2 ==> {
                    &&& c.spec_rc(h) == b.spec_rc(h) - 1
                    &&& exists|m: Heap|
                        crate::heap::same_outside(m@, b@, h.0 + 12, h.0 + 16) && m.spec_rc(h) == b.spec_rc(h) - 1
                            && filed(m, c, old(self).spec_candidates(), final(self).spec_candidates(), h)
                    &&& final(self).gc_used() == old(self).gc_used()
                    &&& final(self).gc_stats() == old(self).gc_stats()
                }
            }),
    {
        if h.is_null() {
            return;
        }
        self.pending.push(h);
        let ghost cap = self.space.spec_heap().cap();
        let ghost hs = self.space.spec_heap();
        let ghost c0 = self.candidates@;
        let ghost quiet = !(hs.spec_in_bounds(h) && hs.spec_rc(h) >= 1);
        let ghost last = hs.spec_in_bounds(h) && hs.spec_rc(h) == 1;
        let ghost more = hs.spec_in_bounds(h) && hs.spec_rc(h) >= 2;
        proof {
            self.space.lemma_wf();
        }
        while self.pending.len() > 0
            invariant
                self.space.wf(),
                self.space.spec_heap().cap() == cap,
                cap % 16 == 0,
                self.roots == old(self).roots,
                hs.cap() == cap,
                hs == old(self).space.spec_heap(),
                c0 == old(self).candidates@,
                quiet == !(hs.spec_in_bounds(h) && hs.spec_rc(h) >= 1),
                last == (hs.spec_in_bounds(h) && hs.spec_rc(h) == 1),
                more == (hs.spec_in_bounds(h) && hs.spec_rc(h) >= 2),
                quiet ==> self.space == old(self).space && self.stats == old(self).stats && self.candidates
                    == old(self).candidates && self.pending@.len() <= 1 && (self.pending@.len() == 1
                    ==> self.pending@[0] == h),
                last ==> self.space.spec_heap().spec_flag(h, FLAG_FREE) || (self.pending@ == seq![h]
                    && self.space.spec_heap() == hs),
                more ==> (self.pending@ == seq![h] && self.space == old(self).space && self.stats == old(self).stats
                    && self.candidates == old(self).candidates) || (self.pending@.len() == 0 && self.space.spec_used()
                    == old(self).space.spec_used() && self.stats == old(self).stats && self.space.spec_heap().spec_rc(h)
                    == hs.spec_rc(h) - 1 && exists|m: Heap|
                    crate::heap::same_outside(m@, hs@, h.0 + 12, h.0 + 16) && m.spec_rc(h) == hs.spec_rc(h) - 1
                        && filed(m, self.space.spec_heap(), c0, self.candidates@, h)),
            decreases unfree_count(self.space.spec_heap()@, cap / 16), self.pending@.len(),
        {
            let ghost u0 = unfree_count(self.space.spec_heap()@, cap / 16);
            let ghost was_free = self.space.spec_heap().spec_flag(h, FLAG_FREE);
            let ghost pend = self.pending@;
            let obj = self.pending.pop().unwrap();
            proof {
                self.space.lemma_wf();
                if quiet || more || (last && !was_free) {
                    assert(pend =~= seq![h]);
                    assert(obj == h);
                }
            }
            if !self.space.heap().in_bounds(obj) {
                continue;
            }
            let rc = self.space.heap().rc(obj);
            if rc == 0 {
                continue;
            }
            let ghost b0 = self.space.spec_heap()@;
            let ghost before = self.space.spec_heap();
            self.space.heap_mut().set_rc(obj, rc - 1);
            proof {
                lemma_rc_frame(b0, self.space.spec_heap()@, cap / 16, obj.0 as int);
                if last && was_free {
                    assert(!(obj.0 + 12 <= h.0 + 6 < obj.0 + 16)) by (nonlinear_arith)
                        requires
                            h.0 % 16 == 0,
                            obj.0 % 16 == 0,
                    ;
                    assert(self.space.spec_heap()@[h.0 + 6] == before@[h.0 + 6]);
                }
            }
            if rc == 1 {
                if self.space.can_free(obj) {
                    let children = self.kids(obj);
                    let ghost sp = self.space;
                    let mut k: usize = 0;
                    while k < children.len()
                        invariant
                            k <= children@.len(),
                            self.space == sp,
                            self.roots == old(self).roots,
                        decreases children@.len() - k,
                    {
                        self.pending.push(children[k]);
                        k = k + 1;
                    }
                    let ghost fb = self.space.spec_heap();
                    let ghost flagged = fb.spec_flag(h, FLAG_FREE);
                    self.free_object(obj);
                    assert(unfree_count(self.space.spec_heap()@, cap / 16) < u0);
                    proof {
                        if last && flagged {
                            crate::refcount::lemma_free_keeps_free(fb, self.space.spec_heap(), obj, fb.spec_size(obj), h);
                        }
                    }
                }
            } else {
                let ghost pb = self.space.spec_heap();
                let ghost flagged = pb.spec_flag(h, FLAG_FREE);
                let ghost cb = self.candidates@;
                self.possible_root(obj);
                proof {
                    if last && flagged {
                        lemma_filed_keeps_free(pb, self.space.spec_heap(), cb, self.candidates@, obj, h);
                    }
                }
            }
        }
    }

    /// Return `h` to the allocator. A freed block may still be listed as a
    /// candidate; clearing its buffered flag tells the next collection that
    /// the entry is stale.
    fn free_object(&mut self, h: Handle)
        requires
            old(self).space.wf(),
            old(self).space.freeable(h),
            h.0 % 16 == 0,
        ensures
            same_collections(old(self).stats, final(self).stats),
            final(self).space.wf(),
            final(self).roots == old(self).roots,
            final(self).pending == old(self).pending,
            final(self).candidates == old(self).candidates,
            final(self).cycles_collected == old(self).cycles_collected,
            final(self).space.spec_heap().cap() == old(self).space.spec_heap().cap(),
            unfree_count(final(self).space.spec_heap()@, old(self).space.spec_heap().cap() / 16)
                < unfree_count(old(self).space.spec_heap()@, old(self).space.spec_heap().cap() / 16),
            final(self).space.spec_heap().spec_flag(h, FLAG_FREE),
            forall|j: int|
                h.0 + 16 <= j < h.0 + old(self).space.spec_heap().spec_size(h) ==> #[trigger] final(self).space.spec_heap()@[j] == POISON,
            forall|j: int|
                0 <= j < old(self).space.spec_heap().cap() && !(h.0 <= j < h.0 + old(self).space.spec_heap().spec_size(h)) ==> #[trigger] final(self).space.spec_heap()@[j]
                    == old(self).space.spec_heap()@[j],
    {
        proof {
            self.space.lemma_wf();
        }
        let ghost k = self.space.spec_heap().cap() / 16;
        let ghost b0 = self.space.spec_heap()@;
        let size = self.space.heap().size(h);
        proof {
            lemma_buffered_keeps_free(self.space.spec_heap().spec_flags(h));
        }
        self.set_buffered(h, false);
        proof {
            lemma_flag_frame(b0, self.space.spec_heap()@, k, h.0 as int, self.space.spec_heap()@[h.0 + 6]);
        }
        let ghost before = self.space.spec_heap();
        self.space.free(h);
        proof {
            lemma_free_drops(before, self.space.spec_heap(), h, size as int);
        }
        self.stats.objects_freed = self.stats.objects_freed.saturating_add(1);
        self.stats.bytes_freed = self.stats.bytes_freed.saturating_add(size as u64);
    }

    /// Colour `root`'s subgraph gray, taking one off each object's count for
    /// every reference crossed on the way in.
    ///
    /// Afterwards each count in the subgraph has had all internal references
    /// subtracted from it. An object already gray has had its own children
    /// dealt with, but an edge arriving at it is still subtracted.
    ///
    /// A root that is not a well-formed object, or is already gray, changes
    /// nothing; any other root ends up gray.
    pub fn mark_gray(&mut self, root: Handle)
        requires
            old(self).gc_inv(),
        ensures
            final(self).same_frame(old(self)),
            final(self).spec_candidates() == old(self).spec_candidates(),
            final(self).gc_used() == old(self).gc_used(),
            final(self).gc_stats() == old(self).gc_stats(),
            old(self).gc_heap().spec_in_bounds(root) ==> final(self).gc_heap().spec_color(root) == GRAY,
            !(old(self).gc_heap().spec_in_bounds(root) && old(self).gc_heap().spec_color(root) != GRAY)
                ==> final(self).spec_space() == old(self).spec_space(),
    {
        let mut work: Vec<Handle> = vec![root];
        let ghost cap = self.space.spec_heap().cap();
        let ghost fresh = self.space.spec_heap().spec_in_bounds(root) && self.space.spec_heap().spec_color(root) != GRAY;
        let ghost inb = self.space.spec_heap().spec_in_bounds(root);
        proof {
            self.space.lemma_wf();
        }
        while work.len() > 0
            invariant
                self.space.wf(),
                self.space.spec_heap().cap() == cap,
                cap % 16 == 0,
                self.roots == old(self).roots,
                self.pending == old(self).pending,
                self.candidates == old(self).candidates,
                self.stats == old(self).stats,
                self.space.spec_used() == old(self).space.spec_used(),
                fresh == (old(self).space.spec_heap().spec_in_bounds(root) && old(self).space.spec_heap().spec_color(root)
                    != GRAY),
                inb == old(self).space.spec_heap().spec_in_bounds(root),
                inb ==> root.0 % 16 == 0 && root.0 + 16 <= cap,
                !fresh ==> self.space == old(self).space && (work@.len() == 0 || work@ == seq![root]),
                fresh ==> (work@ == seq![root] && self.space == old(self).space) || self.space.spec_heap().spec_color(
                    root,
                ) == GRAY,
                inb && !fresh ==> self.space.spec_heap().spec_color(root) == GRAY,
            decreases not_gray(self.space.spec_heap()@, cap / 16), work@.len(),
        {
            let ghost w0 = work@;
            let s = work.pop().unwrap();
            proof {
                self.space.lemma_wf();
                if w0 == seq![root] {
                    assert(s == root);
                }
            }
            if !self.space.heap().in_bounds(s) || self.space.heap().color(s) == GRAY {
                continue;
            }
            proof {
                if inb {
                    lemma_color_apart(s.0 as int, root.0 as int);
                }
            }
            let ghost b0 = self.space.spec_heap()@;
            proof {
                if inb && s != root {
                    assert(b0[root.0 + 7] == GRAY);
                }
            }
            self.set_color(s, GRAY);
            proof {
                lemma_count_unsat_set(b0, self.space.spec_heap()@, cap / 16, 7, |x: u8| x == GRAY, s.0 as int, GRAY);
                if inb && s != root {
                    assert(self.space.spec_heap()@[root.0 + 7] == b0[root.0 + 7]);
                }
            }
            let ghost n0 = not_gray(self.space.spec_heap()@, cap / 16);
            let children = self.kids(s);
            let mut k: usize = 0;
            while k < children.len()
                invariant
                    self.space.wf(),
                    self.space.spec_heap().cap() == cap,
                    cap % 16 == 0,
                    self.roots == old(self).roots,
                    self.pending == old(self).pending,
                    self.candidates == old(self).candidates,
                    not_gray(self.space.spec_heap()@, cap / 16) == n0,
                    k <= children@.len(),
                    self.stats == old(self).stats,
                    self.space.spec_used() == old(self).space.spec_used(),
                    inb ==> root.0 % 16 == 0 && root.0 + 16 <= cap,
                    inb ==> self.space.spec_heap().spec_color(root) == GRAY,
                decreases children@.len() - k,
            {
                let t = children[k];
                proof {
                    self.space.lemma_wf();
                }
                if self.space.heap().in_bounds(t) {
                    let ghost b1 = self.space.spec_heap()@;
                    proof {
                        if inb {
                            lemma_color_apart(t.0 as int, root.0 as int);
                        }
                    }
                    self.step_rc(t, false);
                    proof {
                        lemma_rc_frame(b1, self.space.spec_heap()@, cap / 16, t.0 as int);
                    }
                }
                work.push(t);
                k = k + 1;
            }
        }
    }

    /// Decide, for each object in `root`'s gray subgraph, whether it
    /// survives.
    ///
    /// A count still above zero means a reference from outside the subgraph
    /// survived trial deletion, so the object lives and everything it reaches
    /// is put back. A count at zero means every reference to it came from
    /// inside: it goes white.
    ///
    /// A gray root ends up black or white, black if its count is above
    /// zero; any other root changes nothing.
    pub fn scan(&mut self, root: Handle)
        requires
            old(self).gc_inv(),
        ensures
            final(self).same_frame(old(self)),
            final(self).spec_candidates() == old(self).spec_candidates(),
            final(self).gc_used() == old(self).gc_used(),
            final(self).gc_stats() == old(self).gc_stats(),
            ({
                let hp = old(self).gc_heap();
                let c = final(self).gc_heap().spec_color(root);
                &&& hp.spec_in_bounds(root) && hp.spec_color(root) == GRAY ==> c == BLACK || c == WHITE
                &&& hp.spec_in_bounds(root) && hp.spec_color(root) == GRAY && hp.spec_rc(root) > 0 ==> c == BLACK
                &&& !(hp.spec_in_bounds(root) && hp.spec_color(root) == GRAY) ==> final(self).spec_space()
                    == old(self).spec_space()
            }),
    {
        let mut work: Vec<Handle> = vec![root];
        let ghost cap = self.space.spec_heap().cap();
        let ghost g = self.space.spec_heap().spec_in_bounds(root) && self.space.spec_heap().spec_color(root) == GRAY;
        let ghost pos = g && self.space.spec_heap().spec_rc(root) > 0;
        proof {
            self.space.lemma_wf();
        }
        while work.len() > 0
            invariant
                self.space.wf(),
                self.space.spec_heap().cap() == cap,
                cap % 16 == 0,
                self.roots == old(self).roots,
                self.pending == old(self).pending,
                self.candidates == old(self).candidates,
                self.stats == old(self).stats,
                self.space.spec_used() == old(self).space.spec_used(),
                g == (old(self).space.spec_heap().spec_in_bounds(root) && old(self).space.spec_heap().spec_color(root)
                    == GRAY),
                pos == (g && old(self).space.spec_heap().spec_rc(root) > 0),
                g ==> root.0 % 16 == 0 && root.0 + 16 <= cap,
                !g ==> self.space == old(self).space && (work@.len() == 0 || work@ == seq![root]),
                g ==> (work@ == seq![root] && self.space == old(self).space) || self.space.spec_heap().spec_color(root)
                    == BLACK || self.space.spec_heap().spec_color(root) == WHITE,
                pos ==> (work@ == seq![root] && self.space == old(self).space) || self.space.spec_heap().spec_color(
                    root,
                ) == BLACK,
            decreases gray_left(self.space.spec_heap()@, cap / 16), work@.len(),
        {
            let ghost w0 = work@;
            let s = work.pop().unwrap();
            proof {
                self.space.lemma_wf();
                if w0 == seq![root] {
                    assert(s == root);
                }
            }
            if !self.space.heap().in_bounds(s) || self.space.heap().color(s) != GRAY {
                continue;
            }
            proof {
                if g {
                    lemma_color_apart(s.0 as int, root.0 as int);
                }
            }
            let ghost g0 = gray_left(self.space.spec_heap()@, cap / 16);
            if self.space.heap().rc(s) > 0 {
                self.blacken(s);
            } else {
                let ghost b0 = self.space.spec_heap()@;
                self.set_color(s, WHITE);
                proof {
                    lemma_count_unsat_set(b0, self.space.spec_heap()@, cap / 16, 7, |x: u8| x != GRAY, s.0 as int, WHITE);
                }
                let children = self.kids(s);
                let ghost me = *self;
                let mut k: usize = 0;
                while k < children.len()
                    invariant
                        k <= children@.len(),
                        *self == me,
                    decreases children@.len() - k,
                {
                    work.push(children[k]);
                    k = k + 1;
                }
            }
        }
    }

    /// Undo trial deletion across `root`'s subgraph: it is externally
    /// referenced after all, so every reference it holds is restored.
    ///
    /// A root that is a well-formed object ends up black; any other root
    /// changes nothing.
    pub fn scan_black(&mut self, root: Handle)
        requires
            old(self).gc_inv(),
        ensures
            final(self).same_frame(old(self)),
            final(self).spec_candidates() == old(self).spec_candidates(),
            final(self).gc_used() == old(self).gc_used(),
            final(self).gc_stats() == old(self).gc_stats(),
            old(self).gc_heap().spec_in_bounds(root) ==> final(self).gc_heap().spec_color(root) == BLACK,
            !old(self).gc_heap().spec_in_bounds(root) ==> final(self).spec_space() == old(self).spec_space(),
    {
        proof {
            self.space.lemma_wf();
        }
        if self.space.heap().in_bounds(root) {
            self.blacken(root);
        }
    }

    /// [`CycleCollector::scan_black`] on an object known to be well formed:
    /// it turns black, and so does everything it reaches that was not
    /// already, each edge crossed giving its target its reference back. No
    /// header becomes gray or white.
    fn blacken(&mut self, root: Handle)
        requires
            old(self).space.wf(),
            old(self).space.spec_heap().spec_in_bounds(root),
        ensures
            final(self).space.wf(),
            final(self).space.spec_heap().cap() == old(self).space.spec_heap().cap(),
            final(self).roots == old(self).roots,
            final(self).pending == old(self).pending,
            final(self).candidates == old(self).candidates,
            gray_left(final(self).space.spec_heap()@, old(self).space.spec_heap().cap() / 16)
                <= gray_left(old(self).space.spec_heap()@, old(self).space.spec_heap().cap() / 16),
            old(self).space.spec_heap().spec_color(root) == GRAY ==> gray_left(
                final(self).space.spec_heap()@,
                old(self).space.spec_heap().cap() / 16,
            ) < gray_left(old(self).space.spec_heap()@, old(self).space.spec_heap().cap() / 16),
            final(self).space.spec_heap().spec_color(root) == BLACK,
            final(self).stats == old(self).stats,
            final(self).space.spec_used() == old(self).space.spec_used(),
            forall|h: Handle|
                h.0 % 16 == 0 && h.0 + 16 <= old(self).space.spec_heap().cap() ==> #[trigger] final(self).space.spec_heap().spec_color(h)
                    == old(self).space.spec_heap().spec_color(h) || final(self).space.spec_heap().spec_color(h) == BLACK,
    {
        let ghost cap = self.space.spec_heap().cap();
        let ghost k = cap / 16;
        let ghost g_start = gray_left(self.space.spec_heap()@, k);
        proof {
            self.space.lemma_wf();
        }
        let ghost b0 = self.space.spec_heap()@;
        let ghost start = self.space.spec_heap();
        self.set_color(root, BLACK);
        proof {
            assert forall|h: Handle| h.0 % 16 == 0 && h.0 + 16 <= cap implies #[trigger] self.space.spec_heap().spec_color(h)
                == start.spec_color(h) || self.space.spec_heap().spec_color(h) == BLACK by {
                lemma_color_apart(h.0 as int, root.0 as int);
            }
            lemma_count_unsat_set(b0, self.space.spec_heap()@, k, 7, |x: u8| x != GRAY, root.0 as int, BLACK);
            lemma_count_unsat_set(b0, self.space.spec_heap()@, k, 7, |x: u8| x == BLACK, root.0 as int, BLACK);
        }
        let ghost g1 = gray_left(self.space.spec_heap()@, k);
        let mut work: Vec<Handle> = vec![root];
        while work.len() > 0
            invariant
                self.space.wf(),
                self.space.spec_heap().cap() == cap,
                cap % 16 == 0,
                k == cap / 16,
                self.roots == old(self).roots,
                self.pending == old(self).pending,
                self.candidates == old(self).candidates,
                gray_left(self.space.spec_heap()@, k) <= g1,
                self.space.spec_heap().spec_color(root) == BLACK,
                root.0 % 16 == 0 && root.0 + 16 <= cap,
                self.stats == old(self).stats,
                self.space.spec_used() == old(self).space.spec_used(),
                start == old(self).space.spec_heap(),
                forall|h: Handle|
                    h.0 % 16 == 0 && h.0 + 16 <= cap ==> #[trigger] self.space.spec_heap().spec_color(h) == start.spec_color(h)
                        || self.space.spec_heap().spec_color(h) == BLACK,
            decreases not_black(self.space.spec_heap()@, k), work@.len(),
        {
            let s = work.pop().unwrap();
            proof {
                self.space.lemma_wf();
            }
            if !self.space.heap().in_bounds(s) {
                continue;
            }
            let ghost nb0 = not_black(self.space.spec_heap()@, k);
            let ghost w0 = work@.len();
            let children = self.kids(s);
            let mut j: usize = 0;
            while j < children.len()
                invariant
                    self.space.wf(),
                    self.space.spec_heap().cap() == cap,
                    cap % 16 == 0,
                    k == cap / 16,
                    self.roots == old(self).roots,
                    self.pending == old(self).pending,
                    self.candidates == old(self).candidates,
                    gray_left(self.space.spec_heap()@, k) <= g1,
                    self.space.spec_heap().spec_color(root) == BLACK,
                    root.0 % 16 == 0 && root.0 + 16 <= cap,
                    self.stats == old(self).stats,
                    self.space.spec_used() == old(self).space.spec_used(),
                    start == old(self).space.spec_heap(),
                    forall|h: Handle|
                        h.0 % 16 == 0 && h.0 + 16 <= cap ==> #[trigger] self.space.spec_heap().spec_color(h) == start.spec_color(h)
                            || self.space.spec_heap().spec_color(h) == BLACK,
                    j <= children@.len(),
                    work@.len() >= w0,
                    work@.len() == w0 || not_black(self.space.spec_heap()@, k) < nb0,
                    not_black(self.space.spec_heap()@, k) <= nb0,
                decreases children@.len() - j,
            {
                let t = children[j];
                proof {
                    self.space.lemma_wf();
                }
                if self.space.heap().in_bounds(t) {
                    let ghost b1 = self.space.spec_heap()@;
                    proof {
                        lemma_color_apart(t.0 as int, root.0 as int);
                    }
                    let ghost pre = self.space.spec_heap();
                    self.step_rc(t, true);
                    proof {
                        assert forall|h: Handle| h.0 % 16 == 0 && h.0 + 16 <= cap implies #[trigger] self.space.spec_heap().spec_color(h)
                            == start.spec_color(h) || self.space.spec_heap().spec_color(h) == BLACK by {
                            lemma_color_apart(t.0 as int, h.0 as int);
                            assert(self.space.spec_heap().spec_color(h) == pre.spec_color(h));
                        }
                    }
                    proof {
                        lemma_rc_frame(b1, self.space.spec_heap()@, k, t.0 as int);
                        self.space.lemma_wf();
                    }
                    if self.space.heap().color(t) != BLACK {
                        let ghost b2 = self.space.spec_heap()@;
                        assert(root.0 + 7 != t.0 + 7);
                        let ghost pre = self.space.spec_heap();
                        self.set_color(t, BLACK);
                        proof {
                            assert forall|h: Handle| h.0 % 16 == 0 && h.0 + 16 <= cap implies #[trigger] self.space.spec_heap().spec_color(h)
                                == start.spec_color(h) || self.space.spec_heap().spec_color(h) == BLACK by {
                                lemma_color_apart(t.0 as int, h.0 as int);
                                if h != t {
                                    assert(self.space.spec_heap().spec_color(h) == pre.spec_color(h));
                                }
                            }
                        }
                        proof {
                            lemma_count_unsat_set(b2, self.space.spec_heap()@, k, 7, |x: u8| x != GRAY, t.0 as int, BLACK);
                            lemma_count_unsat_set(b2, self.space.spec_heap()@, k, 7, |x: u8| x == BLACK, t.0 as int, BLACK);
                        }
                        work.push(t);
                    }
                }
                j = j + 1;
            }
        }
    }

    /// Free everything still white in `root`'s subgraph.
    ///
    /// An object that is still buffered is some other candidate's business
    /// and is left alone; it is reached when that candidate's turn comes.
    /// Nothing is freed until the traversal is finished, because freeing an
    /// object destroys the references the traversal is walking. Every object
    /// freed here is counted in [`CycleCollector::cycles_collected`].
    ///
    /// A white, unbuffered root that is not yet free is freed; any other
    /// root changes nothing.
    pub fn collect_white(&mut self, root: Handle)
        requires
            old(self).gc_inv(),
        ensures
            same_collections(old(self).gc_stats(), final(self).gc_stats()),
            final(self).same_frame(old(self)),
            final(self).spec_candidates() == old(self).spec_candidates(),
            final(self).spec_cycles_collected() >= old(self).spec_cycles_collected(),
            ({
                let hp = old(self).gc_heap();
                let white = hp.spec_in_bounds(root) && hp.spec_color(root) == WHITE && !hp.spec_flag(root, FLAG_BUFFERED);
                &&& white && !hp.spec_flag(root, FLAG_FREE) ==> final(self).gc_heap().spec_flag(root, FLAG_FREE)
                &&& !white ==> final(self).spec_space() == old(self).spec_space() && final(self).spec_cycles_collected()
                    == old(self).spec_cycles_collected() && final(self).gc_stats() == old(self).gc_stats()
            }),
    {
        let mut work: Vec<Handle> = vec![root];
        let mut doomed: Vec<Handle> = Vec::new();
        let ghost cap = self.space.spec_heap().cap();
        let ghost h0 = self.space.spec_heap();
        let ghost white = h0.spec_in_bounds(root) && h0.spec_color(root) == WHITE && !h0.spec_flag(root, FLAG_BUFFERED);
        let ghost live = white && !h0.spec_flag(root, FLAG_FREE);
        proof {
            self.space.lemma_wf();
        }
        while work.len() > 0
            invariant
                same_collections(old(self).stats, self.stats),
                self.space.wf(),
                self.space.spec_heap().cap() == cap,
                cap % 16 == 0,
                self.roots == old(self).roots,
                self.pending == old(self).pending,
                self.candidates == old(self).candidates,
                self.cycles_collected == old(self).cycles_collected,
                self.stats == old(self).stats,
                h0 == old(self).space.spec_heap(),
                white == (h0.spec_in_bounds(root) && h0.spec_color(root) == WHITE && !h0.spec_flag(root, FLAG_BUFFERED)),
                live == (white && !h0.spec_flag(root, FLAG_FREE)),
                white ==> root.0 % 16 == 0 && root.0 + 16 <= cap,
                !white ==> self.space == old(self).space && doomed@.len() == 0 && (work@.len() == 0 || work@
                    == seq![root]),
                white ==> (work@ == seq![root] && self.space == old(self).space && doomed@.len() == 0) || (doomed@.len()
                    > 0 && doomed@[0] == root),
                live && doomed@.len() > 0 ==> self.space.freeable(root),
            decreases white_left(self.space.spec_heap()@, cap / 16), work@.len(),
        {
            let ghost w0 = work@;
            let s = work.pop().unwrap();
            proof {
                self.space.lemma_wf();
                if w0 == seq![root] {
                    assert(s == root);
                }
            }
            if !self.space.heap().in_bounds(s) || self.space.heap().color(s) != WHITE
                || self.space.heap().flag(s, FLAG_BUFFERED) {
                continue;
            }
            let ghost b0 = self.space.spec_heap()@;
            let ghost pre = self.space.spec_heap();
            proof {
                if white {
                    assert(!(root.0 <= s.0 + 7 < root.0 + 4) && s.0 + 7 != root.0 + 6) by (nonlinear_arith)
                        requires
                            root.0 % 16 == 0,
                            s.0 % 16 == 0,
                    ;
                }
            }
            self.set_color(s, BLACK);
            proof {
                if live && doomed@.len() > 0 {
                    let post = self.space.spec_heap();
                    assert(post@[root.0 + 6] == pre@[root.0 + 6]);
                    assert(post@[root.0 as int] == pre@[root.0 as int] && post@[root.0 + 1] == pre@[root.0 + 1]
                        && post@[root.0 + 2] == pre@[root.0 + 2] && post@[root.0 + 3] == pre@[root.0 + 3]);
                }
                if live && doomed@.len() == 0 {
                    let post = self.space.spec_heap();
                    assert(s == root);
                    assert(post@[root.0 + 6] == pre@[root.0 + 6]);
                    assert(post@[root.0 as int] == pre@[root.0 as int] && post@[root.0 + 1] == pre@[root.0 + 1]
                        && post@[root.0 + 2] == pre@[root.0 + 2] && post@[root.0 + 3] == pre@[root.0 + 3]);
                }
            }
            proof {
                lemma_count_unsat_set(b0, self.space.spec_heap()@, cap / 16, 7, |x: u8| x != WHITE, s.0 as int, BLACK);
            }
            let children = self.kids(s);
            let ghost me = *self;
            let mut k: usize = 0;
            while k < children.len()
                invariant
                    same_collections(old(self).stats, self.stats),
                    k <= children@.len(),
                    *self == me,
                decreases children@.len() - k,
            {
                work.push(children[k]);
                k = k + 1;
            }
            doomed.push(s);
        }
        let mut d: usize = 0;
        while d < doomed.len()
            invariant
                same_collections(old(self).stats, self.stats),
                self.space.wf(),
                self.space.spec_heap().cap() == cap,
                self.roots == old(self).roots,
                self.pending == old(self).pending,
                self.candidates == old(self).candidates,
                self.cycles_collected >= old(self).cycles_collected,
                d <= doomed@.len(),
                white ==> root.0 % 16 == 0 && root.0 + 16 <= cap,
                !white ==> self.space == old(self).space && doomed@.len() == 0 && self.cycles_collected
                    == old(self).cycles_collected && self.stats == old(self).stats,
                live ==> doomed@.len() > 0 && doomed@[0] == root,
                live && d == 0 ==> self.space.freeable(root),
                live && d > 0 ==> self.space.spec_heap().spec_flag(root, FLAG_FREE),
            decreases doomed@.len() - d,
        {
            let s = doomed[d];
            if self.space.can_free(s) && s.0 % 16 == 0 {
                let ghost before = self.space.spec_heap();
                self.free_object(s);
                proof {
                    if live && d > 0 {
                        crate::refcount::lemma_free_keeps_free(before, self.space.spec_heap(), s, before.spec_size(s), root);
                    }
                }
                self.cycles_collected = self.cycles_collected.saturating_add(1);
            }
            d = d + 1;
        }
    }

    /// Examine every candidate and free whatever turns out to be a garbage
    /// cycle.
    ///
    /// A candidate whose block was freed, or reused, since it was filed is
    /// stale and skipped; one that is no longer purple has been cleared of
    /// suspicion and leaves the buffer, free to be suspected again.
    pub fn collect_cycles(&mut self)
        requires
            old(self).gc_inv(),
        ensures
            same_collections(old(self).gc_stats(), final(self).gc_stats()),
            final(self).same_frame(old(self)),
            final(self).spec_candidates().len() == 0,
    {
        let mut candidates: Vec<Handle> = Vec::new();
        std::mem::swap(&mut candidates, &mut self.candidates);
        let mut cycle_roots: Vec<Handle> = Vec::new();
        let ghost cap = self.space.spec_heap().cap();
        let mut i: usize = 0;
        while i < candidates.len()
            invariant
                same_collections(old(self).stats, self.stats),
                self.space.wf(),
                self.space.spec_heap().cap() == cap,
                self.roots == old(self).roots,
                self.pending@.len() == 0,
                self.candidates@.len() == 0,
                i <= candidates@.len(),
            decreases candidates@.len() - i,
        {
            let s = candidates[i];
            proof {
                self.space.lemma_wf();
            }
            i = i + 1;
            if !self.space.heap().in_bounds(s) || !self.space.heap().flag(s, FLAG_BUFFERED)
                || self.space.is_free(s) {
                continue;
            }
            if self.space.heap().color(s) == PURPLE && self.space.heap().rc(s) > 0 {
                self.mark_gray(s);
                cycle_roots.push(s);
            } else {
                self.set_buffered(s, false);
            }
        }

        let mut i: usize = 0;
        while i < cycle_roots.len()
            invariant
                same_collections(old(self).stats, self.stats),
                self.space.wf(),
                self.space.spec_heap().cap() == cap,
                self.roots == old(self).roots,
                self.pending@.len() == 0,
                self.candidates@.len() == 0,
                i <= cycle_roots@.len(),
            decreases cycle_roots@.len() - i,
        {
            self.scan(cycle_roots[i]);
            i = i + 1;
        }

        let mut i: usize = 0;
        while i < cycle_roots.len()
            invariant
                same_collections(old(self).stats, self.stats),
                self.space.wf(),
                self.space.spec_heap().cap() == cap,
                self.roots == old(self).roots,
                self.pending@.len() == 0,
                self.candidates@.len() == 0,
                i <= cycle_roots@.len(),
            decreases cycle_roots@.len() - i,
        {
            let s = cycle_roots[i];
            proof {
                self.space.lemma_wf();
            }
            if self.space.heap().in_bounds(s) {
                self.set_buffered(s, false);
            }
            self.collect_white(s);
            i = i + 1;
        }
    }

    fn count_allocation(&mut self, h: Handle)
        requires
            old(self).space.wf(),
            old(self).space.spec_heap().hdr_in(h),
        ensures
            final(self).space == old(self).space,
            final(self).roots == old(self).roots,
            final(self).pending == old(self).pending,
            final(self).candidates == old(self).candidates,
            final(self).stats == counted_allocation(
                old(self).stats,
                old(self).space.spec_heap().spec_size(h),
                old(self).space.spec_used() as u32,
            ),
    {
        proof {
            self.space.lemma_wf();
        }
        self.stats.allocations = self.stats.allocations.saturating_add(1);
        let size = self.space.heap().size(h);
        self.stats.bytes_allocated = self.stats.bytes_allocated.saturating_add(size as u64);
        self.stats.observe_used(self.space.used_bytes());
    }
}

impl Collector for CycleCollector {
    closed spec fn gc_heap(&self) -> Heap {
        self.space.spec_heap()
    }

    closed spec fn gc_roots(&self) -> Roots {
        self.roots
    }

    closed spec fn gc_stats(&self) -> GcStats {
        self.stats
    }

    closed spec fn gc_used(&self) -> int {
        self.space.spec_used()
    }

    closed spec fn gc_inv(&self) -> bool {
        &&& self.space.wf()
        &&& self.pending@.len() == 0
    }

    proof fn lemma_inv_heap(&self) {
        self.space.lemma_wf();
    }

    fn name(&self) -> &'static str {
        "reference counting with cycle collection"
    }

    fn heap(&self) -> (r: &Heap) {
        self.space.heap()
    }

    fn heap_mut(&mut self) -> (r: &mut Heap) {
        self.space.heap_mut()
    }

    fn roots(&self) -> (r: &Roots) {
        &self.roots
    }

    fn roots_mut(&mut self) -> (r: &mut Roots) {
        &mut self.roots
    }

    fn stats(&self) -> (r: &GcStats) {
        &self.stats
    }

    fn used_bytes(&self) -> (r: u32) {
        self.space.used_bytes()
    }

    /// Allocation succeeds, without collecting, whenever the space has room
    /// for the object.
    fn allocate(&mut self, nrefs: u16, ndata: u32) -> (r: Result<Handle, GcError>)
        ensures
            old(self).spec_space().room_for(spec_size_for(nrefs as int, ndata as int)) ==> r is Ok && final(self).spec_candidates()
                == old(self).spec_candidates(),
    {
        if let Some(h) = self.space.allocate(nrefs, ndata) {
            self.count_allocation(h);
            return Ok(h);
        }
        self.collect();
        match self.space.allocate(nrefs, ndata) {
            Some(h) => {
                self.count_allocation(h);
                Ok(h)
            },
            None => {
                self.stats.allocation_failures = self.stats.allocation_failures.saturating_add(1);
                Err(
                    GcError::OutOfMemory {
                        requested: Heap::size_for(nrefs, ndata),
                        used: self.space.used_bytes(),
                        capacity: self.space.capacity(),
                    },
                )
            },
        }
    }

    /// Store `val` into slot `i` of `obj`: `val` gains a reference before
    /// the slot's old value loses one.
    ///
    /// Storing into an empty slot frees nothing: the slot ends up holding
    /// `val`, which, if it is an object, is counted up and coloured black.
    fn write_field(&mut self, obj: Handle, i: u16, val: Handle)
        ensures
            ({
                let hp = old(self).gc_heap();
                let o = obj.0 + 16 + 4 * i;
                hp.spec_field(obj, i as int) == NULL_ADDR && (!hp.spec_in_bounds(val) || (obj.0 % 16 == 0 && !(
                val.0 <= o < val.0 + 16))) ==> {
                    &&& final(self).gc_heap().spec_field(obj, i as int) == val.0
                    &&& final(self).gc_used() == old(self).gc_used()
                    &&& final(self).gc_stats() == old(self).gc_stats()
                    &&& final(self).spec_candidates() == old(self).spec_candidates()
                    &&& !hp.spec_in_bounds(val) ==> crate::heap::same_outside(final(self).gc_heap()@, hp@, o, o + 4)
                    &&& hp.spec_in_bounds(val) ==> final(self).gc_heap().spec_color(val) == BLACK
                    &&& hp.spec_in_bounds(val) && hp.spec_rc(val) < u32::MAX ==> final(self).gc_heap().spec_rc(val)
                        == hp.spec_rc(val) + 1
                }
            }),
    {
        let ghost h0 = self.space.spec_heap();
        self.retain(val);
        let ghost h1 = self.space.spec_heap();
        proof {
            self.space.lemma_wf();
            if h0.spec_in_bounds(val) && obj.0 % 16 == 0 && !(val.0 <= obj.0 + 16 + 4 * i < val.0 + 16) {
                lemma_retained_keeps_slot(h0, h1, val, obj, i as int);
            }
        }
        if !self.space.heap().field_ok(obj, i) {
            return;
        }
        let was = self.space.heap().field(obj, i);
        self.space.heap_mut().set_field(obj, i, val);
        proof {
            let h2 = self.space.spec_heap();
            let o = obj.0 + 16 + 4 * i;
            if h0.spec_in_bounds(val) && obj.0 % 16 == 0 && !(val.0 <= o < val.0 + 16) {
                assert(o + 4 <= val.0 || val.0 + 16 <= o) by (nonlinear_arith)
                    requires
                        obj.0 % 16 == 0,
                        val.0 % 16 == 0,
                        o == obj.0 + 16 + 4 * i,
                        !(val.0 <= o < val.0 + 16),
                ;
                let r = val.0 + 12;
                assert(h2@[r] == h1@[r] && h2@[r + 1] == h1@[r + 1] && h2@[r + 2] == h1@[r + 2] && h2@[r + 3]
                    == h1@[r + 3]);
                assert(h2@[val.0 + 7] == h1@[val.0 + 7]);
            }
        }
        self.release(was);
    }

    /// Rebinding a global to the object it already names leaves its count
    /// as it was, but files it as a possible cycle root.
    fn on_global_changed(&mut self, was: Handle, now: Handle)
        ensures
            ({
                let hp = old(self).gc_heap();
                &&& was.0 == NULL_ADDR && hp.spec_in_bounds(now) ==> retained(hp, final(self).gc_heap(), now)
                &&& was.0 == NULL_ADDR && !hp.spec_in_bounds(now) ==> final(self).gc_heap() == hp
                &&& was.0 == NULL_ADDR ==> final(self).gc_used() == old(self).gc_used() && final(self).gc_stats()
                    == old(self).gc_stats() && final(self).spec_candidates() == old(self).spec_candidates()
                &&& now.0 == NULL_ADDR && hp.spec_in_bounds(was) && hp.spec_rc(was) == 1
                    ==> final(self).gc_heap().spec_flag(was, FLAG_FREE)
                &&& now.0 == NULL_ADDR && hp.spec_in_bounds(was) && hp.spec_rc(was) >= 2 ==> final(self).gc_heap().spec_rc(
                    was,
                ) == hp.spec_rc(was) - 1 && final(self).gc_heap().spec_color(was) == PURPLE && final(self).gc_used()
                    == old(self).gc_used()
                &&& now.0 == NULL_ADDR && !(hp.spec_in_bounds(was) && hp.spec_rc(was) >= 1) ==> final(self).gc_heap()
                    == hp && final(self).gc_used() == old(self).gc_used()
                &&& was == now && hp.spec_in_bounds(now) && 1 <= hp.spec_rc(now) < u32::MAX ==> {
                    &&& final(self).gc_heap().spec_rc(now) == hp.spec_rc(now)
                    &&& final(self).gc_heap().spec_color(now) == PURPLE
                    &&& final(self).gc_used() == old(self).gc_used()
                    &&& final(self).gc_stats() == old(self).gc_stats()
                }
            }),
    {
        let ghost h0 = self.space.spec_heap();
        self.retain(now);
        let ghost h1 = self.space.spec_heap();
        proof {
            if was == now && h0.spec_in_bounds(now) {
                lemma_retained_keeps_bounds(h0, h1, now);
            }
        }
        self.release(was);
    }

    /// Pushing a root counts one more reference to what it names.
    fn on_root_pushed(&mut self, h: Handle)
        ensures
            old(self).gc_heap().spec_in_bounds(h) ==> retained(old(self).gc_heap(), final(self).gc_heap(), h),
            !old(self).gc_heap().spec_in_bounds(h) ==> final(self).gc_heap() == old(self).gc_heap(),
            final(self).gc_used() == old(self).gc_used(),
            final(self).gc_stats() == old(self).gc_stats(),
            final(self).spec_candidates() == old(self).spec_candidates(),
    {
        self.retain(h);
    }

    /// Popping a root drops the reference it held: the last one frees the
    /// object, any other leaves it a possible cycle root.
    fn on_root_popped(&mut self, h: Handle)
        ensures
            ({
                let hp = old(self).gc_heap();
                &&& hp.spec_in_bounds(h) && hp.spec_rc(h) == 1 ==> final(self).gc_heap().spec_flag(h, FLAG_FREE)
                &&& hp.spec_in_bounds(h) && hp.spec_rc(h) >= 2 ==> final(self).gc_heap().spec_rc(h) == hp.spec_rc(h) - 1
                    && final(self).gc_heap().spec_color(h) == PURPLE && final(self).gc_used() == old(self).gc_used()
                    && final(self).gc_stats() == old(self).gc_stats()
                &&& !(hp.spec_in_bounds(h) && hp.spec_rc(h) >= 1) ==> final(self).gc_heap() == hp && final(self).gc_used()
                    == old(self).gc_used() && final(self).gc_stats() == old(self).gc_stats()
            }),
    {
        self.release(h);
    }

    /// A collection examines every candidate, frees the garbage cycles
    /// among them, and merges adjacent holes: afterwards the candidate
    /// buffer is empty and the free list is in address order.
    fn collect(&mut self)
        ensures
            final(self).spec_candidates().len() == 0,
            final(self).spec_space().is_sorted(),
            final(self).gc_roots() == old(self).gc_roots(),
    {
        let start = clock::now();
        self.collect_cycles();
        self.space.coalesce();
        self.stats.collections = self.stats.collections.saturating_add(1);
        self.stats.major_collections = self.stats.major_collections.saturating_add(1);
        let pause = clock::nanos_since(&start);
        self.stats.record_pause(pause);
    }
}

} // verus!
