//! Mark-compact: sliding the survivors down against each other so that all
//! the free space ends up in one contiguous run at the top.
//!
//! Allocation becomes a bump pointer, external fragmentation stops existing,
//! and objects allocated together stay together, because sliding preserves
//! address order.
//!
//! Objects move, so every reference to a moved object has to be rewritten:
//! the ones in reference slots of other objects, on the shadow stack and in
//! the global table. A missed one still addresses a well-formed object, just
//! not the right one.
//!
//! Four passes: **mark** what is reachable; **compute forwarding
//! addresses**, walking the heap in address order with a second cursor that
//! only advances past survivors; **update references**, in every survivor
//! whether it moves or not, and in every root; **move** each survivor down
//! to its recorded address, bottom up, clearing its mark and forwarding
//! address as it lands.
//!
//! Every pass walks `[0, top)` block by block and stops at the first header
//! that does not describe an aligned block inside that region.

use crate::clock;
use crate::collector::{Collector, GcError};
use crate::heap::{spec_size_for, Handle, Heap, FLAG_MARK, NULL_ADDR};
use crate::roots::{RootSlot, Roots};
use crate::space::{count_unsat, lemma_count_unsat_set};
use crate::stats::{counted_allocation, same_collections, GcStats};
use crate::trace::{
    flags_only, lemma_flags_only_header, lemma_mark_done, lemma_reach_child, lemma_mark_start, lemma_mark_step, lemma_pop_shape, lemma_root_reachable,
    lemma_step_keeps_any, marking, reachable, steps, trace_ready,
};
use vstd::prelude::*;

verus! {

/// Collect no sooner than this, so small programs pay nothing.
pub const MIN_THRESHOLD: u32 = 65536;

/// The threshold a collection leaves behind: twice what survived, but no
/// less than [`MIN_THRESHOLD`] and no more than the heap.
pub open spec fn next_threshold(top: int, cap: int) -> int {
    let doubled = if top > u32::MAX / 2 {
        u32::MAX as int
    } else {
        2 * top
    };
    let floor = if doubled > MIN_THRESHOLD {
        doubled
    } else {
        MIN_THRESHOLD as int
    };
    if floor < cap {
        floor
    } else {
        cap
    }
}

/// Consecutive collections that reclaim almost nothing from a nearly full
/// heap before the collector reports the heap exhausted.
pub const THRASH_LIMIT: u32 = 4;

/// Headers not yet marked: marking lowers it.
pub open spec fn unmarked(b: Seq<u8>, k: int) -> nat {
    count_unsat(b, k, 6, |x: u8| x & FLAG_MARK != 0)
}

/// The block at `at` is one the compacting walk of `[0, end)` can step
/// over: aligned, inside the arena, with a usable size that ends by `end`.
pub open spec fn step_ok(heap: Heap, at: int, end: int) -> bool {
    &&& 0 <= at < u32::MAX
    &&& at % 16 == 0
    &&& at + 16 <= heap.cap()
    &&& heap.spec_size(Handle(at as u32)) >= 16
    &&& heap.spec_size(Handle(at as u32)) % 16 == 0
    &&& at + heap.spec_size(Handle(at as u32)) <= end
}

/// Where the walk of `[at, end)` stops: at `end`, or at the first header it
/// cannot step over.
pub open spec fn walk_stop(heap: Heap, at: int, end: int) -> int
    decreases end - at,
{
    if at >= end || !step_ok(heap, at, end) {
        at
    } else {
        walk_stop(heap, at + heap.spec_size(Handle(at as u32)), end)
    }
}

/// `h` is one of the blocks the walk from `at` steps over before `stop`.
pub open spec fn walked(heap: Heap, at: int, stop: int, end: int, h: int) -> bool
    decreases end - at,
{
    if at >= stop || !step_ok(heap, at, end) {
        false
    } else if h == at {
        true
    } else {
        walked(heap, at + heap.spec_size(Handle(at as u32)), stop, end, h)
    }
}

/// Walking the blocks of `before` from `at` up to `stop`, every marked one
/// has, in `after`, the forwarding address that a cursor starting at `dest`
/// had reached when the walk got to it; the cursor moves past each marked
/// block and past nothing else.
pub open spec fn slid(before: Heap, after: Heap, at: int, stop: int, end: int, dest: int) -> bool
    decreases end - at,
{
    if at >= stop {
        at == stop
    } else if !step_ok(before, at, end) {
        false
    } else {
        let h = Handle(at as u32);
        let s = before.spec_size(h);
        let m = before.spec_flag(h, FLAG_MARK);
        &&& m ==> after.spec_fwd(h) == dest
        &&& slid(
            before,
            after,
            at + s,
            stop,
            end,
            if m {
                dest + s
            } else {
                dest
            },
        )
    }
}

/// Where the cursor of [`slid`] ends up.
pub open spec fn slid_dest(before: Heap, at: int, stop: int, end: int, dest: int) -> int
    decreases end - at,
{
    if at >= stop || !step_ok(before, at, end) {
        dest
    } else {
        let h = Handle(at as u32);
        let s = before.spec_size(h);
        slid_dest(
            before,
            at + s,
            stop,
            end,
            if before.spec_flag(h, FLAG_MARK) {
                dest + s
            } else {
                dest
            },
        )
    }
}

/// Extending a slide by one more block: if the block at `stop` is given the
/// cursor's address when marked, and nothing below `stop` changes, the slide
/// reaches past it.
#[verifier::spinoff_prover]
proof fn lemma_slid_extend(before: Heap, now: Heap, after: Heap, at: int, stop: int, end: int, dest: int)
    requires
        slid(before, now, at, stop, end, dest),
        step_ok(before, stop, end),
        before.spec_flag(Handle(stop as u32), FLAG_MARK) ==> after.spec_fwd(Handle(stop as u32)) == slid_dest(
            before,
            at,
            stop,
            end,
            dest,
        ),
        after@.len() == now@.len(),
        forall|i: int| 0 <= i < stop ==> #[trigger] after@[i] == now@[i],
    ensures
        slid(before, after, at, stop + before.spec_size(Handle(stop as u32)), end, dest),
        slid_dest(before, at, stop + before.spec_size(Handle(stop as u32)), end, dest) == slid_dest(
            before,
            at,
            stop,
            end,
            dest,
        ) + if before.spec_flag(Handle(stop as u32), FLAG_MARK) {
            before.spec_size(Handle(stop as u32))
        } else {
            0
        },
    decreases end - at,
{
    let ss = before.spec_size(Handle(stop as u32));
    if at == stop {
        let m = before.spec_flag(Handle(stop as u32), FLAG_MARK);
        let d2 = if m {
            dest + ss
        } else {
            dest
        };
        assert(slid(before, after, stop + ss, stop + ss, end, d2));
        assert(slid_dest(before, stop + ss, stop + ss, end, d2) == d2);
        assert(slid_dest(before, stop, stop, end, dest) == dest);
    } else {
        let h = Handle(at as u32);
        let s = before.spec_size(h);
        let m = before.spec_flag(h, FLAG_MARK);
        let d2 = if m {
            dest + s
        } else {
            dest
        };
        lemma_slid_le(before, now, at + s, stop, end, d2);
        lemma_slid_extend(before, now, after, at + s, stop, end, d2);
        if m {
            assert(after@[at + 8] == now@[at + 8] && after@[at + 9] == now@[at + 9] && after@[at + 10] == now@[at
                + 10] && after@[at + 11] == now@[at + 11]);
        }
    }
}

/// A slide ends where it said it would stop.
proof fn lemma_slid_le(before: Heap, after: Heap, at: int, stop: int, end: int, dest: int)
    requires
        slid(before, after, at, stop, end, dest),
    ensures
        at <= stop,
{
}

/// The walk from `at` meets nothing below `at`.
proof fn lemma_walked_ge(heap: Heap, at: int, stop: int, end: int, h: int)
    requires
        walked(heap, at, stop, end, h),
    ensures
        at <= h,
    decreases end - at,
{
    if h != at {
        lemma_walked_ge(heap, at + heap.spec_size(Handle(at as u32)), stop, end, h);
    }
}

/// An empty slide is one.
proof fn lemma_slid_start(before: Heap, after: Heap, end: int)
    ensures
        slid(before, after, 0, 0, end, 0),
        slid_dest(before, 0, 0, end, 0) == 0,
{
}

/// A slide whose cursor starts at or below the walk keeps every marked
/// block's destination between the cursor and the block itself, and
/// destinations in the blocks' own order, each past the one before.
#[verifier::spinoff_prover]
proof fn lemma_slid_down(before: Heap, after: Heap, at: int, stop: int, end: int, dest: int)
    requires
        slid(before, after, at, stop, end, dest),
        dest <= at,
    ensures
        forall|h: int|
            #[trigger] walked(before, at, stop, end, h) && before.spec_flag(Handle(h as u32), FLAG_MARK) ==> dest
                <= after.spec_fwd(Handle(h as u32)) <= h,
        forall|g: int, h: int|
            #[trigger] walked(before, at, stop, end, g) && #[trigger] walked(before, at, stop, end, h) && g < h
                && before.spec_flag(Handle(g as u32), FLAG_MARK) && before.spec_flag(Handle(h as u32), FLAG_MARK)
                ==> after.spec_fwd(Handle(g as u32)) + before.spec_size(Handle(g as u32)) <= after.spec_fwd(
                Handle(h as u32),
            ),
    decreases end - at,
{
    if at < stop {
        let x = Handle(at as u32);
        let s = before.spec_size(x);
        let m = before.spec_flag(x, FLAG_MARK);
        let d2 = if m {
            dest + s
        } else {
            dest
        };
        lemma_slid_down(before, after, at + s, stop, end, d2);
        assert forall|h: int|
            #[trigger] walked(before, at, stop, end, h) && before.spec_flag(Handle(h as u32), FLAG_MARK) implies dest
                <= after.spec_fwd(Handle(h as u32)) <= h by {
            if h != at {
                assert(walked(before, at + s, stop, end, h));
            }
        }
        assert forall|g: int, h: int|
            #[trigger] walked(before, at, stop, end, g) && #[trigger] walked(before, at, stop, end, h) && g < h
                && before.spec_flag(Handle(g as u32), FLAG_MARK) && before.spec_flag(Handle(h as u32), FLAG_MARK)
                implies after.spec_fwd(Handle(g as u32)) + before.spec_size(Handle(g as u32)) <= after.spec_fwd(
                Handle(h as u32),
            ) by {
            lemma_walked_ge(before, at, stop, end, g);
            assert(h != at);
            assert(walked(before, at + s, stop, end, h));
            if g != at {
                assert(walked(before, at + s, stop, end, g));
            }
        }
    }
}

/// Sliding never moves an object up: every survivor's destination is at or
/// below where it is now, and survivors keep their order, each landing past
/// the end of the one below it.
pub proof fn law_forwarding_slides_down(before: Heap, after: Heap, end: int)
    requires
        slid(before, after, 0, walk_stop(before, 0, end), end, 0),
    ensures
        forall|h: int|
            #[trigger] walked(before, 0, walk_stop(before, 0, end), end, h) && before.spec_flag(
                Handle(h as u32),
                FLAG_MARK,
            ) ==> after.spec_fwd(Handle(h as u32)) <= h,
        forall|g: int, h: int|
            #[trigger] walked(before, 0, walk_stop(before, 0, end), end, g) && #[trigger] walked(
                before,
                0,
                walk_stop(before, 0, end),
                end,
                h,
            ) && g < h && before.spec_flag(Handle(g as u32), FLAG_MARK) && before.spec_flag(Handle(h as u32), FLAG_MARK)
                ==> after.spec_fwd(Handle(g as u32)) + before.spec_size(Handle(g as u32)) <= after.spec_fwd(
                Handle(h as u32),
            ),
{
    lemma_slid_down(before, after, 0, walk_stop(before, 0, end), end, 0);
}

/// The walk from `at` lands exactly on `stop`, stepping over blocks.
pub open spec fn reaches(heap: Heap, at: int, stop: int, end: int) -> bool
    decreases end - at,
{
    if at >= stop {
        at == stop
    } else if !step_ok(heap, at, end) {
        false
    } else {
        reaches(heap, at + heap.spec_size(Handle(at as u32)), stop, end)
    }
}

/// A walk never lands past where it was going.
proof fn lemma_reaches_le(heap: Heap, at: int, stop: int, end: int)
    requires
        reaches(heap, at, stop, end),
    ensures
        at <= stop,
    decreases end - at,
{
    if at < stop {
        lemma_reaches_le(heap, at + heap.spec_size(Handle(at as u32)), stop, end);
    }
}

/// A walk that lands on a block it can step over lands past it too.
proof fn lemma_reaches_extend(heap: Heap, at: int, stop: int, end: int)
    requires
        reaches(heap, at, stop, end),
        step_ok(heap, stop, end),
    ensures
        reaches(heap, at, stop + heap.spec_size(Handle(stop as u32)), end),
    decreases end - at,
{
    if at < stop {
        lemma_reaches_extend(heap, at + heap.spec_size(Handle(at as u32)), stop, end);
    } else {
        let s = heap.spec_size(Handle(stop as u32));
        assert(reaches(heap, at + s, stop + s, end));
    }
}

/// The walk from `at` lands where it stops.
pub proof fn lemma_reaches_stop(heap: Heap, at: int, end: int)
    ensures
        reaches(heap, at, walk_stop(heap, at, end), end),
        at <= walk_stop(heap, at, end),
    decreases end - at,
{
    if at < end && step_ok(heap, at, end) {
        lemma_reaches_stop(heap, at + heap.spec_size(Handle(at as u32)), end);
    }
}

/// Every block a walk that lands on `stop` steps over can be stepped over,
/// and lies between `at` and `stop`.
proof fn lemma_walked_block(heap: Heap, at: int, stop: int, end: int, h: int)
    requires
        reaches(heap, at, stop, end),
        walked(heap, at, stop, end, h),
    ensures
        step_ok(heap, h, end),
        at <= h,
        h + heap.spec_size(Handle(h as u32)) <= stop,
    decreases end - at,
{
    let s = heap.spec_size(Handle(at as u32));
    if h == at {
        lemma_reaches_le(heap, at + s, stop, end);
    } else {
        lemma_walked_block(heap, at + s, stop, end, h);
    }
}

/// Two blocks of a walk do not overlap.
proof fn lemma_walked_apart(heap: Heap, at: int, stop: int, end: int, g: int, h: int)
    requires
        reaches(heap, at, stop, end),
        walked(heap, at, stop, end, g),
        walked(heap, at, stop, end, h),
        g < h,
    ensures
        g + heap.spec_size(Handle(g as u32)) <= h,
    decreases end - at,
{
    let s = heap.spec_size(Handle(at as u32));
    if g == at {
        lemma_walked_block(heap, at + s, stop, end, h);
    } else if h == at {
        lemma_walked_block(heap, at + s, stop, end, g);
    } else {
        lemma_walked_apart(heap, at + s, stop, end, g, h);
    }
}

/// A place the walk from `a` lands on, short of where the walk stops, is
/// one of its blocks.
proof fn lemma_walked_at(heap: Heap, a: int, m: int, end: int)
    requires
        reaches(heap, a, m, end),
        walk_stop(heap, a, end) == walk_stop(heap, m, end),
        m < walk_stop(heap, m, end),
    ensures
        walked(heap, a, walk_stop(heap, a, end), end, m),
        step_ok(heap, m, end),
    decreases end - a,
{
    if a < m {
        lemma_walked_at(heap, a + heap.spec_size(Handle(a as u32)), m, end);
    }
}

/// `x` is one of the blocks the walk of `[at, end)` steps over before it
/// stops.
pub open spec fn walk_block(heap: Heap, at: int, end: int, x: int) -> bool {
    walked(heap, at, walk_stop(heap, at, end), end, x)
}

/// Landing past one more block adds that block, and only it, to what the
/// walk has stepped over.
pub proof fn lemma_walked_extend(heap: Heap, a: int, m: int, end: int)
    requires
        reaches(heap, a, m, end),
        step_ok(heap, m, end),
    ensures
        forall|x: int| #[trigger]
            walked(heap, a, m + heap.spec_size(Handle(m as u32)), end, x) == (walked(heap, a, m, end, x) || x == m),
    decreases end - a,
{
    let s = heap.spec_size(Handle(m as u32));
    if a < m {
        lemma_walked_extend(heap, a + heap.spec_size(Handle(a as u32)), m, end);
        assert forall|x: int| #[trigger]
            walked(heap, a, m + s, end, x) == (walked(heap, a, m, end, x) || x == m) by {
            let sa = heap.spec_size(Handle(a as u32));
            lemma_reaches_le(heap, a + sa, m, end);
            assert(step_ok(heap, a, end));
            assert(walked(heap, a, m + s, end, x) == (x == a || walked(heap, a + sa, m + s, end, x)));
            assert(walked(heap, a, m, end, x) == (x == a || walked(heap, a + sa, m, end, x)));
            assert(walked(heap, a + sa, m + s, end, x) == (walked(heap, a + sa, m, end, x) || x == m));
        }
    } else {
        assert forall|x: int| #[trigger] walked(heap, a, m + s, end, x) == (walked(heap, a, m, end, x) || x == m) by {
            if x != m {
                assert(!walked(heap, a + s, m + s, end, x));
            }
        }
    }
}

/// A walk that has reached `at` and steps over the block there, or stops
/// there, has stepped over all it will.
pub proof fn lemma_walk_progress(heap: Heap, start: int, at: int, end: int)
    requires
        reaches(heap, start, at, end),
        walk_stop(heap, start, end) == walk_stop(heap, at, end),
    ensures
        at < end && step_ok(heap, at, end) ==> reaches(heap, start, at + heap.spec_size(Handle(at as u32)), end)
            && walk_stop(heap, start, end) == walk_stop(heap, at + heap.spec_size(Handle(at as u32)), end)
            && forall|x: int| #[trigger]
            walked(heap, start, at + heap.spec_size(Handle(at as u32)), end, x) == (walked(heap, start, at, end, x)
                || x == at),
        !(at < end && step_ok(heap, at, end)) ==> forall|x: int| #[trigger]
            walk_block(heap, start, end, x) == walked(heap, start, at, end, x),
        start <= at,
{
    lemma_reaches_le(heap, start, at, end);
    if at < end && step_ok(heap, at, end) {
        lemma_reaches_extend(heap, start, at, end);
        lemma_walked_extend(heap, start, at, end);
    }
}

/// Where a reference to `c` should point once the survivors have moved:
/// the forwarding address of a marked, well-formed object, and `c` itself
/// otherwise.
pub open spec fn destined(heap: Heap, c: int) -> int {
    let h = Handle(c as u32);
    if heap.spec_in_bounds(h) && heap.spec_flag(h, FLAG_MARK) {
        heap.spec_fwd(h)
    } else {
        c
    }
}

/// `c` is null or one of the blocks the walk of `[0, end)` steps over.
pub open spec fn named(heap: Heap, end: int, c: int) -> bool {
    c == NULL_ADDR || walked(heap, 0, walk_stop(heap, 0, end), end, c)
}

/// What the reference pass needs of the heap: every marked block of the
/// walk keeps its reference slots inside itself, and each reference it
/// holds, like each root, is null or names a block of the walk.
pub open spec fn refs_walked(heap: Heap, end: int, roots: Seq<Handle>) -> bool {
    let w = walk_stop(heap, 0, end);
    &&& forall|x: int| #[trigger]
        walked(heap, 0, w, end, x) && heap.spec_flag(Handle(x as u32), FLAG_MARK) ==> 16 + 4 * heap.spec_nrefs(
            Handle(x as u32),
        ) <= heap.spec_size(Handle(x as u32))
    &&& forall|x: int, i: int|
        #![trigger walked(heap, 0, w, end, x), heap.spec_field(Handle(x as u32), i)]
        walked(heap, 0, w, end, x) && heap.spec_flag(Handle(x as u32), FLAG_MARK) && 0 <= i < heap.spec_nrefs(
            Handle(x as u32),
        ) ==> named(heap, end, heap.spec_field(Handle(x as u32), i))
    &&& forall|k: int| 0 <= k < roots.len() ==> named(heap, end, #[trigger] roots[k].0 as int)
}

/// Byte `j` lies in a reference slot of the marked block at `x`.
pub open spec fn in_slots(heap: Heap, x: int, j: int) -> bool {
    &&& heap.spec_flag(Handle(x as u32), FLAG_MARK)
    &&& x + 16 <= j < x + 16 + 4 * heap.spec_nrefs(Handle(x as u32))
}

/// The reference pass over `before`, having dealt with the blocks of the
/// walk below `at`: each marked one's slots point where their targets are
/// going, and nothing else has changed: no byte of a block outside a
/// marked block's slots, and nothing from `at` up.
pub open spec fn updating(before: Heap, now: Heap, end: int, at: int) -> bool {
    let w = walk_stop(before, 0, end);
    &&& now@.len() == before@.len()
    &&& forall|j: int| at <= j < before@.len() ==> #[trigger] now@[j] == before@[j]
    &&& forall|x: int, j: int|
        #![trigger walked(before, 0, w, end, x), now@[j]]
        walked(before, 0, w, end, x) && x <= j < x + before.spec_size(Handle(x as u32)) && !in_slots(before, x, j)
            ==> now@[j] == before@[j]
    &&& forall|x: int, i: int|
        #![trigger walked(before, 0, w, end, x), now.spec_field(Handle(x as u32), i)]
        walked(before, 0, w, end, x) && x < at && before.spec_flag(Handle(x as u32), FLAG_MARK) && 0 <= i
            < before.spec_nrefs(Handle(x as u32)) ==> now.spec_field(Handle(x as u32), i) == destined(
            before,
            before.spec_field(Handle(x as u32), i),
        )
}

/// A handle whose header reads the same in two heaps is sent to the same
/// place in both.
proof fn lemma_destined_frame(a: Heap, b: Heap, c: int)
    requires
        a@.len() == b@.len(),
        forall|j: int| c <= j < c + 16 ==> #[trigger] a@[j] == b@[j],
        0 <= c <= u32::MAX,
    ensures
        destined(a, c) == destined(b, c),
{
    let h = Handle(c as u32);
    if h.0 + 16 <= a.cap() {
        assert(a@[c] == b@[c] && a@[c + 1] == b@[c + 1] && a@[c + 2] == b@[c + 2] && a@[c + 3] == b@[c + 3]);
        assert(a@[c + 6] == b@[c + 6]);
        assert(a@[c + 8] == b@[c + 8] && a@[c + 9] == b@[c + 9] && a@[c + 10] == b@[c + 10] && a@[c + 11]
            == b@[c + 11]);
    }
}

/// Dealing with the block of the walk at `x`, by rewriting its slots if it
/// is marked and nothing else, moves the reference pass past it.
#[verifier::spinoff_prover]
proof fn lemma_updating_block(before: Heap, pre: Heap, now: Heap, end: int, x: int)
    requires
        updating(before, pre, end, x),
        end <= before.cap(),
        walked(before, 0, walk_stop(before, 0, end), end, x),
        forall|y: int| #[trigger]
            walked(before, 0, walk_stop(before, 0, end), end, y) && before.spec_flag(Handle(y as u32), FLAG_MARK)
                ==> 16 + 4 * before.spec_nrefs(Handle(y as u32)) <= before.spec_size(Handle(y as u32)),
        now@.len() == pre@.len(),
        forall|j: int| #![trigger now@[j]] 0 <= j < now@.len() && !in_slots(before, x, j) ==> now@[j] == pre@[j],
        before.spec_flag(Handle(x as u32), FLAG_MARK) ==> forall|i: int|
            0 <= i < before.spec_nrefs(Handle(x as u32)) ==> #[trigger] now.spec_field(Handle(x as u32), i)
                == destined(before, before.spec_field(Handle(x as u32), i)),
    ensures
        updating(before, now, end, x + before.spec_size(Handle(x as u32))),
{
    let w = walk_stop(before, 0, end);
    let hx = Handle(x as u32);
    let sx = before.spec_size(hx);
    lemma_reaches_stop(before, 0, end);
    lemma_walked_block(before, 0, w, end, x);
    assert forall|j: int| x + sx <= j < before@.len() implies #[trigger] now@[j] == before@[j] by {
        assert(!in_slots(before, x, j));
        assert(now@[j] == pre@[j]);
    }
    assert forall|y: int, j: int|
        #![trigger walked(before, 0, w, end, y), now@[j]]
        walked(before, 0, w, end, y) && y <= j < y + before.spec_size(Handle(y as u32)) && !in_slots(before, y, j)
            implies now@[j] == before@[j] by {
        lemma_walked_block(before, 0, w, end, y);
        if y == x {
            assert(now@[j] == pre@[j]);
        } else {
            if y < x {
                lemma_walked_apart(before, 0, w, end, y, x);
            } else {
                lemma_walked_apart(before, 0, w, end, x, y);
            }
            assert(!in_slots(before, x, j));
            assert(now@[j] == pre@[j]);
        }
    }
    assert forall|y: int, i: int|
        #![trigger walked(before, 0, w, end, y), now.spec_field(Handle(y as u32), i)]
        walked(before, 0, w, end, y) && y < x + sx && before.spec_flag(Handle(y as u32), FLAG_MARK) && 0 <= i
            < before.spec_nrefs(Handle(y as u32)) implies now.spec_field(Handle(y as u32), i) == destined(
        before,
        before.spec_field(Handle(y as u32), i),
    ) by {
        if y != x {
            lemma_walked_block(before, 0, w, end, y);
            if y > x {
                lemma_walked_apart(before, 0, w, end, x, y);
            }
            lemma_walked_apart(before, 0, w, end, y, x);
            assert(y < x);
            assert(16 + 4 * before.spec_nrefs(Handle(y as u32)) <= before.spec_size(Handle(y as u32)));
            let o = y + 16 + 4 * i;
            assert(!in_slots(before, x, o) && !in_slots(before, x, o + 1) && !in_slots(before, x, o + 2)
                && !in_slots(before, x, o + 3));
            assert(now@[o] == pre@[o] && now@[o + 1] == pre@[o + 1] && now@[o + 2] == pre@[o + 2] && now@[o + 3]
                == pre@[o + 3]);
            assert(pre.spec_field(Handle(y as u32), i) == destined(before, before.spec_field(Handle(y as u32), i)));
        }
    }
}

/// Midway through the pass, a null reference or one naming a block of the
/// walk is sent where it was going to be sent before the pass began: its
/// header has not been touched, even while the slots of the block at `x`
/// below its `k`th are being rewritten.
#[verifier::spinoff_prover]
proof fn lemma_named_destined(before: Heap, pre: Heap, now: Heap, end: int, at: int, x: int, k: int, c: int)
    requires
        updating(before, pre, end, at),
        end <= before.cap(),
        named(before, end, c),
        k == 0 || walked(before, 0, walk_stop(before, 0, end), end, x) && 16 + 4 * k <= before.spec_size(
            Handle(x as u32),
        ),
        now@.len() == pre@.len(),
        forall|j: int| #![trigger now@[j]] 0 <= j < now@.len() && !(x + 16 <= j < x + 16 + 4 * k) ==> now@[j] == pre@[j],
    ensures
        destined(now, c) == destined(before, c),
{
    let w = walk_stop(before, 0, end);
    if c != NULL_ADDR {
        lemma_reaches_stop(before, 0, end);
        lemma_walked_block(before, 0, w, end, c);
        if k != 0 {
            lemma_walked_block(before, 0, w, end, x);
            if c < x {
                lemma_walked_apart(before, 0, w, end, c, x);
            } else if c > x {
                lemma_walked_apart(before, 0, w, end, x, c);
            }
        }
        assert forall|j: int| c <= j < c + 16 implies #[trigger] now@[j] == before@[j] by {
            assert(!in_slots(before, c, j));
            assert(now@[j] == pre@[j]);
        }
        lemma_destined_frame(now, before, c);
    }
}

/// The forwarding addresses of `heap` slide its survivors down: each
/// marked block of the walk of `[0, end)` is headed for an aligned address
/// at or below itself, and, in the walk's order, each lands past the end of
/// the one before.
pub open spec fn sliding(heap: Heap, end: int) -> bool {
    let w = walk_stop(heap, 0, end);
    &&& forall|x: int| #[trigger]
        walked(heap, 0, w, end, x) && heap.spec_flag(Handle(x as u32), FLAG_MARK) ==> heap.spec_fwd(Handle(x as u32))
            % 16 == 0 && heap.spec_fwd(Handle(x as u32)) <= x
    &&& forall|g: int, h: int|
        #[trigger] walked(heap, 0, w, end, g) && #[trigger] walked(heap, 0, w, end, h) && g < h && heap.spec_flag(
            Handle(g as u32),
            FLAG_MARK,
        ) && heap.spec_flag(Handle(h as u32), FLAG_MARK) ==> heap.spec_fwd(Handle(g as u32)) + heap.spec_size(
            Handle(g as u32),
        ) <= heap.spec_fwd(Handle(h as u32))
}

/// The survivor at `x` in `before` has landed at its forwarding address in
/// `now`: every byte as it was, but its mark cleared and its forwarding
/// address null.
pub open spec fn landed(before: Heap, now: Heap, x: int) -> bool {
    let h = Handle(x as u32);
    let d = before.spec_fwd(h);
    &&& forall|j: int|
        0 <= j < before.spec_size(h) && j != 6 && !(8 <= j < 12) ==> #[trigger] now@[d + j] == before@[x + j]
    &&& now.spec_flags(Handle(d as u32)) == before.spec_flags(h) & !FLAG_MARK
    &&& now.spec_fwd(Handle(d as u32)) == NULL_ADDR
}

/// The moving pass over `before`, having dealt with the blocks of the walk
/// below `at`: each marked one has landed, and nothing from `at` up has
/// changed.
pub open spec fn moving(before: Heap, now: Heap, end: int, at: int) -> bool {
    let w = walk_stop(before, 0, end);
    &&& now@.len() == before@.len()
    &&& forall|j: int| at <= j < before@.len() ==> #[trigger] now@[j] == before@[j]
    &&& forall|x: int| #[trigger]
        walked(before, 0, w, end, x) && x < at && before.spec_flag(Handle(x as u32), FLAG_MARK) ==> landed(
            before,
            now,
            x,
        )
}

/// Stepping past a block the pass leaves alone.
proof fn lemma_moving_skip(before: Heap, now: Heap, end: int, x: int)
    requires
        moving(before, now, end, x),
        end <= before.cap(),
        walked(before, 0, walk_stop(before, 0, end), end, x),
        !before.spec_flag(Handle(x as u32), FLAG_MARK),
    ensures
        moving(before, now, end, x + before.spec_size(Handle(x as u32))),
{
    let w = walk_stop(before, 0, end);
    lemma_reaches_stop(before, 0, end);
    assert forall|y: int| #[trigger]
        walked(before, 0, w, end, y) && y < x + before.spec_size(Handle(x as u32)) && before.spec_flag(
            Handle(y as u32),
            FLAG_MARK,
        ) implies landed(before, now, y) by {
        if y > x {
            lemma_walked_apart(before, 0, w, end, x, y);
        }
    }
}

/// Copying the marked block at `x` down to its forwarding address, then
/// clearing the copy's mark and forwarding address, lands it without
/// disturbing the blocks landed before it.
#[verifier::spinoff_prover]
proof fn lemma_moving_step(before: Heap, now: Heap, r1: Heap, r2: Heap, r3: Heap, end: int, x: int)
    requires
        moving(before, now, end, x),
        end <= before.cap(),
        sliding(before, end),
        walked(before, 0, walk_stop(before, 0, end), end, x),
        before.spec_flag(Handle(x as u32), FLAG_MARK),
        ({
            let d = before.spec_fwd(Handle(x as u32));
            let size = before.spec_size(Handle(x as u32));
            &&& d == x ==> r1 == now
            &&& d != x ==> crate::heap::same_outside(r1@, now@, d, d + size) && forall|j: int|
                0 <= j < size ==> #[trigger] r1@[d + j] == now@[x + j]
            &&& r2@ == r1@.update(d + 6, r1.spec_flags(Handle(d as u32)) & !FLAG_MARK)
            &&& crate::heap::same_outside(r3@, r2@, d + 8, d + 12)
            &&& r3.spec_fwd(Handle(d as u32)) == NULL_ADDR
        }),
    ensures
        moving(before, r3, end, x + before.spec_size(Handle(x as u32))),
{
    let w = walk_stop(before, 0, end);
    let hx = Handle(x as u32);
    let d = before.spec_fwd(hx);
    let size = before.spec_size(hx);
    lemma_reaches_stop(before, 0, end);
    lemma_walked_block(before, 0, w, end, x);
    assert(d % 16 == 0 && d <= x);
    // What the copy reads is the block as it was.
    assert forall|j: int| 0 <= j < size implies #[trigger] r1@[d + j] == before@[x + j] by {
        if d != x {
            assert(r1@[d + j] == now@[x + j]);
        }
        assert(now@[x + j] == before@[x + j]);
    }
    assert(r1.spec_flags(Handle(d as u32)) == before.spec_flags(hx)) by {
        assert(r1@[d + 6] == before@[x + 6]);
    }
    assert forall|j: int| x + size <= j < before@.len() implies #[trigger] r3@[j] == before@[j] by {
        assert(r3@[j] == r2@[j]);
        assert(r2@[j] == r1@[j]);
        assert(r1@[j] == now@[j]);
    }
    assert(landed(before, r3, x)) by {
        assert forall|j: int| 0 <= j < size && j != 6 && !(8 <= j < 12) implies #[trigger] r3@[d + j] == before@[x
            + j] by {
            assert(r3@[d + j] == r2@[d + j]);
            assert(r2@[d + j] == r1@[d + j]);
        }
        assert(r3@[d + 6] == r2@[d + 6]);
        assert(Handle(d as u32).0 == d);
    }
    assert forall|y: int| #[trigger]
        walked(before, 0, w, end, y) && y < x + size && before.spec_flag(Handle(y as u32), FLAG_MARK) implies landed(
        before,
        r3,
        y,
    ) by {
        if y != x {
            if y > x {
                lemma_walked_apart(before, 0, w, end, x, y);
            }
            assert(y < x);
            let hy = Handle(y as u32);
            let dy = before.spec_fwd(hy);
            let sy = before.spec_size(hy);
            assert(dy + sy <= d);
            assert(landed(before, now, y));
            assert forall|j: int| dy <= j < dy + sy implies #[trigger] r3@[j] == now@[j] by {
                assert(r3@[j] == r2@[j]);
                assert(r2@[j] == r1@[j]);
            }
            lemma_walked_block(before, 0, w, end, y);
            assert(r3@[dy + 6] == now@[dy + 6]);
            assert(r3@[dy + 8] == now@[dy + 8] && r3@[dy + 9] == now@[dy + 9] && r3@[dy + 10] == now@[dy + 10]
                && r3@[dy + 11] == now@[dy + 11]);
            assert forall|j: int| 0 <= j < sy && j != 6 && !(8 <= j < 12) implies #[trigger] r3@[dy + j] == before@[y
                + j] by {
                assert(r3@[dy + j] == now@[dy + j]);
            }
        }
    }
}

/// Recording forwarding addresses in `before`, up to `at`, has changed
/// nothing but forwarding-address bytes of blocks of the walk, and nothing
/// from `at` up.
pub open spec fn forwarding(before: Heap, now: Heap, end: int, at: int) -> bool {
    let w = walk_stop(before, 0, end);
    &&& now@.len() == before@.len()
    &&& forall|j: int| at <= j < before@.len() ==> #[trigger] now@[j] == before@[j]
    &&& forall|x: int, j: int|
        #![trigger walked(before, 0, w, end, x), now@[j]]
        walked(before, 0, w, end, x) && x <= j < x + before.spec_size(Handle(x as u32)) && !(x + 8 <= j < x + 12)
            ==> now@[j] == before@[j]
}

/// Recording the forwarding address of the block of the walk at `x`, or
/// not, moves the forwarding pass past it.
proof fn lemma_forwarding_block(before: Heap, pre: Heap, now: Heap, end: int, x: int)
    requires
        forwarding(before, pre, end, x),
        end <= before.cap(),
        walked(before, 0, walk_stop(before, 0, end), end, x),
        crate::heap::same_outside(now@, pre@, x + 8, x + 12),
    ensures
        forwarding(before, now, end, x + before.spec_size(Handle(x as u32))),
{
    reveal(forwarding);
    let w = walk_stop(before, 0, end);
    lemma_reaches_stop(before, 0, end);
    lemma_walked_block(before, 0, w, end, x);
    assert forall|y: int, j: int|
        #![trigger walked(before, 0, w, end, y), now@[j]]
        walked(before, 0, w, end, y) && y <= j < y + before.spec_size(Handle(y as u32)) && !(y + 8 <= j < y + 12)
            implies now@[j] == before@[j] by {
        lemma_walked_block(before, 0, w, end, y);
        if y < x {
            lemma_walked_apart(before, 0, w, end, y, x);
        } else if y > x {
            lemma_walked_apart(before, 0, w, end, x, y);
        }
        assert(now@[j] == pre@[j]);
    }
}

/// Two heaps of one size whose blocks along a walk, and the header where it
/// stops, give the same sizes walk alike.
proof fn lemma_walk_same(a: Heap, b: Heap, at: int, end: int)
    requires
        a.cap() == b.cap(),
        forall|x: int| #[trigger]
            walked(a, at, walk_stop(a, at, end), end, x) ==> b.spec_size(Handle(x as u32)) == a.spec_size(
                Handle(x as u32),
            ),
        walk_stop(a, at, end) + 16 <= a.cap() ==> b.spec_size(Handle(walk_stop(a, at, end) as u32)) == a.spec_size(
            Handle(walk_stop(a, at, end) as u32),
        ),
    ensures
        walk_stop(b, at, end) == walk_stop(a, at, end),
        forall|x: int| #[trigger]
            walked(b, at, walk_stop(a, at, end), end, x) == walked(a, at, walk_stop(a, at, end), end, x),
    decreases end - at,
{
    let w = walk_stop(a, at, end);
    if at < end && step_ok(a, at, end) {
        let s = a.spec_size(Handle(at as u32));
        lemma_reaches_stop(a, at + s, end);
        assert(walked(a, at, w, end, at));
        assert forall|x: int| #[trigger] walked(a, at + s, walk_stop(a, at + s, end), end, x) implies b.spec_size(
            Handle(x as u32),
        ) == a.spec_size(Handle(x as u32)) by {
            assert(walked(a, at, w, end, x));
        }
        lemma_walk_same(a, b, at + s, end);
        assert forall|x: int| #[trigger] walked(b, at, w, end, x) == walked(a, at, w, end, x) by {
            if x != at {
                assert(walked(b, at + s, w, end, x) == walked(a, at + s, w, end, x));
            }
        }
    }
}

/// Where the walk of `[at, end)` has reached `x`: the total size of the
/// blocks it has stepped over that are reachable from `roots`. A compacting
/// collection packs the reachable objects in address order from zero, so
/// this is where the one at `x` lands.
pub open spec fn packed(heap: Heap, roots: Seq<Handle>, at: int, x: int, end: int) -> int
    decreases end - at,
{
    if at >= x || !step_ok(heap, at, end) {
        0
    } else {
        let s = heap.spec_size(Handle(at as u32));
        (if reachable(heap, roots, Handle(at as u32)) {
            s
        } else {
            0
        }) + packed(heap, roots, at + s, x, end)
    }
}

/// Where a reference to `c` points after a compacting collection: nowhere
/// if it is null, and to where the object it names was packed otherwise.
pub open spec fn repointed(heap: Heap, roots: Seq<Handle>, end: int, c: int) -> int {
    if c == NULL_ADDR {
        c
    } else {
        packed(heap, roots, 0, c, end)
    }
}

/// A slide over a heap marked exactly where `heap` is reachable from
/// `roots` gives each marked block, and ends at, the cursor's start plus
/// what [`packed`] counts; starting aligned, it stays aligned.
proof fn lemma_slid_packed(
    heap: Heap,
    roots: Seq<Handle>,
    before: Heap,
    after: Heap,
    at: int,
    stop: int,
    end: int,
    dest: int,
)
    requires
        slid(before, after, at, stop, end, dest),
        heap.cap() == before.cap(),
        dest % 16 == 0,
        forall|y: int| #[trigger]
            walked(before, at, stop, end, y) ==> heap.spec_size(Handle(y as u32)) == before.spec_size(Handle(y as u32))
                && (before.spec_flag(Handle(y as u32), FLAG_MARK) == reachable(heap, roots, Handle(y as u32))),
    ensures
        forall|x: int| #[trigger]
            walked(before, at, stop, end, x) && before.spec_flag(Handle(x as u32), FLAG_MARK) ==> after.spec_fwd(
                Handle(x as u32),
            ) == dest + packed(heap, roots, at, x, end) && after.spec_fwd(Handle(x as u32)) % 16 == 0,
        slid_dest(before, at, stop, end, dest) == dest + packed(heap, roots, at, stop, end),
    decreases end - at,
{
    if at < stop {
        let h = Handle(at as u32);
        let s = before.spec_size(h);
        let m = before.spec_flag(h, FLAG_MARK);
        let d2 = if m {
            dest + s
        } else {
            dest
        };
        assert(walked(before, at, stop, end, at));
        assert forall|y: int| #[trigger] walked(before, at + s, stop, end, y) implies heap.spec_size(Handle(y as u32))
            == before.spec_size(Handle(y as u32)) && (before.spec_flag(Handle(y as u32), FLAG_MARK) == reachable(
            heap,
            roots,
            Handle(y as u32),
        )) by {
            assert(walked(before, at, stop, end, y));
        }
        lemma_slid_packed(heap, roots, before, after, at + s, stop, end, d2);
        assert forall|x: int| #[trigger]
            walked(before, at, stop, end, x) && before.spec_flag(Handle(x as u32), FLAG_MARK) implies after.spec_fwd(
            Handle(x as u32),
        ) == dest + packed(heap, roots, at, x, end) && after.spec_fwd(Handle(x as u32)) % 16 == 0 by {
            if x != at {
                lemma_walked_ge(before, at + s, stop, end, x);
                assert(walked(before, at + s, stop, end, x));
            }
        }
    }
}

/// A walk from an aligned place stays aligned.
proof fn lemma_reaches_aligned(heap: Heap, at: int, stop: int, end: int)
    requires
        reaches(heap, at, stop, end),
        at % 16 == 0,
    ensures
        stop % 16 == 0,
    decreases end - at,
{
    if at < stop {
        lemma_reaches_aligned(heap, at + heap.spec_size(Handle(at as u32)), stop, end);
    }
}

/// What a compacting collection needs of the heap for its promise: marking
/// can trace it from the roots, the walk of `[0, end)` carries no mark yet,
/// every reachable object is one of its blocks, and every root, like every
/// reference a reachable object holds, is null or one of its blocks.
pub open spec fn compactable(heap: Heap, end: int, roots: Seq<Handle>) -> bool {
    let w = walk_stop(heap, 0, end);
    &&& trace_ready(heap, roots)
    &&& forall|x: int| #[trigger] walked(heap, 0, w, end, x) ==> !heap.spec_flag(Handle(x as u32), FLAG_MARK)
    &&& forall|g: Handle| #[trigger] reachable(heap, roots, g) ==> walked(heap, 0, w, end, g.0 as int)
    &&& forall|k: int| 0 <= k < roots.len() ==> named(heap, end, #[trigger] roots[k].0 as int)
    &&& forall|g: Handle, i: int|
        #![trigger reachable(heap, roots, g), heap.spec_field(g, i)]
        reachable(heap, roots, g) && 0 <= i < heap.spec_nrefs(g) ==> named(heap, end, heap.spec_field(g, i))
}

/// `b` walks `[0, end)` exactly as `a` does.
pub open spec fn walks_alike(a: Heap, b: Heap, end: int) -> bool {
    let w = walk_stop(a, 0, end);
    &&& b.cap() == a.cap()
    &&& walk_stop(b, 0, end) == w
    &&& forall|x: int| #[trigger] walked(b, 0, w, end, x) == walked(a, 0, w, end, x)
}

/// A block of the walk is a well-formed object.
proof fn lemma_walked_in_bounds(heap: Heap, end: int, x: int)
    requires
        walked(heap, 0, walk_stop(heap, 0, end), end, x),
        end <= heap.cap(),
    ensures
        heap.spec_in_bounds(Handle(x as u32)),
        step_ok(heap, x, end),
        x % 16 == 0,
        x + heap.spec_size(Handle(x as u32)) <= walk_stop(heap, 0, end),
        walk_stop(heap, 0, end) <= end,
{
    lemma_reaches_stop(heap, 0, end);
    lemma_walked_block(heap, 0, walk_stop(heap, 0, end), end, x);
    lemma_walk_stop_le(heap, 0, end);
}

/// A walk of `[at, end)` stops by `end`.
proof fn lemma_walk_stop_le(heap: Heap, at: int, end: int)
    requires
        at <= end,
    ensures
        walk_stop(heap, at, end) <= end,
    decreases end - at,
{
    if at < end && step_ok(heap, at, end) {
        lemma_walk_stop_le(heap, at + heap.spec_size(Handle(at as u32)), end);
    }
}

/// A byte marking changed is the flag byte of a reachable object, which
/// is a block of the walk.
proof fn lemma_flag_changed(h0: Heap, h1: Heap, roots: Seq<Handle>, end: int, j: int)
    requires
        h0.wf(),
        compactable(h0, end, roots),
        flags_only(h0, roots, h1),
        0 <= j < h0@.len(),
        h1@[j] != h0@[j],
    ensures
        j % 16 == 6,
        walked(h0, 0, walk_stop(h0, 0, end), end, j - 6),
        reachable(h0, roots, Handle((j - 6) as u32)),
        Handle((j - 6) as u32).0 == j - 6,
{
    let g = Handle((j - 6) as u32);
    assert(reachable(h0, roots, g));
    assert(g.0 == j - 6);
}

/// Marking a compactable heap walks it as before, changes nothing but the
/// flag bytes of reachable blocks, and marks exactly those.
#[verifier::spinoff_prover]
proof fn lemma_compact_marked(h0: Heap, h1: Heap, roots: Seq<Handle>, end: int)
    requires
        h0.wf(),
        compactable(h0, end, roots),
        end <= h0.cap(),
        flags_only(h0, roots, h1),
        forall|g: Handle| #[trigger] reachable(h0, roots, g) ==> h1.spec_flag(g, FLAG_MARK),
    ensures
        walks_alike(h0, h1, end),
        forall|x: int| #[trigger]
            walked(h0, 0, walk_stop(h0, 0, end), end, x) ==> h1.spec_size(Handle(x as u32)) == h0.spec_size(
                Handle(x as u32),
            ),
        forall|j: int| walk_stop(h0, 0, end) <= j < h0@.len() ==> #[trigger] h1@[j] == h0@[j],
        forall|x: int, j: int|
            #![trigger walked(h0, 0, walk_stop(h0, 0, end), end, x), h1@[j]]
            walked(h0, 0, walk_stop(h0, 0, end), end, x) && x <= j < x + h0.spec_size(Handle(x as u32)) && j != x + 6
                ==> h1@[j] == h0@[j],
        forall|x: int| #[trigger]
            walked(h0, 0, walk_stop(h0, 0, end), end, x) ==> (h1.spec_flag(Handle(x as u32), FLAG_MARK) == reachable(
                h0,
                roots,
                Handle(x as u32),
            )) && h1.spec_flags(Handle(x as u32)) & !FLAG_MARK == h0.spec_flags(Handle(x as u32)),
{
    let w = walk_stop(h0, 0, end);
    lemma_reaches_stop(h0, 0, end);
    lemma_reaches_aligned(h0, 0, w, end);
    assert forall|x: int| #[trigger] walked(h0, 0, w, end, x) implies h1.spec_size(Handle(x as u32)) == h0.spec_size(
        Handle(x as u32),
    ) by {
        lemma_walked_in_bounds(h0, end, x);
        lemma_flags_only_header(h0, roots, h1, Handle(x as u32));
    }
    if w + 16 <= h0.cap() {
        lemma_reaches_le(h0, 0, w, end);
        assert(Handle(w as u32).0 == w);
        lemma_flags_only_header(h0, roots, h1, Handle(w as u32));
    }
    lemma_walk_same(h0, h1, 0, end);
    assert forall|j: int| w <= j < h0@.len() implies #[trigger] h1@[j] == h0@[j] by {
        if h1@[j] != h0@[j] {
            lemma_flag_changed(h0, h1, roots, end, j);
            lemma_walked_in_bounds(h0, end, j - 6);
        }
    }
    assert forall|x: int, j: int|
        #![trigger walked(h0, 0, w, end, x), h1@[j]]
        walked(h0, 0, w, end, x) && x <= j < x + h0.spec_size(Handle(x as u32)) && j != x + 6 implies h1@[j]
        == h0@[j] by {
        lemma_walked_in_bounds(h0, end, x);
        if h1@[j] != h0@[j] {
            let y = j - 6;
            lemma_flag_changed(h0, h1, roots, end, j);
            lemma_walked_in_bounds(h0, end, y);
            if y < x {
                lemma_walked_apart(h0, 0, w, end, y, x);
            } else if y > x {
                lemma_walked_apart(h0, 0, w, end, x, y);
            }
        }
    }
    assert forall|x: int| #[trigger] walked(h0, 0, w, end, x) implies (h1.spec_flag(Handle(x as u32), FLAG_MARK)
        == reachable(h0, roots, Handle(x as u32))) && h1.spec_flags(Handle(x as u32)) & !FLAG_MARK == h0.spec_flags(
        Handle(x as u32),
    ) by {
        lemma_walked_in_bounds(h0, end, x);
        let f0 = h0.spec_flags(Handle(x as u32));
        let f1 = h1.spec_flags(Handle(x as u32));
        assert(f0 & 1u8 == 0);
        assert(Handle(x as u32).0 == x);
        if f1 != f0 {
            assert(reachable(h0, roots, Handle(x as u32)));
            assert(f1 == f0 | 1u8);
            assert((f0 | 1u8) & !1u8 == f0 && (f0 | 1u8) & 1u8 != 0) by (bit_vector)
                requires
                    f0 & 1u8 == 0,
            ;
        } else {
            assert(f0 & !1u8 == f0) by (bit_vector)
                requires
                    f0 & 1u8 == 0,
            ;
            if reachable(h0, roots, Handle(x as u32)) {
                assert(h1.spec_flag(Handle(x as u32), FLAG_MARK));
            }
        }
    }
}

/// Recording forwarding addresses after marking a compactable heap walks
/// it as before and changes nothing but forwarding-address bytes; every
/// marked block is headed for the place [`packed`] gives it, and the
/// addresses slide the survivors down.
#[verifier::spinoff_prover]
proof fn lemma_compact_forwarded(h0: Heap, h1: Heap, h2: Heap, roots: Seq<Handle>, end: int)
    requires
        h0.wf(),
        0 <= end,
        end <= h0.cap(),
        walks_alike(h0, h1, end),
        forall|x: int| #[trigger]
            walked(h0, 0, walk_stop(h0, 0, end), end, x) ==> (h1.spec_flag(Handle(x as u32), FLAG_MARK) == reachable(
                h0,
                roots,
                Handle(x as u32),
            )),
        forall|x: int| #[trigger]
            walked(h0, 0, walk_stop(h0, 0, end), end, x) ==> h1.spec_size(Handle(x as u32)) == h0.spec_size(
                Handle(x as u32),
            ),
        slid(h1, h2, 0, walk_stop(h1, 0, end), end, 0),
        forwarding(h1, h2, end, walk_stop(h1, 0, end)),
    ensures
        walks_alike(h0, h2, end),
        forall|j: int| walk_stop(h0, 0, end) <= j < h0@.len() ==> #[trigger] h2@[j] == h1@[j],
        forall|x: int, j: int|
            #![trigger walked(h0, 0, walk_stop(h0, 0, end), end, x), h2@[j]]
            walked(h0, 0, walk_stop(h0, 0, end), end, x) && x <= j < x + h0.spec_size(Handle(x as u32)) && !(x + 8 <= j
                < x + 12) ==> h2@[j] == h1@[j],
        forall|x: int| #[trigger]
            walked(h0, 0, walk_stop(h0, 0, end), end, x) && h1.spec_flag(Handle(x as u32), FLAG_MARK) ==> h2.spec_fwd(
                Handle(x as u32),
            ) == packed(h0, roots, 0, x, end),
        sliding(h2, end),
        slid_dest(h1, 0, walk_stop(h1, 0, end), end, 0) == packed(h0, roots, 0, walk_stop(h0, 0, end), end),
{
    reveal(forwarding);
    let w = walk_stop(h0, 0, end);
    lemma_reaches_stop(h0, 0, end);
    lemma_reaches_aligned(h0, 0, w, end);
    lemma_walk_stop_le(h0, 0, end);
    assert forall|x: int| #[trigger] walked(h1, 0, w, end, x) implies h2.spec_size(Handle(x as u32)) == h1.spec_size(
        Handle(x as u32),
    ) by {
        assert(walked(h0, 0, w, end, x));
        lemma_walked_in_bounds(h0, end, x);
        assert(h2@[x] == h1@[x] && h2@[x + 1] == h1@[x + 1] && h2@[x + 2] == h1@[x + 2] && h2@[x + 3] == h1@[x
            + 3]);
    }
    if w + 16 <= h0.cap() {
        assert(h2@[w] == h1@[w] && h2@[w + 1] == h1@[w + 1] && h2@[w + 2] == h1@[w + 2] && h2@[w + 3] == h1@[w + 3]);
    }
    lemma_walk_same(h1, h2, 0, end);
    assert forall|y: int| #[trigger] walked(h1, 0, w, end, y) implies h0.spec_size(Handle(y as u32)) == h1.spec_size(
        Handle(y as u32),
    ) && (h1.spec_flag(Handle(y as u32), FLAG_MARK) == reachable(h0, roots, Handle(y as u32))) by {
        assert(walked(h0, 0, w, end, y));
    }
    lemma_slid_packed(h0, roots, h1, h2, 0, w, end, 0);
    law_forwarding_slides_down(h1, h2, end);
    assert forall|x: int| #[trigger]
        walked(h0, 0, w, end, x) && h1.spec_flag(Handle(x as u32), FLAG_MARK) implies h2.spec_fwd(Handle(x as u32))
        == packed(h0, roots, 0, x, end) by {
        assert(walked(h1, 0, w, end, x));
    }
    assert forall|x: int, j: int|
        #![trigger walked(h0, 0, w, end, x), h2@[j]]
        walked(h0, 0, w, end, x) && x <= j < x + h0.spec_size(Handle(x as u32)) && !(x + 8 <= j < x + 12) implies h2@[j]
        == h1@[j] by {
        assert(walked(h1, 0, w, end, x));
        assert(h1.spec_size(Handle(x as u32)) == h0.spec_size(Handle(x as u32)));
    }
    assert forall|x: int| #[trigger]
        walked(h2, 0, w, end, x) && h2.spec_flag(Handle(x as u32), FLAG_MARK) implies h2.spec_fwd(Handle(x as u32)) % 16
        == 0 && h2.spec_fwd(Handle(x as u32)) <= x by {
        assert(walked(h0, 0, w, end, x));
        assert(walked(h1, 0, w, end, x));
        lemma_walked_in_bounds(h0, end, x);
        assert(h2@[x + 6] == h1@[x + 6]);
    }
    assert forall|g: int, h: int|
        #[trigger] walked(h2, 0, w, end, g) && #[trigger] walked(h2, 0, w, end, h) && g < h && h2.spec_flag(
            Handle(g as u32),
            FLAG_MARK,
        ) && h2.spec_flag(Handle(h as u32), FLAG_MARK) implies h2.spec_fwd(Handle(g as u32)) + h2.spec_size(
        Handle(g as u32),
    ) <= h2.spec_fwd(Handle(h as u32)) by {
        assert(walked(h1, 0, w, end, g) && walked(h1, 0, w, end, h));
        assert(walked(h0, 0, w, end, g) && walked(h0, 0, w, end, h));
        lemma_walked_in_bounds(h0, end, g);
        lemma_walked_in_bounds(h0, end, h);
        assert(h2@[g + 6] == h1@[g + 6]);
        assert(h2@[h + 6] == h1@[h + 6]);
    }
}

/// After marking and recording forwarding addresses on a compactable heap,
/// the reference pass has what it needs: the marked blocks are the
/// reachable objects, their slots lie inside them and still hold what they
/// held, each null or naming a block of the walk, and so does each root.
#[verifier::spinoff_prover]
proof fn lemma_compact_refs(h0: Heap, h1: Heap, h2: Heap, roots: Seq<Handle>, end: int)
    requires
        h0.wf(),
        0 <= end <= h0.cap(),
        compactable(h0, end, roots),
        walks_alike(h0, h2, end),
        forall|x: int, j: int|
            #![trigger walked(h0, 0, walk_stop(h0, 0, end), end, x), h1@[j]]
            walked(h0, 0, walk_stop(h0, 0, end), end, x) && x <= j < x + h0.spec_size(Handle(x as u32)) && j != x + 6
                ==> h1@[j] == h0@[j],
        forall|x: int, j: int|
            #![trigger walked(h0, 0, walk_stop(h0, 0, end), end, x), h2@[j]]
            walked(h0, 0, walk_stop(h0, 0, end), end, x) && x <= j < x + h0.spec_size(Handle(x as u32)) && !(x + 8 <= j
                < x + 12) ==> h2@[j] == h1@[j],
        forall|x: int| #[trigger]
            walked(h0, 0, walk_stop(h0, 0, end), end, x) ==> (h1.spec_flag(Handle(x as u32), FLAG_MARK) == reachable(
                h0,
                roots,
                Handle(x as u32),
            )),
    ensures
        refs_walked(h2, end, roots),
        forall|x: int, i: int|
            #![trigger walked(h0, 0, walk_stop(h0, 0, end), end, x), h2.spec_field(Handle(x as u32), i)]
            walked(h0, 0, walk_stop(h0, 0, end), end, x) && reachable(h0, roots, Handle(x as u32)) && 0 <= i
                < h0.spec_nrefs(Handle(x as u32)) ==> h2.spec_field(Handle(x as u32), i) == h0.spec_field(
                Handle(x as u32),
                i,
            ),
        forall|x: int| #[trigger]
            walked(h0, 0, walk_stop(h0, 0, end), end, x) ==> h2.spec_flag(Handle(x as u32), FLAG_MARK) == reachable(
                h0,
                roots,
                Handle(x as u32),
            ) && h2.spec_nrefs(Handle(x as u32)) == h0.spec_nrefs(Handle(x as u32)) && h2.spec_size(Handle(x as u32))
                == h0.spec_size(Handle(x as u32)),
{
    let w = walk_stop(h0, 0, end);
    assert forall|x: int| #[trigger]
        walked(h0, 0, w, end, x) implies h2.spec_flag(Handle(x as u32), FLAG_MARK) == reachable(
        h0,
        roots,
        Handle(x as u32),
    ) && h2.spec_nrefs(Handle(x as u32)) == h0.spec_nrefs(Handle(x as u32)) && h2.spec_size(Handle(x as u32))
        == h0.spec_size(Handle(x as u32)) by {
        lemma_walked_in_bounds(h0, end, x);
        assert(h2@[x + 6] == h1@[x + 6]);
        assert(h2@[x] == h0@[x] && h2@[x + 1] == h0@[x + 1] && h2@[x + 2] == h0@[x + 2] && h2@[x + 3] == h0@[x + 3]);
        assert(h1@[x] == h0@[x] && h1@[x + 1] == h0@[x + 1] && h1@[x + 2] == h0@[x + 2] && h1@[x + 3] == h0@[x + 3]);
        assert(h2@[x + 4] == h1@[x + 4] && h2@[x + 5] == h1@[x + 5]);
        assert(h1@[x + 4] == h0@[x + 4] && h1@[x + 5] == h0@[x + 5]);
    }
    assert forall|x: int, i: int|
        #![trigger walked(h0, 0, w, end, x), h2.spec_field(Handle(x as u32), i)]
        walked(h0, 0, w, end, x) && reachable(h0, roots, Handle(x as u32)) && 0 <= i < h0.spec_nrefs(Handle(x as u32))
            implies h2.spec_field(Handle(x as u32), i) == h0.spec_field(Handle(x as u32), i) by {
        lemma_walked_in_bounds(h0, end, x);
        assert(16 + 4 * h0.spec_nrefs(Handle(x as u32)) <= h0.spec_size(Handle(x as u32)));
        assert(Handle(x as u32).0 == x);
        let o = x + 16 + 4 * i;
        assert(h2@[o] == h1@[o] && h2@[o + 1] == h1@[o + 1] && h2@[o + 2] == h1@[o + 2] && h2@[o + 3] == h1@[o + 3]);
        assert(h1@[o] == h0@[o] && h1@[o + 1] == h0@[o + 1] && h1@[o + 2] == h0@[o + 2] && h1@[o + 3] == h0@[o + 3]);
    }
    assert forall|x: int| #[trigger]
        walked(h2, 0, w, end, x) && h2.spec_flag(Handle(x as u32), FLAG_MARK) implies 16 + 4 * h2.spec_nrefs(
        Handle(x as u32),
    ) <= h2.spec_size(Handle(x as u32)) by {
        assert(walked(h0, 0, w, end, x));
        assert(reachable(h0, roots, Handle(x as u32)));
    }
    assert forall|x: int, i: int|
        #![trigger walked(h2, 0, w, end, x), h2.spec_field(Handle(x as u32), i)]
        walked(h2, 0, w, end, x) && h2.spec_flag(Handle(x as u32), FLAG_MARK) && 0 <= i < h2.spec_nrefs(
            Handle(x as u32),
        ) implies named(h2, end, h2.spec_field(Handle(x as u32), i)) by {
        assert(walked(h0, 0, w, end, x));
        assert(reachable(h0, roots, Handle(x as u32)));
        assert(h2.spec_field(Handle(x as u32), i) == h0.spec_field(Handle(x as u32), i));
        assert(named(h0, end, h0.spec_field(Handle(x as u32), i)));
    }
    assert forall|k: int| 0 <= k < roots.len() implies named(h2, end, #[trigger] roots[k].0 as int) by {
        assert(named(h0, end, roots[k].0 as int));
    }
}

/// The reference pass changes no header, so the heap walks as before and
/// its forwarding addresses still slide the survivors down.
#[verifier::spinoff_prover]
proof fn lemma_compact_updated(h0: Heap, h2: Heap, h3: Heap, end: int)
    requires
        h0.wf(),
        0 <= end <= h0.cap(),
        walks_alike(h0, h2, end),
        sliding(h2, end),
        updating(h2, h3, end, walk_stop(h2, 0, end)),
    ensures
        walks_alike(h0, h3, end),
        sliding(h3, end),
        forall|x: int, j: int|
            #![trigger walked(h0, 0, walk_stop(h0, 0, end), end, x), h3@[j]]
            walked(h0, 0, walk_stop(h0, 0, end), end, x) && x <= j < x + 16 ==> h3@[j] == h2@[j],
{
    let w = walk_stop(h0, 0, end);
    lemma_reaches_stop(h0, 0, end);
    lemma_walk_stop_le(h0, 0, end);
    assert forall|x: int, j: int|
        #![trigger walked(h0, 0, w, end, x), h3@[j]]
        walked(h0, 0, w, end, x) && x <= j < x + 16 implies h3@[j] == h2@[j] by {
        assert(walked(h2, 0, w, end, x));
        lemma_walked_in_bounds(h2, end, x);
        assert(!in_slots(h2, x, j));
    }
    assert forall|x: int| #[trigger] walked(h2, 0, w, end, x) implies h3.spec_size(Handle(x as u32)) == h2.spec_size(
        Handle(x as u32),
    ) by {
        assert(walked(h0, 0, w, end, x));
        lemma_walked_in_bounds(h2, end, x);
        assert(h3@[x] == h2@[x] && h3@[x + 1] == h2@[x + 1] && h3@[x + 2] == h2@[x + 2] && h3@[x + 3] == h2@[x + 3]);
    }
    lemma_walk_same(h2, h3, 0, end);
    assert forall|x: int| #[trigger]
        walked(h3, 0, w, end, x) && h3.spec_flag(Handle(x as u32), FLAG_MARK) implies h3.spec_fwd(Handle(x as u32)) % 16
        == 0 && h3.spec_fwd(Handle(x as u32)) <= x by {
        assert(walked(h0, 0, w, end, x));
        assert(walked(h2, 0, w, end, x));
        lemma_walked_in_bounds(h2, end, x);
        assert(Handle(x as u32).0 == x);
        assert(h3@[x + 6] == h2@[x + 6]);
        assert(h3@[x + 8] == h2@[x + 8] && h3@[x + 9] == h2@[x + 9] && h3@[x + 10] == h2@[x + 10] && h3@[x + 11]
            == h2@[x + 11]);
        assert(walked(h2, 0, w, end, x));
    }
    assert forall|g: int, h: int|
        #[trigger] walked(h3, 0, w, end, g) && #[trigger] walked(h3, 0, w, end, h) && g < h && h3.spec_flag(
            Handle(g as u32),
            FLAG_MARK,
        ) && h3.spec_flag(Handle(h as u32), FLAG_MARK) implies h3.spec_fwd(Handle(g as u32)) + h3.spec_size(
        Handle(g as u32),
    ) <= h3.spec_fwd(Handle(h as u32)) by {
        assert(walked(h0, 0, w, end, g) && walked(h0, 0, w, end, h));
        assert(walked(h2, 0, w, end, g) && walked(h2, 0, w, end, h));
        lemma_walked_in_bounds(h2, end, g);
        lemma_walked_in_bounds(h2, end, h);
        assert(Handle(g as u32).0 == g && Handle(h as u32).0 == h);
        assert(h3@[g] == h2@[g] && h3@[g + 1] == h2@[g + 1] && h3@[g + 2] == h2@[g + 2] && h3@[g + 3] == h2@[g + 3]);
        assert(h3@[g + 6] == h2@[g + 6] && h3@[h + 6] == h2@[h + 6]);
        assert(h3@[g + 8] == h2@[g + 8] && h3@[g + 9] == h2@[g + 9] && h3@[g + 10] == h2@[g + 10] && h3@[g + 11]
            == h2@[g + 11]);
        assert(h3@[h + 8] == h2@[h + 8] && h3@[h + 9] == h2@[h + 9] && h3@[h + 10] == h2@[h + 10] && h3@[h + 11]
            == h2@[h + 11]);
    }
}

/// Where a compacting collection leaves the object at `g` of `before`:
/// at `d`, with every byte as it was but its forwarding address, now null,
/// and its reference slots, each of which points where its target went.
pub open spec fn relocated(before: Heap, roots: Seq<Handle>, end: int, after: Heap, g: Handle, d: int) -> bool {
    let n = before.spec_nrefs(g);
    &&& forall|j: int|
        0 <= j < before.spec_size(g) && !(8 <= j < 12) && !(16 <= j < 16 + 4 * n) ==> #[trigger] after@[d + j]
            == before@[g.0 + j]
    &&& after.spec_fwd(Handle(d as u32)) == NULL_ADDR
    &&& forall|i: int|
        0 <= i < n ==> #[trigger] after.spec_field(Handle(d as u32), i) == repointed(
            before,
            roots,
            end,
            before.spec_field(g, i),
        )
}

/// One byte of a landed block, other than its flags and forwarding
/// address, reads at its destination as it did.
proof fn lemma_landed_byte(before: Heap, now: Heap, x: int, j: int)
    requires
        landed(before, now, x),
        0 <= j < before.spec_size(Handle(x as u32)),
        j != 6,
        !(8 <= j < 12),
    ensures
        now@[before.spec_fwd(Handle(x as u32)) + j] == before@[x + j],
{
}

/// The four passes over a compactable heap leave each reachable object
/// packed down in place, as [`relocated`] says.
#[verifier::spinoff_prover]
#[verifier::rlimit(30)]
proof fn lemma_compact_object(
    h0: Heap,
    h1: Heap,
    h2: Heap,
    h3: Heap,
    h4: Heap,
    roots: Seq<Handle>,
    end: int,
    g: Handle,
)
    requires
        h0.wf(),
        0 <= end <= h0.cap(),
        compactable(h0, end, roots),
        reachable(h0, roots, g),
        walks_alike(h0, h2, end),
        walks_alike(h0, h3, end),
        forall|x: int, j: int|
            #![trigger walked(h0, 0, walk_stop(h0, 0, end), end, x), h1@[j]]
            walked(h0, 0, walk_stop(h0, 0, end), end, x) && x <= j < x + h0.spec_size(Handle(x as u32)) && j != x + 6
                ==> h1@[j] == h0@[j],
        forall|x: int| #[trigger]
            walked(h0, 0, walk_stop(h0, 0, end), end, x) ==> (h1.spec_flag(Handle(x as u32), FLAG_MARK) == reachable(
                h0,
                roots,
                Handle(x as u32),
            )) && h1.spec_flags(Handle(x as u32)) & !FLAG_MARK == h0.spec_flags(Handle(x as u32)),
        forall|x: int, j: int|
            #![trigger walked(h0, 0, walk_stop(h0, 0, end), end, x), h2@[j]]
            walked(h0, 0, walk_stop(h0, 0, end), end, x) && x <= j < x + h0.spec_size(Handle(x as u32)) && !(x + 8 <= j
                < x + 12) ==> h2@[j] == h1@[j],
        forall|x: int| #[trigger]
            walked(h0, 0, walk_stop(h0, 0, end), end, x) && h1.spec_flag(Handle(x as u32), FLAG_MARK) ==> h2.spec_fwd(
                Handle(x as u32),
            ) == packed(h0, roots, 0, x, end),
        forall|x: int, i: int|
            #![trigger walked(h0, 0, walk_stop(h0, 0, end), end, x), h2.spec_field(Handle(x as u32), i)]
            walked(h0, 0, walk_stop(h0, 0, end), end, x) && reachable(h0, roots, Handle(x as u32)) && 0 <= i
                < h0.spec_nrefs(Handle(x as u32)) ==> h2.spec_field(Handle(x as u32), i) == h0.spec_field(
                Handle(x as u32),
                i,
            ),
        forall|x: int| #[trigger]
            walked(h0, 0, walk_stop(h0, 0, end), end, x) ==> h2.spec_flag(Handle(x as u32), FLAG_MARK) == reachable(
                h0,
                roots,
                Handle(x as u32),
            ) && h2.spec_nrefs(Handle(x as u32)) == h0.spec_nrefs(Handle(x as u32)) && h2.spec_size(Handle(x as u32))
                == h0.spec_size(Handle(x as u32)),
        forall|x: int, j: int|
            #![trigger walked(h0, 0, walk_stop(h0, 0, end), end, x), h3@[j]]
            walked(h0, 0, walk_stop(h0, 0, end), end, x) && x <= j < x + 16 ==> h3@[j] == h2@[j],
        updating(h2, h3, end, walk_stop(h2, 0, end)),
        sliding(h3, end),
        moving(h3, h4, end, walk_stop(h3, 0, end)),
    ensures
        relocated(h0, roots, end, h4, g, packed(h0, roots, 0, g.0 as int, end)),
{
    let w = walk_stop(h0, 0, end);
    let x = g.0 as int;
    assert(walked(h0, 0, w, end, x));
    assert(Handle(x as u32) == g);
    lemma_walked_in_bounds(h0, end, x);
    assert(walked(h2, 0, w, end, x) && walked(h3, 0, w, end, x));
    lemma_walked_in_bounds(h2, end, x);
    let n = h0.spec_nrefs(g);
    let size = h0.spec_size(g);
    assert(16 + 4 * n <= size);
    assert(h2@[x + 6] == h1@[x + 6]);
    assert(h3@[x + 6] == h2@[x + 6]);
    assert(h3@[x + 8] == h2@[x + 8] && h3@[x + 9] == h2@[x + 9] && h3@[x + 10] == h2@[x + 10] && h3@[x + 11]
        == h2@[x + 11]);
    assert(h3@[x] == h2@[x] && h3@[x + 1] == h2@[x + 1] && h3@[x + 2] == h2@[x + 2] && h3@[x + 3] == h2@[x + 3]);
    assert(h3@[x + 4] == h2@[x + 4] && h3@[x + 5] == h2@[x + 5]);
    let d = packed(h0, roots, 0, x, end);
    assert(h3.spec_fwd(g) == d);
    assert(h3.spec_flag(g, FLAG_MARK));
    assert(landed(h3, h4, x));
    assert(h3.spec_size(g) == size);
    assert(h3.spec_nrefs(g) == n);
    assert(0 <= d <= x);
    assert(Handle(d as u32).0 == d);
    assert forall|j: int|
        0 <= j < size && !(8 <= j < 12) && !(16 <= j < 16 + 4 * n) implies #[trigger] h4@[d + j] == h0@[x + j] by {
        if j == 6 {
            assert(h4.spec_flags(Handle(d as u32)) == h3.spec_flags(g) & !FLAG_MARK);
        } else {
            lemma_landed_byte(h3, h4, x, j);
            assert(!in_slots(h2, x, x + j));
            assert(h3@[x + j] == h2@[x + j]);
            assert(h2@[x + j] == h1@[x + j]);
            assert(h1@[x + j] == h0@[x + j]);
        }
    }
    assert forall|i: int| 0 <= i < n implies #[trigger] h4.spec_field(Handle(d as u32), i) == repointed(
        h0,
        roots,
        end,
        h0.spec_field(g, i),
    ) by {
        let o = 16 + 4 * i;
        lemma_landed_byte(h3, h4, x, o);
        lemma_landed_byte(h3, h4, x, o + 1);
        lemma_landed_byte(h3, h4, x, o + 2);
        lemma_landed_byte(h3, h4, x, o + 3);
        assert(h4.spec_field(Handle(d as u32), i) == h3.spec_field(g, i));
        assert(h3.spec_field(g, i) == destined(h2, h2.spec_field(g, i)));
        assert(h2.spec_field(g, i) == h0.spec_field(g, i));
        let c = h0.spec_field(g, i);
        if c != NULL_ADDR {
            assert(named(h0, end, c));
            assert(walked(h0, 0, w, end, c));
            lemma_walked_in_bounds(h0, end, c);
            assert(walked(h2, 0, w, end, c));
            lemma_walked_in_bounds(h2, end, c);
            crate::trace::lemma_slot_child(h0, g, n, i);
            lemma_reach_child(h0, roots, g, Handle(c as u32));
            assert(Handle(c as u32).0 == c);
            assert(h2.spec_flag(Handle(c as u32), FLAG_MARK));
            assert(h1.spec_flag(Handle(c as u32), FLAG_MARK));
        }
    }
}

/// A root of a compactable heap is sent, by the reference pass, to where
/// a compacting collection packs what it names.
proof fn lemma_root_repointed(h0: Heap, h1: Heap, h2: Heap, slots: Seq<Handle>, end: int, k: int)
    requires
        h0.wf(),
        0 <= end <= h0.cap(),
        compactable(h0, end, slots),
        0 <= k < slots.len(),
        walks_alike(h0, h2, end),
        forall|x: int| #[trigger]
            walked(h0, 0, walk_stop(h0, 0, end), end, x) && h1.spec_flag(Handle(x as u32), FLAG_MARK) ==> h2.spec_fwd(
                Handle(x as u32),
            ) == packed(h0, slots, 0, x, end),
        forall|x: int| #[trigger]
            walked(h0, 0, walk_stop(h0, 0, end), end, x) ==> (h1.spec_flag(Handle(x as u32), FLAG_MARK) == reachable(
                h0,
                slots,
                Handle(x as u32),
            )),
        forall|x: int| #[trigger]
            walked(h0, 0, walk_stop(h0, 0, end), end, x) ==> h2.spec_flag(Handle(x as u32), FLAG_MARK) == reachable(
                h0,
                slots,
                Handle(x as u32),
            ),
    ensures
        destined(h2, slots[k].0 as int) == repointed(h0, slots, end, slots[k].0 as int),
{
    let r = slots[k];
    let c = r.0 as int;
    assert(named(h0, end, c));
    if c != NULL_ADDR {
        let w = walk_stop(h0, 0, end);
        lemma_walked_in_bounds(h0, end, c);
        assert(walked(h2, 0, w, end, c));
        lemma_walked_in_bounds(h2, end, c);
        assert(Handle(c as u32) == r);
        assert(slots.contains(r));
        lemma_root_reachable(h0, slots, r);
        assert(h1.spec_flag(r, FLAG_MARK));
    }
}

pub struct MarkCompact {
    heap: Heap,
    roots: Roots,
    stats: GcStats,
    worklist: Vec<Handle>,
    /// One past the last allocated byte.
    top: u32,
    threshold: u32,
    thrashing: u32,
}

impl MarkCompact {
    pub closed spec fn spec_top(&self) -> int {
        self.top as int
    }

    pub closed spec fn spec_threshold(&self) -> u32 {
        self.threshold
    }

    /// Collections in a row that reclaimed almost nothing from a nearly full
    /// heap.
    pub closed spec fn spec_thrashing(&self) -> u32 {
        self.thrashing
    }

    pub fn new(capacity: usize) -> (r: MarkCompact)
        requires
            capacity >= 16,
            capacity < NULL_ADDR,
            capacity % 16 == 0,
        ensures
            r.gc_inv(),
            r.gc_heap().cap() == capacity,
            r.gc_roots().stack().len() == 0,
            r.gc_roots().globals().len() == 0,
            r.gc_used() == 0,
            r.spec_top() == 0,
            r.spec_threshold() == if capacity / 2 < MIN_THRESHOLD {
                (capacity / 2) as u32
            } else {
                MIN_THRESHOLD
            },
    {
        let half = (capacity / 2) as u32;
        MarkCompact {
            heap: Heap::new(capacity),
            roots: Roots::new(),
            stats: GcStats::default(),
            worklist: Vec::new(),
            top: 0,
            threshold: if half < MIN_THRESHOLD {
                half
            } else {
                MIN_THRESHOLD
            },
            thrashing: 0,
        }
    }

    /// One past the last allocated byte.
    pub fn top(&self) -> (r: u32)
        ensures
            r == self.spec_top(),
    {
        self.top
    }

    pub fn is_marked(&self, h: Handle) -> (r: bool)
        requires
            self.gc_inv(),
            self.gc_heap().hdr_in(h),
        ensures
            r == self.gc_heap().spec_flag(h, FLAG_MARK),
    {
        self.heap.is_marked(h)
    }

    /// Where `h` will be moved to, once forwarding addresses are computed.
    pub fn forwarding_address(&self, h: Handle) -> (r: Handle)
        requires
            self.gc_inv(),
            self.gc_heap().hdr_in(h),
        ensures
            r.0 == self.gc_heap().spec_fwd(h),
    {
        self.heap.forward(h)
    }

    /// The size of the block at `at`, if its header describes an aligned
    /// block of at least a header's length that ends at or below `top`.
    fn block_size(&self, at: u32) -> (r: Option<u32>)
        requires
            self.heap.wf(),
            self.top <= self.heap.cap(),
        ensures
            r matches Some(s) ==> {
                &&& at % 16 == 0
                &&& at + 16 <= self.heap.cap()
                &&& s == self.heap.spec_size(Handle(at))
                &&& s >= 16
                &&& s % 16 == 0
                &&& at + s <= self.top
                &&& self.heap.spec_in_bounds(Handle(at))
            },
            r is None ==> !(at % 16 == 0 && at + 16 <= self.heap.cap() && self.heap.spec_size(Handle(at)) >= 16
                && self.heap.spec_size(Handle(at)) % 16 == 0 && at + self.heap.spec_size(Handle(at)) <= self.top),
    {
        let cap = self.heap.capacity();
        if at % 16 != 0 || at > cap - 16 {
            return None;
        }
        let s = self.heap.size(Handle(at));
        if s < 16 || s % 16 != 0 || at > self.top || s > self.top - at {
            None
        } else {
            Some(s)
        }
    }

    /// Every object in the heap, live or dead, in address order.
    pub fn blocks(&self) -> (r: Vec<Handle>)
        requires
            self.gc_inv(),
        ensures
            forall|j: int| 0 <= j < r@.len() ==> self.gc_heap().spec_in_bounds(#[trigger] r@[j]),
            forall|i: int, j: int| 0 <= i < j < r@.len() ==> r@[i].0 < r@[j].0,
            forall|h: Handle| #[trigger] r@.contains(h) <==> walk_block(self.gc_heap(), 0, self.spec_top(), h.0 as int),
    {
        let mut out: Vec<Handle> = Vec::new();
        let mut at: u32 = 0;
        let ghost end = self.top as int;
        proof {
            lemma_reaches_stop(self.heap, 0, end);
        }
        while at < self.top
            invariant
                self.heap.wf(),
                self.top <= self.heap.cap(),
                end == self.top,
                forall|j: int| 0 <= j < out@.len() ==> self.heap.spec_in_bounds(#[trigger] out@[j]),
                forall|j: int| 0 <= j < out@.len() ==> #[trigger] out@[j].0 < at,
                forall|i: int, j: int| 0 <= i < j < out@.len() ==> out@[i].0 < out@[j].0,
                reaches(self.heap, 0, at as int, end),
                walk_stop(self.heap, 0, end) == walk_stop(self.heap, at as int, end),
                forall|h: Handle| #[trigger] out@.contains(h) <==> walked(self.heap, 0, at as int, end, h.0 as int),
            ensures
                forall|j: int| 0 <= j < out@.len() ==> self.heap.spec_in_bounds(#[trigger] out@[j]),
                forall|i: int, j: int| 0 <= i < j < out@.len() ==> out@[i].0 < out@[j].0,
                forall|h: Handle| #[trigger] out@.contains(h) <==> walk_block(self.heap, 0, end, h.0 as int),
            decreases self.top - at,
        {
            proof {
                lemma_walk_progress(self.heap, 0, at as int, end);
            }
            match self.block_size(at) {
                None => {
                    break;
                },
                Some(s) => {
                    let ghost o = out@;
                    out.push(Handle(at));
                    proof {
                        assert forall|h: Handle| #[trigger] out@.contains(h) <==> walked(
                            self.heap,
                            0,
                            at + s,
                            end,
                            h.0 as int,
                        ) by {
                            if h == Handle(at) {
                                assert(out@[o.len() as int] == h);
                            }
                            if o.contains(h) {
                                let k = choose|k: int| 0 <= k < o.len() && o[k] == h;
                                assert(out@[k] == h);
                            }
                            if out@.contains(h) && h != Handle(at) {
                                let k = choose|k: int| 0 <= k < out@.len() && out@[k] == h;
                                assert(k < o.len());
                                assert(o[k] == h);
                            }
                        }
                    }
                    at = at + s;
                },
            }
        }
        proof {
            if at >= self.top {
                lemma_walk_progress(self.heap, 0, at as int, end);
            }
        }
        out
    }

    /// Mark `h` if it addresses a well-formed, unmarked object, and queue
    /// its unmarked children.
    fn visit(&mut self, h: Handle)
        requires
            old(self).heap.wf(),
        ensures
            same_collections(old(self).stats, final(self).stats),
            final(self).heap.cap() == old(self).heap.cap(),
            final(self).roots == old(self).roots,
            final(self).top == old(self).top,
            final(self).worklist@.len() >= old(self).worklist@.len(),
            unmarked(final(self).heap@, old(self).heap.cap() / 16) <= unmarked(
                old(self).heap@,
                old(self).heap.cap() / 16,
            ),
            final(self).worklist@.len() > old(self).worklist@.len() ==> unmarked(
                final(self).heap@,
                old(self).heap.cap() / 16,
            ) < unmarked(old(self).heap@, old(self).heap.cap() / 16),
            steps(old(self).heap, old(self).worklist@, h, final(self).heap, final(self).worklist@),
    {
        let ghost cap = self.heap.cap();
        if !self.heap.in_bounds(h) || self.heap.is_marked(h) {
            return;
        }
        let ghost before = self.heap;
        self.heap.set_marked(h, true);
        proof {
            let f = before.spec_flags(h);
            assert((f | 1u8) & 1u8 != 0) by (bit_vector);
            lemma_count_unsat_set(
                before@,
                self.heap@,
                cap / 16,
                6,
                |x: u8| x & FLAG_MARK != 0,
                h.0 as int,
                f | FLAG_MARK,
            );
        }
        self.stats.objects_marked = self.stats.objects_marked.saturating_add(1);
        let n = self.heap.nrefs(h) as u32;
        if 16 + 4 * n <= self.heap.capacity() - h.0 {
            let children = self.heap.children(h);
            proof {
                crate::trace::lemma_flag_write_keeps_children(before, self.heap, h, before.spec_flags(h) | FLAG_MARK);
            }
            let ghost hp = self.heap;
            let ghost w0 = old(self).worklist@;
            let mut k: usize = 0;
            while k < children.len()
                invariant
                    same_collections(old(self).stats, self.stats),
                    self.heap == hp,
                    hp.wf(),
                    self.roots == old(self).roots,
                    self.top == old(self).top,
                    k <= children@.len(),
                    self.worklist@.len() >= w0.len(),
                    self.worklist@.subrange(0, w0.len() as int) == w0,
                    forall|j: int| w0.len() <= j < self.worklist@.len() ==> children@.contains(#[trigger] self.worklist@[j]),
                    forall|j: int| 0 <= j < k ==> self.worklist@.contains(#[trigger] children@[j]) || hp.spec_flag(children@[j], FLAG_MARK),
                decreases children@.len() - k,
            {
                let c = children[k];
                let ghost wb = self.worklist@;
                if !self.heap.in_bounds(c) || !self.heap.is_marked(c) {
                    self.worklist.push(c);
                    proof {
                        assert(self.worklist@[wb.len() as int] == c);
                        assert forall|j: int| 0 <= j < k implies self.worklist@.contains(#[trigger] children@[j]) || hp.spec_flag(children@[j], FLAG_MARK) by {
                            if wb.contains(children@[j]) {
                                let x = choose|x: int| 0 <= x < wb.len() && wb[x] == children@[j];
                                assert(self.worklist@[x] == children@[j]);
                            }
                        }
                        assert(self.worklist@.subrange(0, w0.len() as int) =~= wb.subrange(0, w0.len() as int));
                    }
                }
                k = k + 1;
            }
            proof {
                let w2 = self.worklist@;
                assert forall|c: Handle| #[trigger] w0.contains(c) implies w2.contains(c) by {
                    let x = choose|x: int| 0 <= x < w0.len() && w0[x] == c;
                    assert(w2.subrange(0, w0.len() as int)[x] == c);
                }
                assert forall|c: Handle| #[trigger] w2.contains(c) implies w0.contains(c) || before.spec_children(h).contains(c) by {
                    let x = choose|x: int| 0 <= x < w2.len() && w2[x] == c;
                    if x < w0.len() {
                        assert(w2.subrange(0, w0.len() as int)[x] == c);
                    }
                }
                assert forall|c: Handle| #[trigger] before.spec_children(h).contains(c) implies w2.contains(c) || hp.spec_flag(c, FLAG_MARK) by {
                    let x = choose|x: int| 0 <= x < children@.len() && children@[x] == c;
                }
            }
        } else {
            proof {
                assert(before.spec_nrefs(h) == self.heap.spec_nrefs(h));
            }
        }
    }

    /// Set the mark bit on everything reachable from the roots: the shadow
    /// stack and every global.
    ///
    /// On a heap whose reachable objects are laid out sanely and carry no
    /// stale mark, every reachable object ends up marked and nothing but
    /// their mark bits changes.
    pub fn mark_from_roots(&mut self)
        requires
            old(self).gc_inv(),
        ensures
            same_collections(old(self).gc_stats(), final(self).gc_stats()),
            final(self).gc_inv(),
            final(self).gc_heap().cap() == old(self).gc_heap().cap(),
            final(self).gc_roots() == old(self).gc_roots(),
            final(self).gc_used() == old(self).gc_used(),
            trace_ready(old(self).gc_heap(), old(self).gc_roots().slots()) ==> {
                &&& flags_only(old(self).gc_heap(), old(self).gc_roots().slots(), final(self).gc_heap())
                &&& forall|h: Handle| #[trigger]
                    reachable(old(self).gc_heap(), old(self).gc_roots().slots(), h) ==> final(self).gc_heap().spec_flag(h, FLAG_MARK)
            },
    {
        let roots = self.roots.iter();
        self.worklist.clear();
        let ghost heap0 = self.heap;
        let ghost slots = self.roots.slots();
        let ghost ready = trace_ready(heap0, slots);
        let mut i: usize = 0;
        while i < roots.len()
            invariant
                same_collections(old(self).stats, self.stats),
                i <= roots@.len(),
                self.heap.wf(),
                self.roots == old(self).roots,
                self.heap.cap() == old(self).heap.cap(),
                self.top == old(self).top,
                self.heap == heap0,
                self.worklist@ == roots@.subrange(0, i as int),
            decreases roots@.len() - i,
        {
            self.worklist.push(roots[i]);
            i = i + 1;
            assert(self.worklist@ =~= roots@.subrange(0, i as int));
        }
        proof {
            assert(self.worklist@ =~= roots@);
            if ready {
                lemma_mark_start(heap0, slots);
                assert forall|c: Handle| #[trigger] self.worklist@.contains(c) && heap0.spec_in_bounds(c) implies reachable(
                    heap0,
                    slots,
                    c,
                ) by {
                    lemma_root_reachable(heap0, slots, c);
                }
                assert(marking(heap0, slots, heap0, self.worklist@));
            }
        }
        let ghost cap = self.heap.cap();
        while self.worklist.len() > 0
            invariant
                same_collections(old(self).stats, self.stats),
                self.heap.wf(),
                self.heap.cap() == cap,
                self.roots == old(self).roots,
                self.top == old(self).top,
                heap0.wf(),
                slots == old(self).roots.slots(),
                ready == trace_ready(heap0, slots),
                ready ==> marking(heap0, slots, self.heap, self.worklist@),
                heap0.cap() == cap,
                forall|r: Handle| #[trigger]
                    slots.contains(r) && self.heap.spec_in_bounds(r) ==> self.heap.spec_flag(r, FLAG_MARK)
                        || self.worklist@.contains(r),
            decreases unmarked(self.heap@, cap / 16), self.worklist@.len(),
        {
            let ghost pending = self.worklist@;
            let h = self.worklist.pop().unwrap();
            let ghost rest = self.worklist@;
            let ghost prev = self.heap;
            proof {
                assert(pending =~= rest.push(h));
                lemma_pop_shape(pending, rest, h);
            }
            self.visit(h);
            proof {
                assert forall|r: Handle| #[trigger] slots.contains(r) && self.heap.spec_in_bounds(r) implies self.heap.spec_flag(
                    r,
                    FLAG_MARK,
                ) || self.worklist@.contains(r) by {
                    lemma_step_keeps_any(prev, pending, rest, h, self.heap, self.worklist@, r);
                }
                if ready {
                    lemma_mark_step(heap0, slots, prev, pending, rest, h, self.heap, self.worklist@);
                }
            }
        }
        proof {
            if ready {
                assert(self.worklist@ =~= Seq::<Handle>::empty());
                assert forall|r: Handle| #[trigger] slots.contains(r) && heap0.spec_in_bounds(r) implies self.heap.spec_flag(
                    r,
                    FLAG_MARK,
                ) by {
                    lemma_flags_only_header(heap0, slots, self.heap, r);
                }
                lemma_mark_done(heap0, slots, self.heap);
            }
        }
    }

    /// Record, in each survivor's header, the address it will slide down to,
    /// and return where the heap will end after compaction.
    ///
    /// A second cursor starts at zero and advances only past marked objects,
    /// so every survivor's destination is at or below where it is now.
    /// Nothing is moved and no reference is changed.
    pub fn compute_forwarding(&mut self) -> (r: u32)
        requires
            old(self).gc_inv(),
        ensures
            same_collections(old(self).gc_stats(), final(self).gc_stats()),
            final(self).gc_inv(),
            final(self).gc_heap().cap() == old(self).gc_heap().cap(),
            final(self).gc_roots() == old(self).gc_roots(),
            final(self).spec_top() == old(self).spec_top(),
            r <= old(self).spec_top(),
            r % 16 == 0,
            slid(
                old(self).gc_heap(),
                final(self).gc_heap(),
                0,
                walk_stop(old(self).gc_heap(), 0, old(self).spec_top()),
                old(self).spec_top(),
                0,
            ),
            r == slid_dest(
                old(self).gc_heap(),
                0,
                walk_stop(old(self).gc_heap(), 0, old(self).spec_top()),
                old(self).spec_top(),
                0,
            ),
            forwarding(
                old(self).gc_heap(),
                final(self).gc_heap(),
                old(self).spec_top(),
                walk_stop(old(self).gc_heap(), 0, old(self).spec_top()),
            ),
    {
        let ghost b0 = self.heap;
        let ghost end = self.top as int;
        let ghost w = walk_stop(b0, 0, end);
        let mut at: u32 = 0;
        let mut dest: u32 = 0;
        proof {
            lemma_slid_start(b0, self.heap, end);
            lemma_reaches_stop(b0, 0, end);
            reveal(forwarding);
            assert(forwarding(b0, self.heap, end, 0));
        }
        while at < self.top
            invariant
                same_collections(old(self).stats, self.stats),
                self.heap.wf(),
                self.heap.cap() == old(self).heap.cap(),
                self.top <= self.heap.cap(),
                self.top % 16 == 0,
                self.roots == old(self).roots,
                self.top == old(self).top,
                dest <= at,
                at <= self.top,
                dest % 16 == 0,
                at % 16 == 0,
                b0 == old(self).heap,
                end == self.top,
                slid(b0, self.heap, 0, at as int, end, 0),
                dest == slid_dest(b0, 0, at as int, end, 0),
                walk_stop(b0, 0, end) == walk_stop(b0, at as int, end),
                w == walk_stop(b0, 0, end),
                end <= b0.cap(),
                reaches(b0, 0, at as int, end),
                forwarding(b0, self.heap, end, at as int),
            ensures
                walk_stop(b0, 0, end) == at as int,
                forwarding(b0, self.heap, end, at as int),
            decreases self.top - at,
        {
            proof {
                let o = at as int;
                if o + 16 <= self.heap.cap() {
                    assert(self.heap@[o] == b0@[o] && self.heap@[o + 1] == b0@[o + 1] && self.heap@[o + 2] == b0@[o
                        + 2] && self.heap@[o + 3] == b0@[o + 3] && self.heap@[o + 6] == b0@[o + 6]);
                }
            }
            match self.block_size(at) {
                None => {
                    proof {
                        assert(!step_ok(b0, at as int, end));
                    }
                    break;
                },
                Some(s) => {
                    let h = Handle(at);
                    let ghost now = self.heap;
                    assert(step_ok(b0, at as int, end));
                    proof {
                        lemma_reaches_stop(b0, at + s, end);
                        lemma_walked_at(b0, 0, at as int, end);
                        lemma_reaches_extend(b0, 0, at as int, end);
                    }
                    if self.heap.is_marked(h) {
                        self.heap.set_forward(h, Handle(dest));
                        dest = dest + s;
                    }
                    proof {
                        lemma_slid_extend(b0, now, self.heap, 0, at as int, end, 0);
                        assert(Handle(at as int as u32) == h);
                        lemma_forwarding_block(b0, now, self.heap, end, at as int);
                    }
                    at = at + s;
                },
            }
        }
        dest
    }

    /// Where the reference `h` should point once the survivors have moved:
    /// the forwarding address of a marked, well-formed object, and `h`
    /// itself otherwise.
    fn destination(&self, h: Handle) -> (r: Handle)
        requires
            self.heap.wf(),
        ensures
            r.0 == destined(self.heap, h.0 as int),
    {
        if !h.is_null() && self.heap.in_bounds(h) && self.heap.is_marked(h) {
            self.heap.forward(h)
        } else {
            h
        }
    }

    /// Rewrite every reference to point at where its target is going rather
    /// than where it is now: every slot of every survivor, whether that
    /// survivor moves or not, every shadow stack slot and every global.
    pub fn update_references(&mut self)
        requires
            old(self).gc_inv(),
        ensures
            same_collections(old(self).gc_stats(), final(self).gc_stats()),
            final(self).gc_inv(),
            final(self).gc_heap().cap() == old(self).gc_heap().cap(),
            final(self).spec_top() == old(self).spec_top(),
            final(self).gc_roots().stack().len() == old(self).gc_roots().stack().len(),
            final(self).gc_roots().globals().len() == old(self).gc_roots().globals().len(),
            forall|k: int|
                0 <= k < old(self).gc_roots().globals().len() ==> #[trigger] final(self).gc_roots().globals()[k].0
                    == old(self).gc_roots().globals()[k].0,
            ({
                let b0 = old(self).gc_heap();
                let end = old(self).spec_top();
                let roots = old(self).gc_roots();
                refs_walked(b0, end, roots.slots()) ==> {
                    &&& updating(b0, final(self).gc_heap(), end, walk_stop(b0, 0, end))
                    &&& forall|k: int|
                        0 <= k < roots.stack().len() ==> #[trigger] final(self).gc_roots().stack()[k].0 == destined(
                            b0,
                            roots.stack()[k].0 as int,
                        )
                    &&& forall|k: int|
                        0 <= k < roots.globals().len() ==> #[trigger] final(self).gc_roots().globals()[k].1.0
                            == destined(b0, roots.globals()[k].1.0 as int)
                }
            }),
    {
        let ghost b0 = self.heap;
        let ghost end = self.top as int;
        let ghost w = walk_stop(b0, 0, end);
        let ghost ok = refs_walked(b0, end, self.roots.slots());
        let mut at: u32 = 0;
        proof {
            lemma_reaches_stop(b0, 0, end);
            if ok {
                assert forall|x: int, i: int|
                    #![trigger walked(b0, 0, w, end, x), self.heap.spec_field(Handle(x as u32), i)]
                    walked(b0, 0, w, end, x) && x < 0 && b0.spec_flag(Handle(x as u32), FLAG_MARK) && 0 <= i
                        < b0.spec_nrefs(Handle(x as u32)) implies self.heap.spec_field(Handle(x as u32), i) == destined(
                    b0,
                    b0.spec_field(Handle(x as u32), i),
                ) by {
                    lemma_walked_ge(b0, 0, w, end, x);
                }
                assert(updating(b0, self.heap, end, 0));
            }
        }
        while at < self.top
            invariant
                same_collections(old(self).stats, self.stats),
                self.heap.wf(),
                self.heap.cap() == old(self).heap.cap(),
                self.top <= self.heap.cap(),
                self.top % 16 == 0,
                self.roots == old(self).roots,
                self.top == old(self).top,
                b0 == old(self).heap,
                end == self.top,
                w == walk_stop(b0, 0, end),
                ok == refs_walked(b0, end, old(self).roots.slots()),
                ok ==> reaches(b0, 0, at as int, end) && walk_stop(b0, at as int, end) == w && updating(
                    b0,
                    self.heap,
                    end,
                    at as int,
                ),
            ensures
                self.heap.wf(),
                self.heap.cap() == old(self).heap.cap(),
                self.top <= self.heap.cap(),
                self.top % 16 == 0,
                self.roots == old(self).roots,
                self.top == old(self).top,
                ok ==> updating(b0, self.heap, end, w),
            decreases self.top - at,
        {
            proof {
                let o = at as int;
                if ok && o + 16 <= self.heap.cap() {
                    assert(self.heap@[o] == b0@[o] && self.heap@[o + 1] == b0@[o + 1] && self.heap@[o + 2] == b0@[o
                        + 2] && self.heap@[o + 3] == b0@[o + 3] && self.heap@[o + 4] == b0@[o + 4] && self.heap@[o
                        + 5] == b0@[o + 5] && self.heap@[o + 6] == b0@[o + 6]);
                }
            }
            let s = match self.block_size(at) {
                None => {
                    proof {
                        if ok {
                            assert(!step_ok(b0, at as int, end));
                            assert(walk_stop(b0, at as int, end) == at as int);
                        }
                    }
                    break;
                },
                Some(s) => s,
            };
            let h = Handle(at);
            let ghost at0 = at as int;
            let ghost pre = self.heap;
            proof {
                if ok {
                    assert(step_ok(b0, at0, end));
                    lemma_reaches_stop(b0, at0 + s, end);
                    lemma_walked_at(b0, 0, at0, end);
                    lemma_reaches_extend(b0, 0, at0, end);
                    assert(Handle(at0 as u32) == h);
                }
            }
            at = at + s;
            if !self.heap.is_marked(h) {
                proof {
                    if ok {
                        lemma_updating_block(b0, pre, self.heap, end, at0);
                    }
                }
                continue;
            }
            let n = self.heap.nrefs(h);
            let mut i: u16 = 0;
            while i < n
                invariant
                    same_collections(old(self).stats, self.stats),
                    self.heap.wf(),
                    self.heap.cap() == old(self).heap.cap(),
                    self.top <= self.heap.cap(),
                    self.top % 16 == 0,
                    self.roots == old(self).roots,
                    self.top == old(self).top,
                    b0 == old(self).heap,
                    end == self.top,
                    w == walk_stop(b0, 0, end),
                    ok == refs_walked(b0, end, old(self).roots.slots()),
                    h.0 == at0,
                    at as int == at0 + s,
                    ok ==> reaches(b0, 0, at as int, end) && walk_stop(b0, at as int, end) == w,
                    ok ==> updating(b0, pre, end, at0),
                    ok ==> walked(b0, 0, w, end, at0),
                    ok ==> b0.spec_flag(h, FLAG_MARK) && n == b0.spec_nrefs(h) && s == b0.spec_size(h),
                    self.heap@.len() == pre@.len(),
                    i <= n,
                    ok ==> forall|j: int|
                        #![trigger self.heap@[j]]
                        0 <= j < self.heap@.len() && !(at0 + 16 <= j < at0 + 16 + 4 * i) ==> self.heap@[j] == pre@[j],
                    ok ==> forall|k: int|
                        0 <= k < i ==> #[trigger] self.heap.spec_field(h, k) == destined(b0, b0.spec_field(h, k)),
                decreases n - i,
            {
                proof {
                    if ok {
                        assert(16 + 4 * b0.spec_nrefs(h) <= b0.spec_size(h));
                        lemma_reaches_stop(b0, 0, end);
                        lemma_walked_block(b0, 0, w, end, at0);
                    }
                }
                if self.heap.field_ok(h, i) {
                    let ghost cur = self.heap;
                    let child = self.heap.field(h, i);
                    proof {
                        if ok {
                            let o = at0 + 16 + 4 * i;
                            assert(cur@[o] == pre@[o] && cur@[o + 1] == pre@[o + 1] && cur@[o + 2] == pre@[o + 2]
                                && cur@[o + 3] == pre@[o + 3]);
                            assert(pre@[o] == b0@[o] && pre@[o + 1] == b0@[o + 1] && pre@[o + 2] == b0@[o + 2]
                                && pre@[o + 3] == b0@[o + 3]);
                            assert(child.0 == b0.spec_field(h, i as int));
                            assert(named(b0, end, b0.spec_field(Handle(at0 as u32), i as int)));
                            lemma_named_destined(b0, pre, cur, end, at0, at0, i as int, child.0 as int);
                        }
                    }
                    let moved_to = self.destination(child);
                    self.heap.set_field(h, i, moved_to);
                    proof {
                        if ok {
                            assert forall|k: int| 0 <= k < i + 1 implies #[trigger] self.heap.spec_field(h, k) == destined(
                                b0,
                                b0.spec_field(h, k),
                            ) by {
                                if k == i {
                                    assert(self.heap.spec_field(h, k) == moved_to.0);
                                    assert(moved_to.0 == destined(cur, child.0 as int));
                                    assert(destined(cur, child.0 as int) == destined(b0, child.0 as int));
                                    assert(child.0 as int == b0.spec_field(h, k));
                                } else {
                                    let o = at0 + 16 + 4 * k;
                                    assert(self.heap@[o] == cur@[o] && self.heap@[o + 1] == cur@[o + 1] && self.heap@[o
                                        + 2] == cur@[o + 2] && self.heap@[o + 3] == cur@[o + 3]);
                                    assert(self.heap.spec_field(h, k) == cur.spec_field(h, k));
                                    assert(cur.spec_field(h, k) == destined(b0, b0.spec_field(h, k)));
                                }
                            }
                        }
                    }
                } else {
                    proof {
                        if ok {
                            assert(false);
                        }
                    }
                }
                i = i + 1;
            }
            proof {
                if ok {
                    lemma_updating_block(b0, pre, self.heap, end, at0);
                }
            }
        }
        let ghost hf = self.heap;
        let ghost r0 = self.roots;

        let depth = self.roots.depth();
        let mut s: usize = 0;
        while s < depth
            invariant
                same_collections(old(self).stats, self.stats),
                self.heap == hf,
                hf.wf(),
                self.heap.cap() == old(self).heap.cap(),
                self.top <= self.heap.cap(),
                self.top % 16 == 0,
                self.top == old(self).top,
                depth == self.roots.stack().len(),
                self.roots.stack().len() == old(self).roots.stack().len(),
                self.roots.globals() == old(self).roots.globals(),
                r0 == old(self).roots,
                forall|k: int| s <= k < depth ==> #[trigger] self.roots.stack()[k] == r0.stack()[k],
                ok ==> forall|k: int|
                    0 <= k < s ==> #[trigger] self.roots.stack()[k].0 == destined(b0, r0.stack()[k].0 as int),
                ok == refs_walked(b0, end, old(self).roots.slots()),
                ok ==> updating(b0, hf, end, w),
                b0 == old(self).heap,
                end == self.top,
                w == walk_stop(b0, 0, end),
            decreases depth - s,
        {
            let h = self.roots.get(RootSlot(s));
            proof {
                if ok {
                    let sl = r0.slots();
                    assert(sl[s as int] == r0.stack()[s as int]);
                    assert(named(b0, end, sl[s as int].0 as int));
                    lemma_named_destined(b0, hf, hf, end, w, 0, 0, h.0 as int);
                }
            }
            let moved_to = self.destination(h);
            self.roots.set(RootSlot(s), moved_to);
            s = s + 1;
        }
        let n = self.roots.global_count();
        let mut j: usize = 0;
        while j < n
            invariant
                same_collections(old(self).stats, self.stats),
                self.heap == hf,
                hf.wf(),
                self.heap.cap() == old(self).heap.cap(),
                self.top <= self.heap.cap(),
                self.top % 16 == 0,
                self.top == old(self).top,
                n == self.roots.globals().len(),
                self.roots.stack().len() == old(self).roots.stack().len(),
                self.roots.globals().len() == old(self).roots.globals().len(),
                r0 == old(self).roots,
                forall|k: int| 0 <= k < n ==> #[trigger] self.roots.globals()[k].0 == r0.globals()[k].0,
                forall|k: int| j <= k < n ==> #[trigger] self.roots.globals()[k] == r0.globals()[k],
                ok ==> forall|k: int|
                    0 <= k < self.roots.stack().len() ==> #[trigger] self.roots.stack()[k].0 == destined(
                        b0,
                        r0.stack()[k].0 as int,
                    ),
                ok ==> forall|k: int|
                    0 <= k < j ==> #[trigger] self.roots.globals()[k].1.0 == destined(b0, r0.globals()[k].1.0 as int),
                ok == refs_walked(b0, end, old(self).roots.slots()),
                ok ==> updating(b0, hf, end, w),
                b0 == old(self).heap,
                end == self.top,
                w == walk_stop(b0, 0, end),
            decreases n - j,
        {
            let h = self.roots.global_at(j);
            proof {
                if ok {
                    let sl = r0.slots();
                    let st = r0.stack().len();
                    assert(sl[st + j] == r0.globals()[j as int].1);
                    assert(named(b0, end, sl[st + j].0 as int));
                    lemma_named_destined(b0, hf, hf, end, w, 0, 0, h.0 as int);
                }
            }
            let moved_to = self.destination(h);
            self.roots.set_global_at(j, moved_to);
            j = j + 1;
        }
    }

    /// Slide every survivor down to the address recorded in its header,
    /// bottom up, and clear its mark and forwarding address where it lands.
    ///
    /// Survivors are counted in `objects_copied`, the rest in
    /// `objects_freed` and `bytes_freed`.
    ///
    /// When the recorded addresses slide the survivors down in order, every
    /// survivor lands at its address with every byte as it was but its mark
    /// and forwarding address, and nothing past the walk changes.
    pub fn move_objects(&mut self)
        requires
            old(self).gc_inv(),
        ensures
            same_collections(old(self).gc_stats(), final(self).gc_stats()),
            final(self).gc_inv(),
            final(self).gc_heap().cap() == old(self).gc_heap().cap(),
            final(self).gc_roots() == old(self).gc_roots(),
            final(self).spec_top() == old(self).spec_top(),
            ({
                let b1 = old(self).gc_heap();
                let end = old(self).spec_top();
                sliding(b1, end) ==> moving(b1, final(self).gc_heap(), end, walk_stop(b1, 0, end))
            }),
    {
        let ghost b1 = self.heap;
        let ghost end = self.top as int;
        let ghost w = walk_stop(b1, 0, end);
        let ghost ok = sliding(b1, end);
        proof {
            lemma_reaches_stop(b1, 0, end);
            if ok {
                assert forall|x: int| #[trigger]
                    walked(b1, 0, w, end, x) && x < 0 && b1.spec_flag(Handle(x as u32), FLAG_MARK) implies landed(
                    b1,
                    self.heap,
                    x,
                ) by {
                    lemma_walked_ge(b1, 0, w, end, x);
                }
            }
        }
        let mut at: u32 = 0;
        while at < self.top
            invariant
                same_collections(old(self).stats, self.stats),
                self.heap.wf(),
                self.heap.cap() == old(self).heap.cap(),
                self.top <= self.heap.cap(),
                self.top % 16 == 0,
                self.roots == old(self).roots,
                self.top == old(self).top,
                b1 == old(self).heap,
                end == self.top,
                w == walk_stop(b1, 0, end),
                ok == sliding(b1, end),
                ok ==> reaches(b1, 0, at as int, end) && walk_stop(b1, at as int, end) == w && moving(
                    b1,
                    self.heap,
                    end,
                    at as int,
                ),
            ensures
                self.heap.wf(),
                self.heap.cap() == old(self).heap.cap(),
                self.top <= self.heap.cap(),
                self.top % 16 == 0,
                self.roots == old(self).roots,
                self.top == old(self).top,
                ok ==> moving(b1, self.heap, end, w),
            decreases self.top - at,
        {
            proof {
                let o = at as int;
                if ok && o + 16 <= self.heap.cap() {
                    assert(self.heap@[o] == b1@[o] && self.heap@[o + 1] == b1@[o + 1] && self.heap@[o + 2] == b1@[o
                        + 2] && self.heap@[o + 3] == b1@[o + 3] && self.heap@[o + 6] == b1@[o + 6]
                        && self.heap@[o + 8] == b1@[o + 8] && self.heap@[o + 9] == b1@[o + 9] && self.heap@[o + 10]
                        == b1@[o + 10] && self.heap@[o + 11] == b1@[o + 11]);
                }
            }
            let s = match self.block_size(at) {
                None => {
                    proof {
                        if ok {
                            assert(!step_ok(b1, at as int, end));
                            assert(walk_stop(b1, at as int, end) == at as int);
                        }
                    }
                    break;
                },
                Some(s) => s,
            };
            let h = Handle(at);
            let ghost at0 = at as int;
            let ghost now = self.heap;
            proof {
                if ok {
                    assert(step_ok(b1, at0, end));
                    lemma_reaches_stop(b1, at0 + s, end);
                    lemma_walked_at(b1, 0, at0, end);
                    lemma_reaches_extend(b1, 0, at0, end);
                    assert(Handle(at0 as u32) == h);
                }
            }
            at = at + s;
            if self.heap.is_marked(h) {
                let to = self.heap.forward(h);
                let landed = if to.0 % 16 == 0 && to.0 <= h.0 {
                    if to.0 != h.0 {
                        self.heap.relocate(h, to.0)
                    } else {
                        h
                    }
                } else {
                    proof {
                        if ok {
                            assert(false);
                        }
                    }
                    h
                };
                let ghost r1 = self.heap;
                self.heap.set_marked(landed, false);
                let ghost r2 = self.heap;
                self.heap.set_forward(landed, Handle::null());
                proof {
                    if ok {
                        assert(landed.0 == b1.spec_fwd(h));
                        assert(Handle(landed.0 as int as u32) == landed);
                        lemma_moving_step(b1, now, r1, r2, self.heap, end, at0);
                    }
                }
                self.stats.objects_copied = self.stats.objects_copied.saturating_add(1);
            } else {
                proof {
                    if ok {
                        lemma_moving_skip(b1, now, end, at0);
                    }
                }
                self.stats.objects_freed = self.stats.objects_freed.saturating_add(1);
                self.stats.bytes_freed = self.stats.bytes_freed.saturating_add(s as u64);
            }
        }
    }

    /// Collect first if the heap has reached its threshold, and again if
    /// `need` bytes still do not fit, unless collections have stopped paying
    /// for themselves.
    fn make_room(&mut self, need: u32)
        requires
            old(self).gc_inv(),
        ensures
            final(self).gc_inv(),
            final(self).gc_heap().cap() == old(self).gc_heap().cap(),
            final(self).gc_roots().stack().len() == old(self).gc_roots().stack().len(),
            final(self).stats.allocation_failures == old(self).stats.allocation_failures,
            !(old(self).thrashing < THRASH_LIMIT) || (old(self).top < old(self).threshold && need
                <= old(self).heap.cap() - old(self).top) ==> *final(self) == *old(self),
            old(self).thrashing < THRASH_LIMIT && (old(self).top >= old(self).threshold || need
                > old(self).heap.cap() - old(self).top) ==> final(self).threshold == next_threshold(
                final(self).top as int,
                final(self).heap.cap() as int,
            ),
    {
        let worth_collecting = self.thrashing < THRASH_LIMIT;
        if worth_collecting && self.top >= self.threshold {
            self.collect();
        }
        let cap = self.heap.capacity();
        if need > cap - self.top && worth_collecting {
            self.collect();
        }
    }

    fn account(&mut self, h: Handle) -> (r: Handle)
        requires
            old(self).heap.wf(),
            old(self).heap.hdr_in(h),
        ensures
            r == h,
            final(self).heap == old(self).heap,
            final(self).roots == old(self).roots,
            final(self).top == old(self).top,
            final(self).threshold == old(self).threshold,
            final(self).thrashing == old(self).thrashing,
            final(self).stats == counted_allocation(old(self).stats, old(self).heap.spec_size(h), old(self).top),
    {
        self.stats.allocations = self.stats.allocations.saturating_add(1);
        let size = self.heap.size(h);
        self.stats.bytes_allocated = self.stats.bytes_allocated.saturating_add(size as u64);
        self.stats.observe_used(self.top);
        h
    }
}

impl Collector for MarkCompact {
    closed spec fn gc_heap(&self) -> Heap {
        self.heap
    }

    closed spec fn gc_roots(&self) -> Roots {
        self.roots
    }

    closed spec fn gc_stats(&self) -> GcStats {
        self.stats
    }

    closed spec fn gc_used(&self) -> int {
        self.top as int
    }

    closed spec fn gc_inv(&self) -> bool {
        &&& self.heap.wf()
        &&& self.top <= self.heap.cap()
        &&& self.top % 16 == 0
    }

    proof fn lemma_inv_heap(&self) {
    }

    fn name(&self) -> &'static str {
        "mark-compact"
    }

    fn heap(&self) -> (r: &Heap) {
        &self.heap
    }

    fn heap_mut(&mut self) -> (r: &mut Heap) {
        &mut self.heap
    }

    fn roots(&self) -> (r: &Roots) {
        &self.roots
    }

    fn roots_mut(&mut self) -> (r: &mut Roots) {
        &mut self.roots
    }

    fn stats(&self) -> (r: &GcStats) {
        &self.stats
    }

    /// After compaction every live byte is below the bump pointer and every
    /// free byte above it, so this is simply where the pointer is.
    fn used_bytes(&self) -> (r: u32) {
        self.top
    }

    /// Allocation succeeds at the top of the heap, without collecting,
    /// whenever the object fits there and the heap has not reached the
    /// threshold that makes it collect first.
    fn allocate(&mut self, nrefs: u16, ndata: u32) -> (r: Result<Handle, GcError>)
        ensures
            (old(self).spec_thrashing() >= THRASH_LIMIT || old(self).spec_top() < old(self).spec_threshold()) && spec_size_for(nrefs as int, ndata as int)
                <= old(self).gc_heap().cap() - old(self).spec_top() ==> r == Ok::<Handle, GcError>(
                Handle(old(self).spec_top() as u32),
            ) && final(self).spec_top() == old(self).spec_top() + spec_size_for(nrefs as int, ndata as int),
    {
        let need = Heap::size_for(nrefs, ndata);
        self.make_room(need);
        let cap = self.heap.capacity();
        if need > cap - self.top {
            self.stats.allocation_failures = self.stats.allocation_failures.saturating_add(1);
            return Err(GcError::OutOfMemory { requested: need, used: self.top, capacity: cap });
        }
        let at = self.top;
        self.top = self.top + need;
        let h = self.heap.emplace(at, nrefs, ndata);
        Ok(self.account(h))
    }

    fn write_field(&mut self, obj: Handle, i: u16, val: Handle)
        ensures
            final(self).gc_heap().spec_field(obj, i as int) == val.0,
            crate::heap::same_outside(
                final(self).gc_heap()@,
                old(self).gc_heap()@,
                obj.0 + 16 + 4 * i,
                obj.0 + 16 + 4 * i + 4,
            ),
            final(self).gc_stats() == old(self).gc_stats(),
    {
        self.heap.set_field(obj, i, val);
    }

    /// A collection marks, records where each survivor will go, rewrites
    /// every reference and slides the survivors down.
    ///
    /// On a compactable heap, every reachable object ends up packed down in
    /// address order, at the total size of the reachable objects below it,
    /// with every byte as it was but its forwarding address and its
    /// references, each of which, like every root, points where its target
    /// went; and the heap ends where the packed objects do.
    fn collect(&mut self)
        ensures
            final(self).spec_threshold() == next_threshold(final(self).spec_top(), final(self).gc_heap().cap() as int),
            ({
                let h0 = old(self).gc_heap();
                let end = old(self).spec_top();
                let roots = old(self).gc_roots();
                let slots = roots.slots();
                compactable(h0, end, slots) ==> {
                    &&& final(self).spec_top() == packed(h0, slots, 0, walk_stop(h0, 0, end), end)
                    &&& forall|g: Handle| #[trigger]
                        reachable(h0, slots, g) ==> relocated(
                            h0,
                            slots,
                            end,
                            final(self).gc_heap(),
                            g,
                            packed(h0, slots, 0, g.0 as int, end),
                        )
                    &&& final(self).gc_roots().globals().len() == roots.globals().len()
                    &&& forall|k: int|
                        0 <= k < roots.stack().len() ==> #[trigger] final(self).gc_roots().stack()[k].0 == repointed(
                            h0,
                            slots,
                            end,
                            roots.stack()[k].0 as int,
                        )
                    &&& forall|k: int|
                        0 <= k < roots.globals().len() ==> #[trigger] final(self).gc_roots().globals()[k].1.0
                            == repointed(h0, slots, end, roots.globals()[k].1.0 as int)
                            && final(self).gc_roots().globals()[k].0 == roots.globals()[k].0
                }
            }),
    {
        let start = clock::now();
        let before = self.top;
        let ghost h0 = self.heap;
        let ghost end = self.top as int;
        let ghost r0 = self.roots;
        let ghost slots = self.roots.slots();
        let ghost ok = compactable(h0, end, slots);

        self.mark_from_roots();
        let ghost h1 = self.heap;
        proof {
            if ok {
                lemma_compact_marked(h0, h1, slots, end);
            }
        }
        let after = self.compute_forwarding();
        let ghost h2 = self.heap;
        proof {
            if ok {
                lemma_compact_forwarded(h0, h1, h2, slots, end);
                lemma_compact_refs(h0, h1, h2, slots, end);
            }
        }
        self.update_references();
        let ghost h3 = self.heap;
        proof {
            if ok {
                lemma_compact_updated(h0, h2, h3, end);
            }
        }
        self.move_objects();
        let ghost h4 = self.heap;
        self.top = after;
        proof {
            if ok {
                assert forall|g: Handle| #[trigger] reachable(h0, slots, g) implies relocated(
                    h0,
                    slots,
                    end,
                    h4,
                    g,
                    packed(h0, slots, 0, g.0 as int, end),
                ) by {
                    lemma_compact_object(h0, h1, h2, h3, h4, slots, end, g);
                }
                assert forall|k: int| 0 <= k < r0.stack().len() implies #[trigger] self.roots.stack()[k].0 == repointed(
                    h0,
                    slots,
                    end,
                    r0.stack()[k].0 as int,
                ) by {
                    assert(slots[k] == r0.stack()[k]);
                    lemma_root_repointed(h0, h1, h2, slots, end, k);
                }
                assert forall|k: int| 0 <= k < r0.globals().len() implies #[trigger] self.roots.globals()[k].1.0
                    == repointed(h0, slots, end, r0.globals()[k].1.0 as int) && self.roots.globals()[k].0
                    == r0.globals()[k].0 by {
                    let st = r0.stack().len();
                    assert(slots[st + k] == r0.globals()[k].1);
                    lemma_root_repointed(h0, h1, h2, slots, end, st + k);
                }
            }
        }

        let capacity = self.heap.capacity();
        let doubled = if self.top > u32::MAX / 2 {
            u32::MAX
        } else {
            self.top * 2
        };
        let floor = if doubled > MIN_THRESHOLD {
            doubled
        } else {
            MIN_THRESHOLD
        };
        self.threshold = if floor < capacity {
            floor
        } else {
            capacity
        };
        let reclaimed = before.saturating_sub(self.top);
        if self.top > capacity / 16 * 15 && reclaimed < capacity / 32 {
            self.thrashing = self.thrashing.saturating_add(1);
        } else {
            self.thrashing = 0;
        }

        self.stats.collections = self.stats.collections.saturating_add(1);
        self.stats.major_collections = self.stats.major_collections.saturating_add(1);
        let pause = clock::nanos_since(&start);
        self.stats.record_pause(pause);
    }
}

} // verus!
