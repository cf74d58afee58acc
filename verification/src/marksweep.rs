//! Mark and sweep.
//!
//! The first tracing collector. It never asks an object how many references
//! point at it: it starts from the roots, follows every reference it can and
//! marks what it arrives at. Whatever is left unmarked is unreachable, which
//! is the actual definition of garbage, so cycles need no special handling.
//!
//! **Mark** walks the reachable graph from the roots (the shadow stack and
//! every global) on an explicit worklist, since the graph can be as deep as
//! the heap is large. **Sweep** walks the heap linearly from the bottom,
//! returns every unmarked object to the allocator, and clears the mark on
//! every survivor so that the next collection starts from nothing.
//!
//! A collection that reclaims almost nothing from a nearly full heap counts
//! as thrashing; after [`THRASH_LIMIT`] of them in a row the collector stops
//! collecting before allocations and reports the heap full instead.

use crate::clock;
use crate::collector::{Collector, GcError};
use crate::heap::{spec_size_for, Handle, Heap, FLAG_MARK, NULL_ADDR};
use crate::roots::Roots;
use crate::heap::{le32, FLAG_FREE};
use crate::space::{
    count_unsat, free_blocks_stay_free, lemma_count_unsat_set, live_blocks_kept, tiles, FreeListSpace,
};
use crate::tiling::{
    lemma_on_tiles_facts, lemma_tiles_apart, lemma_tiles_frame, lemma_tiles_next, lemma_tiles_no_start_inside,
    on_tiles,
};
use crate::stats::{counted_allocation, same_collections, GcStats};
use crate::trace::{
    flags_only, lemma_mark_done, lemma_mark_start, lemma_mark_step, lemma_root_reachable, lemma_visited_steps, marking, reachable,
    trace_ready, visited,
};
use vstd::prelude::*;

verus! {

/// Never collect while the heap holds less than this.
pub const MIN_THRESHOLD: u32 = 65536;

/// How many collections in a row may reclaim almost nothing before the
/// collector gives up and reports the heap full.
pub const THRASH_LIMIT: u32 = 4;

/// Headers not yet marked: marking lowers it.
pub open spec fn unmarked(b: Seq<u8>, k: int) -> nat {
    count_unsat(b, k, 6, |x: u8| x & FLAG_MARK != 0)
}

/// `h` is a non-null root handle addressing a well-formed object.
pub open spec fn traceable_root(heap: Heap, roots: Roots, h: Handle) -> bool {
    &&& roots.slots().contains(h)
    &&& heap.spec_in_bounds(h)
}

/// Marking sets the mark bit of the aligned header `h` and changes nothing
/// else.
pub open spec fn marks_only(before: Heap, after: Heap, h: Handle) -> bool {
    after@ == before@.update(h.0 + 6, before.spec_flags(h) | FLAG_MARK)
}

/// Marking never clears a mark and never changes a size.
proof fn lemma_mark_monotone(before: Heap, after: Heap, h: Handle, g: Handle)
    requires
        marks_only(before, after, h),
        h.0 % 16 == 0,
        h.0 + 16 <= before.cap(),
        g.0 % 16 == 0,
        g.0 + 16 <= before.cap(),
    ensures
        before.spec_flag(g, FLAG_MARK) ==> after.spec_flag(g, FLAG_MARK),
        after.spec_size(g) == before.spec_size(g),
        g == h ==> after.spec_flag(g, FLAG_MARK),
{
    let f = before.spec_flags(h);
    assert((f | 1u8) & 1u8 != 0) by (bit_vector);
    if g.0 != h.0 {
        assert(g.0 + 6 != h.0 + 6);
        assert(after.spec_flags(g) == before.spec_flags(g));
    }
}

/// `x` is a block of the walk of `b` up to `end`, not flagged free, whose
/// mark bit is `m`.
pub open spec fn live_block(b: Heap, end: int, x: int, m: bool) -> bool {
    &&& on_tiles(b@, 0, end, x)
    &&& b.spec_flag(Handle(x as u32), FLAG_MARK) == m
    &&& !b.spec_flag(Handle(x as u32), FLAG_FREE)
}

/// What a sweep promises of a walkable space: every marked live block of
/// the walk survives as a live block with its mark cleared and every other
/// byte as it was, and no unmarked block that was live is live any more.
pub open spec fn swept(a: Heap, end_a: int, b: Heap, end_b: int) -> bool {
    &&& forall|x: int| #[trigger]
        live_block(a, end_a, x, true) ==> live_block(b, end_b, x, false) && forall|j: int|
            x <= j < x + le32(a@, x) && j != x + 6 ==> #[trigger] b@[j] == a@[j]
    &&& forall|x: int| #[trigger] live_block(a, end_a, x, false) ==> !live_block(b, end_b, x, false)
}

/// The first pass of a sweep, up to `at`: every marked live block below
/// `at` has had its mark cleared and nothing else has changed, every
/// unmarked live block below `at` is in `doomed`, which lists such blocks
/// in ascending order, and the walk goes on from `at`.
#[verifier::opaque]
pub open spec fn sweeping(b0: Heap, end: int, now: Heap, at: int, doomed: Seq<Handle>) -> bool {
    &&& 0 <= at <= end
    &&& tiles(b0@, 0, end)
    &&& tiles(b0@, at, end)
    &&& at < end ==> on_tiles(b0@, 0, end, at)
    &&& now@.len() == b0@.len()
    &&& forall|i: int|
        #![trigger now@[i]]
        0 <= i < b0@.len() && now@[i] != b0@[i] ==> 6 <= i && i - 6 < at && live_block(b0, end, i - 6, true)
    &&& forall|x: int| #[trigger]
        live_block(b0, end, x, true) && x < at ==> now.spec_flags(Handle(x as u32)) == b0.spec_flags(
            Handle(x as u32),
        ) & !FLAG_MARK
    &&& forall|i: int|
        0 <= i < doomed.len() ==> live_block(b0, end, #[trigger] doomed[i].0 as int, false) && doomed[i].0 < at
    &&& forall|i: int, j: int| 0 <= i < j < doomed.len() ==> doomed[i].0 < doomed[j].0
    &&& forall|x: int| #[trigger] live_block(b0, end, x, false) && x < at ==> doomed.contains(Handle(x as u32))
}

/// A sweep starts at the bottom of a walkable heap with nothing done.
proof fn lemma_sweeping_start(sp: FreeListSpace)
    requires
        sp.walkable(),
        sp.spec_bump() <= sp.spec_heap().cap(),
    ensures
        sweeping(sp.spec_heap(), sp.spec_bump(), sp.spec_heap(), 0, Seq::empty()),
{
    reveal(sweeping);
    let b = sp.spec_heap()@;
    let end = sp.spec_bump();
    if 0 < end {
        assert(on_tiles(b, 0, end, 0));
    }
    assert forall|x: int| #[trigger] live_block(sp.spec_heap(), end, x, false) && x < 0 implies Seq::<Handle>::empty().contains(
        Handle(x as u32),
    ) by {
        lemma_on_tiles_facts(b, 0, end, x);
    }
    assert forall|x: int| #[trigger] live_block(sp.spec_heap(), end, x, true) && x < 0 implies sp.spec_heap().spec_flags(
        Handle(x as u32),
    ) == sp.spec_heap().spec_flags(Handle(x as u32)) & !FLAG_MARK by {
        lemma_on_tiles_facts(b, 0, end, x);
    }
}

/// The block at `at` reads as it did when the sweep began.
proof fn lemma_sweeping_here(b0: Heap, end: int, now: Heap, at: int, doomed: Seq<Handle>)
    requires
        b0.wf(),
        end <= b0.cap(),
        sweeping(b0, end, now, at, doomed),
        at < end,
    ensures
        at % 16 == 0,
        at + 16 <= b0.cap(),
        now.spec_size(Handle(at as u32)) == b0.spec_size(Handle(at as u32)),
        16 <= b0.spec_size(Handle(at as u32)),
        at + b0.spec_size(Handle(at as u32)) <= end,
        now.spec_flags(Handle(at as u32)) == b0.spec_flags(Handle(at as u32)),
{
    reveal(sweeping);
    lemma_on_tiles_facts(b0@, 0, end, at);
    if now@[at] != b0@[at] {
        lemma_on_tiles_facts(b0@, 0, end, at - 6);
    }
    if now@[at + 1] != b0@[at + 1] {
        lemma_on_tiles_facts(b0@, 0, end, at + 1 - 6);
    }
    if now@[at + 2] != b0@[at + 2] {
        lemma_on_tiles_facts(b0@, 0, end, at + 2 - 6);
    }
    if now@[at + 3] != b0@[at + 3] {
        lemma_on_tiles_facts(b0@, 0, end, at + 3 - 6);
    }
    assert(now@[at + 6] == b0@[at + 6]);
    assert(Handle(at as u32).0 == at);
}

/// Stepping past the block at `at`: a free block is passed over, an
/// unmarked one joins `doomed`, a marked one has its mark cleared.
#[verifier::spinoff_prover]
proof fn lemma_sweeping_step(
    b0: Heap,
    end: int,
    now: Heap,
    at: int,
    doomed: Seq<Handle>,
    now2: Heap,
    doomed2: Seq<Handle>,
)
    requires
        b0.wf(),
        end <= b0.cap(),
        sweeping(b0, end, now, at, doomed),
        at < end,
        ({
            let h = Handle(at as u32);
            if b0.spec_flag(h, FLAG_FREE) {
                now2 == now && doomed2 == doomed
            } else if !b0.spec_flag(h, FLAG_MARK) {
                now2 == now && doomed2 == doomed.push(h)
            } else {
                now2@ == now@.update(at + 6, now.spec_flags(h) & !FLAG_MARK) && doomed2 == doomed
            }
        }),
    ensures
        sweeping(b0, end, now2, at + b0.spec_size(Handle(at as u32)), doomed2),
{
    lemma_sweeping_here(b0, end, now, at, doomed);
    reveal(sweeping);
    let h = Handle(at as u32);
    let s = b0.spec_size(h);
    let nx = at + s;
    lemma_tiles_next(b0@, 0, end, at);
    assert(h.0 == at);
    assert(tiles(b0@, nx, end));
    // Block starts below `nx` are those below `at`, and `at` itself.
    assert forall|x: int| #[trigger] on_tiles(b0@, 0, end, x) && x < nx && x != at implies x < at by {
        if x > at {
            lemma_tiles_no_start_inside(b0@, 0, end, at, x);
        }
    }
    assert forall|i: int|
        #![trigger now2@[i]]
        0 <= i < b0@.len() && now2@[i] != b0@[i] implies 6 <= i && i - 6 < nx && live_block(b0, end, i - 6, true) by {
        if now2@[i] == now@[i] {
        } else {
            assert(i == at + 6);
            assert(Handle((i - 6) as u32) == h);
        }
    }
    assert forall|x: int| #[trigger] live_block(b0, end, x, true) && x < nx implies now2.spec_flags(
        Handle(x as u32),
    ) == b0.spec_flags(Handle(x as u32)) & !FLAG_MARK by {
        lemma_on_tiles_facts(b0@, 0, end, x);
        if x != at {
            assert(x < at);
            assert(now2@[x + 6] == now@[x + 6]);
        } else {
            assert(Handle(x as u32) == h);
        }
    }
    assert forall|i: int| 0 <= i < doomed2.len() implies live_block(b0, end, #[trigger] doomed2[i].0 as int, false)
        && doomed2[i].0 < nx by {
        if i < doomed.len() {
            assert(doomed2[i] == doomed[i]);
        }
    }
    assert forall|x: int| #[trigger] live_block(b0, end, x, false) && x < nx implies doomed2.contains(
        Handle(x as u32),
    ) by {
        if x != at {
            assert(x < at);
            assert(doomed.contains(Handle(x as u32)));
            let k = choose|k: int| 0 <= k < doomed.len() && doomed[k] == Handle(x as u32);
            assert(doomed2[k] == doomed[k]);
        } else {
            assert(Handle(x as u32) == h);
            assert(doomed2[doomed.len() as int] == h);
        }
    }
}

/// The second pass of a sweep, `d` blocks into `doomed`: the space is
/// still walkable with the same block starts, the doomed blocks before `d`
/// are free and those from `d` on untouched, and every marked live block
/// has its mark cleared and every other byte as it was.
#[verifier::opaque]
pub open spec fn freeing(b0: Heap, end: int, sp: FreeListSpace, doomed: Seq<Handle>, d: int) -> bool {
    &&& sp.walkable()
    &&& sp.spec_bump() == end
    &&& end <= b0@.len()
    &&& tiles(b0@, 0, end)
    &&& sp.spec_heap()@.len() == b0@.len()
    &&& forall|y: int| #[trigger] on_tiles(sp.spec_heap()@, 0, end, y) == on_tiles(b0@, 0, end, y)
    &&& 0 <= d <= doomed.len()
    &&& forall|i: int| 0 <= i < doomed.len() ==> live_block(b0, end, #[trigger] doomed[i].0 as int, false)
    &&& forall|i: int, j: int| 0 <= i < j < doomed.len() ==> doomed[i].0 < doomed[j].0
    &&& forall|i: int, j: int|
        d <= i < doomed.len() && doomed[i].0 <= j < doomed[i].0 + 16 ==> #[trigger] sp.spec_heap()@[j] == b0@[j]
            && #[trigger] doomed[i] == doomed[i]
    &&& forall|i: int| 0 <= i < d ==> sp.spec_heap().spec_flag(#[trigger] doomed[i], FLAG_FREE)
    &&& forall|x: int| #[trigger]
        live_block(b0, end, x, true) ==> sp.spec_heap().spec_flags(Handle(x as u32)) == b0.spec_flags(
            Handle(x as u32),
        ) & !FLAG_MARK && forall|j: int|
            x <= j < x + le32(b0@, x) && j != x + 6 ==> #[trigger] sp.spec_heap()@[j] == b0@[j]
    &&& forall|x: int| #[trigger] live_block(b0, end, x, false) ==> doomed.contains(Handle(x as u32))
}

/// Clearing mark bits leaves every byte other than a block start's flag
/// byte alone; so the first pass ends with the space still walkable and
/// the second pass ready to start.
#[verifier::spinoff_prover]
proof fn lemma_freeing_start(sp0: FreeListSpace, sp1: FreeListSpace, end: int, doomed: Seq<Handle>)
    requires
        sp0.wf(),
        sp0.walkable(),
        end == sp0.spec_bump(),
        sweeping(sp0.spec_heap(), end, sp1.spec_heap(), end, doomed),
        sp1.free_list() == sp0.free_list(),
        sp1.spec_bump() == end,
    ensures
        freeing(sp0.spec_heap(), end, sp1, doomed, 0),
{
    reveal(sweeping);
    reveal(freeing);
    sp0.lemma_wf();
    let b0 = sp0.spec_heap();
    let b1 = sp1.spec_heap();
    // A byte that changed is the flag byte of a marked block start, which
    // is no other block start's size, header or payload.
    assert forall|x: int, j: int|
        #[trigger] on_tiles(b0@, 0, end, x) && x <= j < x + le32(b0@, x) && j != x + 6 implies #[trigger] b1@[j]
        == b0@[j] by {
        lemma_on_tiles_facts(b0@, 0, end, x);
        if b1@[j] != b0@[j] {
            let y = j - 6;
            assert(live_block(b0, end, y, true));
            lemma_on_tiles_facts(b0@, 0, end, y);
            if y < x {
            } else if y > x {
                lemma_tiles_no_start_inside(b0@, 0, end, x, y);
            }
        }
    }
    assert forall|x: int| #[trigger] on_tiles(b0@, 0, end, x) implies le32(b1@, x) == le32(b0@, x) by {
        lemma_on_tiles_facts(b0@, 0, end, x);
        assert(b1@[x] == b0@[x] && b1@[x + 1] == b0@[x + 1] && b1@[x + 2] == b0@[x + 2] && b1@[x + 3] == b0@[x
            + 3]);
    }
    lemma_tiles_frame(b0@, b1@, 0, end);
    let f = sp1.free_list();
    assert forall|i: int| 0 <= i < f.len() implies on_tiles(b1@, 0, end, #[trigger] f[i].0 as int) && b1.spec_flag(
        f[i],
        FLAG_FREE,
    ) by {
        assert(on_tiles(b0@, 0, end, f[i].0 as int));
        assert(b0.spec_flag(f[i], FLAG_FREE));
        lemma_on_tiles_facts(b0@, 0, end, f[i].0 as int);
        if b1@[f[i].0 + 6] != b0@[f[i].0 + 6] {
            assert(live_block(b0, end, f[i].0 as int, true));
            assert(Handle((f[i].0 as int) as u32) == f[i]);
        }
    }
    assert forall|i: int, j: int|
        0 <= i < doomed.len() && doomed[i].0 <= j < doomed[i].0 + 16 implies #[trigger] b1@[j] == b0@[j]
        && #[trigger] doomed[i] == doomed[i] by {
        let x = doomed[i].0 as int;
        assert(live_block(b0, end, x, false));
        lemma_on_tiles_facts(b0@, 0, end, x);
        if j == x + 6 {
            if b1@[j] != b0@[j] {
                assert(live_block(b0, end, x, true));
            }
        }
    }
    assert forall|x: int| #[trigger] live_block(b0, end, x, true) implies b1.spec_flags(Handle(x as u32)) == b0.spec_flags(
        Handle(x as u32),
    ) & !FLAG_MARK && forall|j: int| x <= j < x + le32(b0@, x) && j != x + 6 ==> #[trigger] b1@[j] == b0@[j] by {
        lemma_on_tiles_facts(b0@, 0, end, x);
    }
    assert(tiles(b1@, 0, end));
    assert(sp1.free_list().no_duplicates());
    assert(sp1.walkable());
    assert forall|x: int| #[trigger] live_block(b0, end, x, false) implies doomed.contains(Handle(x as u32)) by {
        lemma_on_tiles_facts(b0@, 0, end, x);
    }
}

/// The next doomed block can be freed: it is a live, unmarked block of the
/// walk whose header is as it was.
proof fn lemma_freeing_can_free(b0: Heap, end: int, sp: FreeListSpace, doomed: Seq<Handle>, d: int)
    requires
        b0.wf(),
        freeing(b0, end, sp, doomed, d),
        d < doomed.len(),
    ensures
        sp.freeable(doomed[d]),
        on_tiles(sp.spec_heap()@, 0, sp.spec_bump(), doomed[d].0 as int),
        sp.walkable(),
{
    reveal(freeing);
    let h = doomed[d];
    let x = h.0 as int;
    assert(live_block(b0, end, x, false));
    lemma_on_tiles_facts(b0@, 0, end, x);
    let b = sp.spec_heap()@;
    assert(b[x] == b0@[x] && doomed[d] == doomed[d]);
    assert(b[x + 1] == b0@[x + 1] && doomed[d] == doomed[d]);
    assert(b[x + 2] == b0@[x + 2] && doomed[d] == doomed[d]);
    assert(b[x + 3] == b0@[x + 3] && doomed[d] == doomed[d]);
    assert(b[x + 6] == b0@[x + 6] && doomed[d] == doomed[d]);
    assert(Handle(x as u32) == h);
    assert(sp.spec_heap().spec_size(h) == le32(b0@, x));
    assert(x % 16 == 0);
    assert(sp.spec_heap().hdr_in(h));
    assert(!sp.spec_heap().spec_flag(h, FLAG_FREE));
    assert(x + le32(b0@, x) <= sp.spec_heap().cap());
}

/// Freeing the next doomed block moves the second pass on by one.
#[verifier::spinoff_prover]
proof fn lemma_freeing_step(b0: Heap, end: int, sp: FreeListSpace, doomed: Seq<Handle>, d: int, sp2: FreeListSpace)
    requires
        b0.wf(),
        freeing(b0, end, sp, doomed, d),
        d < doomed.len(),
        sp2.walkable(),
        sp2.spec_bump() == sp.spec_bump(),
        forall|y: int| #[trigger]
            on_tiles(sp2.spec_heap()@, 0, sp2.spec_bump(), y) == on_tiles(sp.spec_heap()@, 0, sp.spec_bump(), y),
        sp2.spec_heap().cap() == sp.spec_heap().cap(),
        sp2.spec_heap().spec_flag(doomed[d], FLAG_FREE),
        forall|j: int|
            0 <= j < sp.spec_heap().cap() && !(doomed[d].0 <= j < doomed[d].0 + sp.spec_heap().spec_size(doomed[d]))
                ==> #[trigger] sp2.spec_heap()@[j] == sp.spec_heap()@[j],
    ensures
        freeing(b0, end, sp2, doomed, d + 1),
{
    reveal(freeing);
    let b = sp.spec_heap();
    let b2 = sp2.spec_heap();
    let h = doomed[d];
    let hx = h.0 as int;
    lemma_freeing_can_free(b0, end, sp, doomed, d);
    reveal(freeing);
    assert(live_block(b0, end, hx, false));
    lemma_on_tiles_facts(b0@, 0, end, hx);
    assert(b@[hx] == b0@[hx] && doomed[d] == doomed[d]);
    assert(b@[hx + 1] == b0@[hx + 1] && doomed[d] == doomed[d]);
    assert(b@[hx + 2] == b0@[hx + 2] && doomed[d] == doomed[d]);
    assert(b@[hx + 3] == b0@[hx + 3] && doomed[d] == doomed[d]);
    let size = le32(b0@, hx);
    assert(b.spec_size(h) == size);
    // Any other block start's block lies outside `h`'s.
    assert forall|y: int| #[trigger] on_tiles(b0@, 0, end, y) && y != hx implies y + le32(b0@, y) <= hx || hx
        + size <= y by {
        if y < hx {
            lemma_tiles_apart(b0@, 0, end, y, hx);
        } else {
            lemma_tiles_apart(b0@, 0, end, hx, y);
        }
    }
    assert forall|i: int, j: int|
        d + 1 <= i < doomed.len() && doomed[i].0 <= j < doomed[i].0 + 16 implies #[trigger] b2@[j] == b0@[j]
        && #[trigger] doomed[i] == doomed[i] by {
        let y = doomed[i].0 as int;
        assert(live_block(b0, end, y, false));
        assert(doomed[d].0 < doomed[i].0);
        lemma_on_tiles_facts(b0@, 0, end, y);
        assert(b@[j] == b0@[j] && doomed[i] == doomed[i]);
    }
    assert forall|i: int| 0 <= i < d + 1 implies b2.spec_flag(#[trigger] doomed[i], FLAG_FREE) by {
        if i < d {
            let y = doomed[i].0 as int;
            assert(live_block(b0, end, y, false));
            assert(doomed[i].0 < doomed[d].0);
            lemma_on_tiles_facts(b0@, 0, end, y);
            assert(b.spec_flag(doomed[i], FLAG_FREE));
            assert(b2@[y + 6] == b@[y + 6]);
        }
    }
    assert forall|x: int| #[trigger] live_block(b0, end, x, true) implies b2.spec_flags(Handle(x as u32)) == b0.spec_flags(
        Handle(x as u32),
    ) & !FLAG_MARK && forall|j: int| x <= j < x + le32(b0@, x) && j != x + 6 ==> #[trigger] b2@[j] == b0@[j] by {
        lemma_on_tiles_facts(b0@, 0, end, x);
        assert(x != hx);
        assert(b2@[x + 6] == b@[x + 6]);
        assert forall|j: int| x <= j < x + le32(b0@, x) && j != x + 6 implies #[trigger] b2@[j] == b0@[j] by {
            assert(b2@[j] == b@[j]);
        }
    }
}

/// After both passes and the merge of neighbouring holes, the sweep has
/// done what it promises.
#[verifier::spinoff_prover]
proof fn lemma_sweep_done(b0: Heap, end: int, sp: FreeListSpace, doomed: Seq<Handle>, sp3: FreeListSpace)
    requires
        b0.wf(),
        freeing(b0, end, sp, doomed, doomed.len() as int),
        sp3.walkable(),
        live_blocks_kept(sp.spec_heap(), sp.spec_bump(), sp3.spec_heap(), sp3.spec_bump()),
        free_blocks_stay_free(sp.spec_heap(), sp.spec_bump(), sp3.spec_heap(), sp3.spec_bump()),
    ensures
        swept(b0, end, sp3.spec_heap(), sp3.spec_bump()),
{
    reveal(freeing);
    let b = sp.spec_heap();
    let b3 = sp3.spec_heap();
    let e3 = sp3.spec_bump();
    assert forall|x: int| #[trigger] live_block(b0, end, x, true) implies live_block(b3, e3, x, false) && forall|j: int|
        x <= j < x + le32(b0@, x) && j != x + 6 ==> #[trigger] b3@[j] == b0@[j] by {
        lemma_on_tiles_facts(b0@, 0, end, x);
        let f0 = b0.spec_flags(Handle(x as u32));
        crate::heap::lemma_flag_bits(f0, FLAG_MARK);
        assert(FLAG_FREE & FLAG_MARK == 0) by (bit_vector);
        assert(on_tiles(b@, 0, end, x));
        assert(b@[x] == b0@[x] && b@[x + 1] == b0@[x + 1] && b@[x + 2] == b0@[x + 2] && b@[x + 3] == b0@[x + 3]);
        assert(le32(b@, x) == le32(b0@, x));
        assert(!b.spec_flag(Handle(x as u32), FLAG_FREE));
        assert(on_tiles(b3@, 0, e3, x));
        assert(b3@[x + 6] == b@[x + 6]);
        assert forall|j: int| x <= j < x + le32(b0@, x) && j != x + 6 implies #[trigger] b3@[j] == b0@[j] by {
            assert(b3@[j] == b@[j]);
        }
    }
    assert forall|x: int| #[trigger] live_block(b0, end, x, false) implies !live_block(b3, e3, x, false) by {
        assert(doomed.contains(Handle(x as u32)));
        let i = choose|i: int| 0 <= i < doomed.len() && doomed[i] == Handle(x as u32);
        assert(b.spec_flag(doomed[i], FLAG_FREE));
        lemma_on_tiles_facts(b0@, 0, end, x);
        if on_tiles(b3@, 0, e3, x) {
            assert(on_tiles(b@, 0, end, x));
        }
    }
}

/// What a collection needs of the heap for its promise: the space is
/// walkable, marking can trace it, every reachable object is a live block
/// of the walk, and no live block carries a mark.
pub open spec fn collectable(sp: FreeListSpace, slots: Seq<Handle>) -> bool {
    let h = sp.spec_heap();
    let end = sp.spec_bump();
    &&& sp.walkable()
    &&& trace_ready(h, slots)
    &&& forall|g: Handle| #[trigger] reachable(h, slots, g) ==> live_block(h, end, g.0 as int, false)
    &&& forall|x: int|
        #[trigger] on_tiles(h@, 0, end, x) && !h.spec_flag(Handle(x as u32), FLAG_FREE) ==> !h.spec_flag(
            Handle(x as u32),
            FLAG_MARK,
        )
}

/// Marking a collectable space leaves it walkable, turns exactly the
/// reachable live blocks into marked ones, and changes no other byte of a
/// reachable object.
#[verifier::spinoff_prover]
proof fn lemma_after_marking(sp0: FreeListSpace, sp1: FreeListSpace, slots: Seq<Handle>)
    requires
        sp0.wf(),
        sp1.wf(),
        collectable(sp0, slots),
        flags_only(sp0.spec_heap(), slots, sp1.spec_heap()),
        forall|h: Handle| #[trigger] reachable(sp0.spec_heap(), slots, h) ==> sp1.spec_heap().spec_flag(h, FLAG_MARK),
        sp1.free_list() == sp0.free_list(),
        sp1.spec_bump() == sp0.spec_bump(),
    ensures
        sp1.walkable(),
        forall|g: Handle| #[trigger]
            reachable(sp0.spec_heap(), slots, g) ==> live_block(sp1.spec_heap(), sp1.spec_bump(), g.0 as int, true)
                && forall|j: int|
                g.0 <= j < g.0 + le32(sp0.spec_heap()@, g.0 as int) && j != g.0 + 6 ==> #[trigger] sp1.spec_heap()@[j]
                    == sp0.spec_heap()@[j],
        forall|x: int| #[trigger]
            live_block(sp0.spec_heap(), sp0.spec_bump(), x, false) && !reachable(sp0.spec_heap(), slots, Handle(x as u32))
                ==> live_block(sp1.spec_heap(), sp1.spec_bump(), x, false),
{
    sp0.lemma_wf();
    let h0 = sp0.spec_heap();
    let h1 = sp1.spec_heap();
    let end = sp0.spec_bump();
    assert forall|x: int| #[trigger] on_tiles(h0@, 0, end, x) implies le32(h1@, x) == le32(h0@, x) by {
        lemma_on_tiles_facts(h0@, 0, end, x);
        assert(h1@[x] == h0@[x] && h1@[x + 1] == h0@[x + 1] && h1@[x + 2] == h0@[x + 2] && h1@[x + 3] == h0@[x
            + 3]);
    }
    lemma_tiles_frame(h0@, h1@, 0, end);
    let f = sp0.free_list();
    assert forall|i: int| 0 <= i < f.len() implies on_tiles(h1@, 0, end, #[trigger] f[i].0 as int) && h1.spec_flag(
        f[i],
        FLAG_FREE,
    ) by {
        assert(on_tiles(h0@, 0, end, f[i].0 as int));
        lemma_on_tiles_facts(h0@, 0, end, f[i].0 as int);
        if h1@[f[i].0 + 6] != h0@[f[i].0 + 6] {
            assert(Handle((f[i].0 + 6 - 6) as u32) == f[i]);
            assert(reachable(h0, slots, f[i]));
        }
    }
    assert forall|g: Handle| #[trigger] reachable(h0, slots, g) implies live_block(h1, end, g.0 as int, true)
        && forall|j: int| g.0 <= j < g.0 + le32(h0@, g.0 as int) && j != g.0 + 6 ==> #[trigger] h1@[j] == h0@[j] by {
        assert(live_block(h0, end, g.0 as int, false));
        lemma_on_tiles_facts(h0@, 0, end, g.0 as int);
        assert(Handle((g.0 as int) as u32) == g);
        let fl = h0@[g.0 + 6];
        assert(((fl | 1u8) & 8u8) == (fl & 8u8)) by (bit_vector);
        assert(!h1.spec_flag(g, FLAG_FREE));
        assert forall|j: int| g.0 <= j < g.0 + le32(h0@, g.0 as int) && j != g.0 + 6 implies #[trigger] h1@[j] == h0@[j] by {
            if h1@[j] != h0@[j] {
                let a = j - 6;
                let ah = Handle(a as u32);
                assert(ah.0 == a);
                assert(reachable(h0, slots, ah));
                assert(live_block(h0, end, a, false));
                lemma_on_tiles_facts(h0@, 0, end, a);
                if a > g.0 {
                    lemma_tiles_no_start_inside(h0@, 0, end, g.0 as int, a);
                }
            }
        }
    }
    assert forall|x: int| #[trigger]
        live_block(h0, end, x, false) && !reachable(h0, slots, Handle(x as u32)) implies live_block(h1, end, x, false) by {
        lemma_on_tiles_facts(h0@, 0, end, x);
        if h1@[x + 6] != h0@[x + 6] {
            assert(Handle((x + 6 - 6) as u32) == Handle(x as u32));
        }
    }
}

pub struct MarkSweep {
    space: FreeListSpace,
    roots: Roots,
    stats: GcStats,
    /// Objects reached but not yet scanned. A field rather than a local so
    /// the allocation is reused across collections.
    worklist: Vec<Handle>,
    /// Collect once this many bytes are in use.
    threshold: u32,
    /// Consecutive collections that reclaimed almost nothing from a nearly
    /// full heap.
    thrashing: u32,
}

impl MarkSweep {
    pub closed spec fn spec_space(&self) -> FreeListSpace {
        self.space
    }

    pub closed spec fn spec_threshold(&self) -> u32 {
        self.threshold
    }

    pub closed spec fn spec_thrashing(&self) -> u32 {
        self.thrashing
    }

    pub fn new(capacity: usize) -> (r: MarkSweep)
        requires
            capacity >= 16,
            capacity < NULL_ADDR,
            capacity % 16 == 0,
        ensures
            r.gc_inv(),
            r.gc_heap().cap() == capacity,
            r.gc_roots().stack().len() == 0,
            r.gc_roots().globals().len() == 0,
            r.gc_used() == 0,
            r.spec_threshold() == if capacity / 2 < MIN_THRESHOLD {
                (capacity / 2) as u32
            } else {
                MIN_THRESHOLD
            },
            r.spec_thrashing() == 0,
    {
        let half = (capacity / 2) as u32;
        MarkSweep {
            space: FreeListSpace::new(capacity),
            roots: Roots::new(),
            stats: GcStats::default(),
            worklist: Vec::new(),
            threshold: if half < MIN_THRESHOLD {
                half
            } else {
                MIN_THRESHOLD
            },
            thrashing: 0,
        }
    }

    pub fn space(&self) -> (r: &FreeListSpace)
        ensures
            *r == self.spec_space(),
    {
        &self.space
    }

    pub fn space_mut(&mut self) -> (r: &mut FreeListSpace)
        ensures
            *r == old(self).spec_space(),
            final(self).spec_space() == *final(r),
            final(self).gc_roots() == old(self).gc_roots(),
            final(self).spec_threshold() == old(self).spec_threshold(),
    {
        &mut self.space
    }

    pub fn is_freed(&self, h: Handle) -> (r: bool)
        requires
            self.gc_inv(),
            self.gc_heap().hdr_in(h),
        ensures
            r == self.gc_heap().spec_flag(h, crate::heap::FLAG_FREE),
    {
        self.space.is_free(h)
    }

    pub fn is_marked(&self, h: Handle) -> (r: bool)
        requires
            self.gc_inv(),
            self.gc_heap().hdr_in(h),
        ensures
            r == self.gc_heap().spec_flag(h, FLAG_MARK),
    {
        proof {
            self.space.lemma_wf();
        }
        self.space.heap().is_marked(h)
    }

    /// Bytes in use that will trigger the next collection.
    pub fn threshold(&self) -> (r: u32)
        ensures
            r == self.spec_threshold(),
    {
        self.threshold
    }

    /// Record a successful allocation and hand the object back.
    fn account(&mut self, h: Handle) -> (r: Handle)
        requires
            old(self).space.wf(),
            old(self).space.spec_heap().hdr_in(h),
        ensures
            r == h,
            final(self).space == old(self).space,
            final(self).roots == old(self).roots,
            final(self).stats == counted_allocation(
                old(self).stats,
                old(self).space.spec_heap().spec_size(h),
                old(self).space.spec_used() as u32,
            ),
    {
        proof {
            self.space.lemma_wf();
        }
        self.stats.allocations = self.stats.allocations.saturating_add(1);
        let size = self.space.heap().size(h);
        self.stats.bytes_allocated = self.stats.bytes_allocated.saturating_add(size as u64);
        self.stats.observe_used(self.space.used_bytes());
        h
    }

    /// Mark `h` if it addresses a well-formed, unmarked object, and queue
    /// its children.
    fn visit(&mut self, h: Handle)
        requires
            old(self).space.wf(),
        ensures
            same_collections(old(self).stats, final(self).stats),
            final(self).space.wf(),
            final(self).space.free_list() == old(self).space.free_list(),
            final(self).space.spec_bump() == old(self).space.spec_bump(),
            final(self).space.spec_heap().cap() == old(self).space.spec_heap().cap(),
            final(self).space.spec_used() == old(self).space.spec_used(),
            final(self).roots == old(self).roots,
            final(self).worklist@.len() >= old(self).worklist@.len(),
            unmarked(final(self).space.spec_heap()@, old(self).space.spec_heap().cap() / 16)
                <= unmarked(old(self).space.spec_heap()@, old(self).space.spec_heap().cap() / 16),
            final(self).worklist@.len() > old(self).worklist@.len() ==> unmarked(
                final(self).space.spec_heap()@,
                old(self).space.spec_heap().cap() / 16,
            ) < unmarked(old(self).space.spec_heap()@, old(self).space.spec_heap().cap() / 16),
            forall|g: Handle|
                g.0 % 16 == 0 && g.0 + 16 <= old(self).space.spec_heap().cap() && old(self).space.spec_heap().spec_flag(g, FLAG_MARK)
                    ==> #[trigger] final(self).space.spec_heap().spec_flag(g, FLAG_MARK),
            forall|g: Handle|
                g.0 % 16 == 0 && g.0 + 16 <= old(self).space.spec_heap().cap() ==> #[trigger] final(self).space.spec_heap().spec_size(g)
                    == old(self).space.spec_heap().spec_size(g),
            old(self).space.spec_heap().spec_in_bounds(h) ==> final(self).space.spec_heap().spec_flag(
                h,
                FLAG_MARK,
            ),
            visited(
                old(self).space.spec_heap(),
                old(self).worklist@,
                h,
                final(self).space.spec_heap(),
                final(self).worklist@,
            ),
    {
        proof {
            self.space.lemma_wf();
        }
        let ghost cap = self.space.spec_heap().cap();
        if !self.space.heap().in_bounds(h) || self.space.heap().is_marked(h) {
            assert(self.worklist@ =~= old(self).worklist@ + Seq::<Handle>::empty());
            return;
        }
        let ghost before = self.space.spec_heap();
        self.space.heap_mut().set_marked(h, true);
        proof {
            let f = before.spec_flags(h);
            assert((f | 1u8) & 1u8 != 0) by (bit_vector);
            lemma_count_unsat_set(
                before@,
                self.space.spec_heap()@,
                cap / 16,
                6,
                |x: u8| x & FLAG_MARK != 0,
                h.0 as int,
                f | FLAG_MARK,
            );
            assert forall|g: Handle| g.0 % 16 == 0 && g.0 + 16 <= cap && before.spec_flag(g, FLAG_MARK) implies
                #[trigger] self.space.spec_heap().spec_flag(g, FLAG_MARK) by {
                lemma_mark_monotone(before, self.space.spec_heap(), h, g);
            }
            assert forall|g: Handle| g.0 % 16 == 0 && g.0 + 16 <= cap implies
                #[trigger] self.space.spec_heap().spec_size(g) == before.spec_size(g) by {
                lemma_mark_monotone(before, self.space.spec_heap(), h, g);
            }
            self.space.lemma_wf();
        }
        self.stats.objects_marked = self.stats.objects_marked.saturating_add(1);
        let n = self.space.heap().nrefs(h) as u32;
        if 16 + 4 * n <= self.space.capacity() - h.0 {
            let children = self.space.heap().children(h);
            proof {
                crate::trace::lemma_flag_write_keeps_children(
                    before,
                    self.space.spec_heap(),
                    h,
                    before.spec_flags(h) | FLAG_MARK,
                );
            }
            let ghost sp = self.space;
            let mut k: usize = 0;
            while k < children.len()
                invariant
                    same_collections(old(self).stats, self.stats),
                    self.space == sp,
                    self.roots == old(self).roots,
                    k <= children@.len(),
                    self.worklist@ == old(self).worklist@ + children@.subrange(0, k as int),
                decreases children@.len() - k,
            {
                self.worklist.push(children[k]);
                k = k + 1;
                assert(self.worklist@ =~= old(self).worklist@ + children@.subrange(0, k as int));
            }
            assert(children@.subrange(0, children@.len() as int) =~= children@);
        } else {
            assert(self.worklist@ =~= old(self).worklist@ + Seq::<Handle>::empty());
        }
    }

    /// Set the mark bit on every object reachable from the roots.
    ///
    /// Every root, on the shadow stack or bound to a global, that addresses
    /// a well-formed object ends up marked, and no mark is ever cleared. The
    /// traversal runs on an explicit worklist, and an object is scanned only
    /// the first time it is reached: each scan is counted in
    /// `objects_marked`.
    ///
    /// On a heap whose reachable objects are laid out sanely and carry no
    /// stale mark, every reachable object ends up marked and nothing but
    /// their mark bits changes.
    pub fn mark_from_roots(&mut self)
        requires
            old(self).gc_inv(),
        ensures
            same_collections(old(self).gc_stats(), final(self).gc_stats()),
            final(self).gc_inv(),
            final(self).gc_heap().cap() == old(self).gc_heap().cap(),
            final(self).gc_roots() == old(self).gc_roots(),
            final(self).gc_used() == old(self).gc_used(),
            final(self).spec_space().free_list() == old(self).spec_space().free_list(),
            final(self).spec_space().spec_bump() == old(self).spec_space().spec_bump(),
            forall|h: Handle|
                #[trigger] traceable_root(old(self).gc_heap(), old(self).gc_roots(), h) ==> final(self).gc_heap().spec_flag(h, FLAG_MARK),
            trace_ready(old(self).gc_heap(), old(self).gc_roots().slots()) ==> {
                &&& flags_only(old(self).gc_heap(), old(self).gc_roots().slots(), final(self).gc_heap())
                &&& forall|h: Handle| #[trigger]
                    reachable(old(self).gc_heap(), old(self).gc_roots().slots(), h) ==> final(self).gc_heap().spec_flag(h, FLAG_MARK)
            },
    {
        let roots = self.roots.iter();
        self.worklist.clear();
        let ghost cap = self.space.spec_heap().cap();
        let ghost heap0 = self.space.spec_heap();
        let ghost slots = self.roots.slots();
        let ghost ready = trace_ready(heap0, slots);
        proof {
            self.space.lemma_wf();
            if ready {
                lemma_mark_start(heap0, slots);
                assert(self.worklist@ =~= Seq::<Handle>::empty());
            }
        }
        // Mark the roots themselves first, so that what they address is
        // marked however the traversal below goes.
        let mut i: usize = 0;
        while i < roots.len()
            invariant
                same_collections(old(self).stats, self.stats),
                self.space.wf(),
                self.space.spec_heap().cap() == cap,
                self.space.spec_used() == old(self).space.spec_used(),
                self.roots == old(self).roots,
                heap0.cap() == cap,
                i <= roots@.len(),
                forall|j: int|
                    0 <= j < i && heap0.spec_in_bounds(#[trigger] roots@[j]) ==> self.space.spec_heap().spec_flag(
                        roots@[j],
                        FLAG_MARK,
                    ),
                forall|g: Handle|
                    g.0 % 16 == 0 && g.0 + 16 <= cap ==> #[trigger] self.space.spec_heap().spec_size(g)
                        == heap0.spec_size(g),
                heap0.wf(),
                self.space.free_list() == old(self).space.free_list(),
                self.space.spec_bump() == old(self).space.spec_bump(),
                slots == self.roots.slots(),
                ready == trace_ready(heap0, slots),
                forall|h: Handle| #[trigger] roots@.contains(h) <==> slots.contains(h) && h.0 != NULL_ADDR,
                ready ==> marking(heap0, slots, self.space.spec_heap(), self.worklist@),
            decreases roots@.len() - i,
        {
            let r = roots[i];
            proof {
                if heap0.spec_in_bounds(r) {
                    assert(self.space.spec_heap().spec_size(r) == heap0.spec_size(r));
                    assert(self.space.spec_heap().spec_in_bounds(r));
                }
            }
            let ghost now = self.space.spec_heap();
            let ghost w = self.worklist@;
            self.visit(r);
            proof {
                if ready {
                    assert(roots@.contains(r));
                    if heap0.spec_in_bounds(r) {
                        lemma_root_reachable(heap0, slots, r);
                    }
                    lemma_visited_steps(now, w, r, self.space.spec_heap(), self.worklist@);
                    lemma_mark_step(heap0, slots, now, w, w, r, self.space.spec_heap(), self.worklist@);
                }
            }
            i = i + 1;
        }
        proof {
            assert(heap0 == old(self).gc_heap());
            assert forall|h: Handle| #[trigger]
                traceable_root(heap0, old(self).roots, h) implies self.space.spec_heap().spec_flag(
                h,
                FLAG_MARK,
            ) by {
                assert(roots@.contains(h));
                let j = choose|j: int| 0 <= j < roots@.len() && roots@[j] == h;
                assert(heap0.spec_in_bounds(roots@[j]));
            }
        }
        while self.worklist.len() > 0
            invariant
                same_collections(old(self).stats, self.stats),
                self.space.wf(),
                self.space.spec_heap().cap() == cap,
                self.space.spec_used() == old(self).space.spec_used(),
                self.roots == old(self).roots,
                heap0.cap() == cap,
                forall|h: Handle|
                    #[trigger] traceable_root(heap0, old(self).roots, h) ==> self.space.spec_heap().spec_flag(
                        h,
                        FLAG_MARK,
                    ),
                heap0.wf(),
                self.space.free_list() == old(self).space.free_list(),
                self.space.spec_bump() == old(self).space.spec_bump(),
                slots == old(self).roots.slots(),
                ready == trace_ready(heap0, slots),
                ready ==> marking(heap0, slots, self.space.spec_heap(), self.worklist@),
            decreases unmarked(self.space.spec_heap()@, cap / 16), self.worklist@.len(),
        {
            let ghost pending = self.worklist@;
            let h = self.worklist.pop().unwrap();
            let ghost rest = self.worklist@;
            proof {
                assert(pending =~= rest.push(h));
                assert forall|c: Handle| #[trigger] pending.contains(c) implies rest.contains(c) || c == h by {
                    let j = choose|j: int| 0 <= j < pending.len() && pending[j] == c;
                    if j < rest.len() {
                        assert(rest[j] == c);
                    }
                }
                assert forall|c: Handle| #[trigger] rest.contains(c) implies pending.contains(c) by {
                    let j = choose|j: int| 0 <= j < rest.len() && rest[j] == c;
                    assert(pending[j] == c);
                }
                assert(pending[pending.len() - 1] == h);
                assert(pending.contains(h));
            }
            let ghost prev = self.space.spec_heap();
            proof {
                assert forall|g: Handle| #[trigger] traceable_root(heap0, old(self).roots, g) implies prev.spec_flag(
                    g,
                    FLAG_MARK,
                ) by {}
            }
            self.visit(h);
            proof {
                assert forall|g: Handle| #[trigger] traceable_root(heap0, old(self).roots, g) implies self.space.spec_heap().spec_flag(
                    g,
                    FLAG_MARK,
                ) by {
                    assert(prev.spec_flag(g, FLAG_MARK));
                    assert(g.0 % 16 == 0 && g.0 + 16 <= cap);
                }
                if ready {
                    lemma_visited_steps(prev, rest, h, self.space.spec_heap(), self.worklist@);
                    lemma_mark_step(heap0, slots, prev, pending, rest, h, self.space.spec_heap(), self.worklist@);
                }
            }
        }
        proof {
            if ready {
                assert(self.worklist@ =~= Seq::<Handle>::empty());
                assert forall|r: Handle| #[trigger] slots.contains(r) && heap0.spec_in_bounds(r) implies self.space.spec_heap().spec_flag(
                    r,
                    FLAG_MARK,
                ) by {
                    assert(traceable_root(heap0, old(self).roots, r));
                }
                lemma_mark_done(heap0, slots, self.space.spec_heap());
            }
        }
    }

    /// Walk the heap and return every unmarked object to the allocator,
    /// clearing the mark on every survivor.
    ///
    /// On a walkable space, every marked live block survives with its mark
    /// cleared and every other byte as it was, no unmarked live block stays
    /// live, and the space is still walkable.
    fn sweep(&mut self)
        requires
            old(self).space.wf(),
        ensures
            same_collections(old(self).stats, final(self).stats),
            final(self).space.wf(),
            final(self).space.spec_heap().cap() == old(self).space.spec_heap().cap(),
            final(self).roots == old(self).roots,
            old(self).space.walkable() ==> final(self).space.walkable() && swept(
                old(self).space.spec_heap(),
                old(self).space.spec_bump(),
                final(self).space.spec_heap(),
                final(self).space.spec_bump(),
            ),
    {
        let mut doomed: Vec<Handle> = Vec::new();
        proof {
            self.space.lemma_wf();
        }
        let ghost sp0 = self.space;
        let ghost b0 = self.space.spec_heap();
        let ghost ok = self.space.walkable();
        let bump = self.space.bump_pointer();
        let cap = self.space.capacity();
        let ghost cap0 = self.space.spec_heap().cap();
        let ghost end = bump as int;
        proof {
            if ok {
                lemma_sweeping_start(self.space);
            }
        }
        let mut at: u32 = 0;
        while at < bump
            invariant
                same_collections(old(self).stats, self.stats),
                self.space.wf(),
                self.space.spec_heap().cap() == cap0,
                cap == cap0,
                bump <= cap,
                self.roots == old(self).roots,
                b0 == sp0.spec_heap(),
                end == bump,
                b0.wf(),
                end <= b0.cap(),
                self.space.free_list() == sp0.free_list(),
                self.space.spec_bump() == sp0.spec_bump(),
                sp0.spec_bump() == end,
                at <= bump,
                ok ==> sweeping(b0, end, self.space.spec_heap(), at as int, doomed@),
            ensures
                ok ==> at == end,
                ok ==> sweeping(b0, end, self.space.spec_heap(), at as int, doomed@),
                self.space.wf(),
                self.space.spec_heap().cap() == cap0,
                self.roots == old(self).roots,
                self.space.free_list() == sp0.free_list(),
                self.space.spec_bump() == sp0.spec_bump(),
            decreases bump - at,
        {
            proof {
                self.space.lemma_wf();
                if ok {
                    lemma_sweeping_here(b0, end, self.space.spec_heap(), at as int, doomed@);
                }
            }
            let h = Handle(at);
            if at % 16 != 0 || at > cap - 16 {
                break;
            }
            let size = self.space.heap().size(h);
            if size < 16 || size > bump - at {
                break;
            }
            let ghost now = self.space.spec_heap();
            let ghost dm = doomed@;
            let ghost at0 = at as int;
            at = at + size;
            if self.space.is_free(h) {
                proof {
                    if ok {
                        lemma_sweeping_step(b0, end, now, at0, dm, self.space.spec_heap(), doomed@);
                    }
                }
                continue;
            }
            if !self.space.heap().is_marked(h) {
                doomed.push(h);
            } else {
                self.space.heap_mut().set_marked(h, false);
            }
            proof {
                if ok {
                    lemma_sweeping_step(b0, end, now, at0, dm, self.space.spec_heap(), doomed@);
                }
            }
        }

        let ghost sp1 = self.space;
        proof {
            if ok {
                lemma_freeing_start(sp0, sp1, end, doomed@);
            }
        }
        let mut d: usize = 0;
        while d < doomed.len()
            invariant
                same_collections(old(self).stats, self.stats),
                self.space.wf(),
                self.space.spec_heap().cap() == cap0,
                self.roots == old(self).roots,
                d <= doomed@.len(),
                b0.wf(),
                ok ==> freeing(b0, end, self.space, doomed@, d as int),
            decreases doomed@.len() - d,
        {
            let h = doomed[d];
            proof {
                if ok {
                    lemma_freeing_can_free(b0, end, self.space, doomed@, d as int);
                }
            }
            if self.space.can_free(h) {
                proof {
                    self.space.lemma_wf();
                }
                let ghost before = self.space;
                let size = self.space.heap().size(h);
                self.space.free(h);
                proof {
                    if ok {
                        lemma_freeing_step(b0, end, before, doomed@, d as int, self.space);
                    }
                }
                self.stats.objects_freed = self.stats.objects_freed.saturating_add(1);
                self.stats.bytes_freed = self.stats.bytes_freed.saturating_add(size as u64);
            }
            d = d + 1;
        }
        let ghost sp2 = self.space;
        proof {
            if ok {
                reveal(freeing);
            }
        }
        self.space.coalesce();
        proof {
            if ok {
                lemma_sweep_done(b0, end, sp2, doomed@, self.space);
            }
        }
    }
}

impl Collector for MarkSweep {
    closed spec fn gc_heap(&self) -> Heap {
        self.space.spec_heap()
    }

    closed spec fn gc_roots(&self) -> Roots {
        self.roots
    }

    closed spec fn gc_stats(&self) -> GcStats {
        self.stats
    }

    closed spec fn gc_used(&self) -> int {
        self.space.spec_used()
    }

    closed spec fn gc_inv(&self) -> bool {
        self.space.wf()
    }

    proof fn lemma_inv_heap(&self) {
        self.space.lemma_wf();
    }

    fn name(&self) -> &'static str {
        "mark and sweep"
    }

    fn heap(&self) -> (r: &Heap) {
        self.space.heap()
    }

    fn heap_mut(&mut self) -> (r: &mut Heap) {
        self.space.heap_mut()
    }

    fn roots(&self) -> (r: &Roots) {
        &self.roots
    }

    fn roots_mut(&mut self) -> (r: &mut Roots) {
        &mut self.roots
    }

    fn stats(&self) -> (r: &GcStats) {
        &self.stats
    }

    fn used_bytes(&self) -> (r: u32) {
        self.space.used_bytes()
    }

    /// Allocation succeeds at once whenever the space has room for the
    /// object and the heap has not reached the threshold that makes it
    /// collect first.
    fn allocate(&mut self, nrefs: u16, ndata: u32) -> (r: Result<Handle, GcError>)
        ensures
            !(old(self).spec_thrashing() < THRASH_LIMIT && old(self).spec_space().spec_used()
                >= old(self).spec_threshold()) && old(self).spec_space().room_for(spec_size_for(nrefs as int, ndata as int)) ==> r is Ok,
    {
        let worth_collecting = self.thrashing < THRASH_LIMIT;

        if worth_collecting && self.space.used_bytes() >= self.threshold {
            self.collect();
        }
        if let Some(h) = self.space.allocate(nrefs, ndata) {
            return Ok(self.account(h));
        }
        if worth_collecting {
            self.collect();
            if let Some(h) = self.space.allocate(nrefs, ndata) {
                return Ok(self.account(h));
            }
        }
        self.stats.allocation_failures = self.stats.allocation_failures.saturating_add(1);
        Err(
            GcError::OutOfMemory {
                requested: Heap::size_for(nrefs, ndata),
                used: self.space.used_bytes(),
                capacity: self.space.capacity(),
            },
        )
    }

    /// Tracing collectors need no write barrier: the next collection walks
    /// the graph from scratch and sees whatever the mutator has built.
    fn write_field(&mut self, obj: Handle, i: u16, val: Handle)
        ensures
            final(self).gc_heap().spec_field(obj, i as int) == val.0,
            crate::heap::same_outside(
                final(self).gc_heap()@,
                old(self).gc_heap()@,
                obj.0 + 16 + 4 * i,
                obj.0 + 16 + 4 * i + 4,
            ),
            final(self).gc_stats() == old(self).gc_stats(),
    {
        proof {
            self.space.lemma_wf();
        }
        self.space.heap_mut().set_field(obj, i, val);
    }

    /// A collection marks from the roots and sweeps. On a collectable heap
    /// every reachable object survives as a live, unmarked block with every
    /// byte but its flags as it was, every live block that is not reachable
    /// is reclaimed, and the space stays walkable.
    fn collect(&mut self)
        ensures
            collectable(old(self).spec_space(), old(self).gc_roots().slots()) ==> {
                let h0 = old(self).gc_heap();
                let e0 = old(self).spec_space().spec_bump();
                let h2 = final(self).gc_heap();
                let e2 = final(self).spec_space().spec_bump();
                let slots = old(self).gc_roots().slots();
                &&& final(self).spec_space().walkable()
                &&& forall|g: Handle| #[trigger]
                    reachable(h0, slots, g) ==> live_block(h2, e2, g.0 as int, false) && forall|j: int|
                        g.0 <= j < g.0 + h0.spec_size(g) && j != g.0 + 6 ==> #[trigger] h2@[j] == h0@[j]
                &&& forall|x: int| #[trigger]
                    live_block(h0, e0, x, false) && !reachable(h0, slots, Handle(x as u32)) ==> !live_block(h2, e2, x, false)
            },
    {
        let start = clock::now();
        let before = self.space.used_bytes();
        let ghost sp0 = self.space;
        let ghost slots = self.roots.slots();

        self.mark_from_roots();
        let ghost sp1 = self.space;
        self.sweep();
        proof {
            if collectable(sp0, slots) {
                sp0.lemma_wf();
                sp1.lemma_wf();
                lemma_after_marking(sp0, sp1, slots);
                let h0 = sp0.spec_heap();
                let h1 = sp1.spec_heap();
                let h2 = self.space.spec_heap();
                let e2 = self.space.spec_bump();
                assert forall|g: Handle| #[trigger] reachable(h0, slots, g) implies live_block(h2, e2, g.0 as int, false)
                    && forall|j: int| g.0 <= j < g.0 + h0.spec_size(g) && j != g.0 + 6 ==> #[trigger] h2@[j] == h0@[j] by {
                    assert(live_block(h1, sp1.spec_bump(), g.0 as int, true));
                    lemma_on_tiles_facts(h0@, 0, sp0.spec_bump(), g.0 as int);
                    assert(h1@[g.0 as int] == h0@[g.0 as int]);
                    assert(h1@[g.0 + 1] == h0@[g.0 + 1]);
                    assert(h1@[g.0 + 2] == h0@[g.0 + 2]);
                    assert(h1@[g.0 + 3] == h0@[g.0 + 3]);
                    assert forall|j: int| g.0 <= j < g.0 + h0.spec_size(g) && j != g.0 + 6 implies #[trigger] h2@[j] == h0@[j] by {
                        assert(h2@[j] == h1@[j]);
                    }
                }
                assert forall|x: int| #[trigger]
                    live_block(h0, sp0.spec_bump(), x, false) && !reachable(h0, slots, Handle(x as u32)) implies !live_block(
                    h2,
                    e2,
                    x,
                    false,
                ) by {
                    assert(live_block(h1, sp1.spec_bump(), x, false));
                }
            }
        }

        // Aim to let the heap roughly double before collecting again.
        let live = self.space.used_bytes();
        let capacity = self.space.capacity();
        let doubled = if live > u32::MAX / 2 {
            u32::MAX
        } else {
            live * 2
        };
        let floor = if doubled > MIN_THRESHOLD {
            doubled
        } else {
            MIN_THRESHOLD
        };
        self.threshold = if floor < capacity {
            floor
        } else {
            capacity
        };

        let reclaimed = before.saturating_sub(live);
        if live > capacity / 16 * 15 && reclaimed < capacity / 32 {
            self.thrashing = self.thrashing.saturating_add(1);
        } else {
            self.thrashing = 0;
        }

        self.stats.collections = self.stats.collections.saturating_add(1);
        self.stats.major_collections = self.stats.major_collections.saturating_add(1);
        let pause = clock::nanos_since(&start);
        self.stats.record_pause(pause);
    }
}

} // verus!
