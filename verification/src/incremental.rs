//! Incremental tri-colour marking.
//!
//! Marking is done a little at a time, driven by allocation, with the
//! mutator running in between. Every object is white (not yet reached), grey
//! (reached, its references not yet looked at) or black (finished). Marking
//! starts by shading the roots grey and ends when nothing is grey; the grey
//! set is the marker's worklist.
//!
//! The invariant is that no black object refers to a white one. The mutator
//! can break it with a single store, so every store runs a barrier: this
//! collector marks by incremental update, and shades the value being stored
//! (Dijkstra's barrier) while a cycle is in progress. An object allocated
//! mid-cycle was never reachable when the roots were shaded, so it is born
//! black. An object that dies after being marked survives the cycle as
//! floating garbage, and is collected by the next one.
//!
//! Colours belong to one cycle: the sweep frees every white object and
//! returns every survivor to white.

use crate::clock;
use crate::compact::{lemma_reaches_stop, lemma_walk_progress, reaches, step_ok, walk_block, walk_stop, walked};
use crate::collector::{Collector, GcError};
use crate::heap::{spec_size_for, le32, Handle, Heap, BLACK, FLAG_FREE, GREY, NULL_ADDR, WHITE};
use crate::roots::Roots;
use crate::space::{
    count_unsat, free_blocks_stay_free, lemma_count_unsat_set, live_blocks_kept, tiles, FreeListSpace,
};
use crate::tiling::{
    lemma_on_tiles_facts, lemma_tiles_apart, lemma_tiles_frame, lemma_tiles_next, lemma_tiles_no_start_inside, on_tiles,
};
use crate::stats::{counted_allocation, same_collections, sat_add, GcStats};
use crate::trace::reachable;
use crate::tricolour::{
    colour_ready, colours_only, keeps_tricolour, lemma_blacken_ready, lemma_blacken_step, lemma_scanned_child_reachable,
    lemma_scanned_reachable, lemma_shade_effect, lemma_shade_step, lemma_shade_step_pending, lemma_skip_step,
    only_colours, tricolour,
};
use vstd::prelude::*;

verus! {

/// Start a cycle once this many bytes are in use.
pub const MIN_THRESHOLD: u32 = 65536;

/// Objects blackened per allocation while a cycle is in progress.
pub const MARK_BUDGET: usize = 8;

/// Objects blackened per step when finishing a cycle in one go.
pub const DRAIN_BUDGET: usize = 64;

#[derive(Clone, Copy, PartialEq, Eq, Structural, Debug)]
pub enum Phase {
    /// No cycle in progress. Every object is white.
    Idle,
    /// A cycle is in progress and the grey set is the wavefront.
    Marking,
}

/// Every grey handle addresses a well-formed block of `heap`.
pub open spec fn greys_in_bounds(heap: Heap, grey: Seq<Handle>) -> bool {
    forall|i: int| 0 <= i < grey.len() ==> heap.spec_in_bounds(#[trigger] grey[i])
}

/// Recolouring keeps every grey handle addressing a block.
proof fn lemma_greys_recoloured(a: Heap, b: Heap, g: Seq<Handle>)
    requires
        only_colours(a, b),
        greys_in_bounds(a, g),
    ensures
        greys_in_bounds(b, g),
{
    assert forall|i: int| 0 <= i < g.len() implies b.spec_in_bounds(#[trigger] g[i]) by {
        crate::tricolour::lemma_only_colours_header(a, b, g[i]);
    }
}

/// Shading `c` keeps every grey handle addressing a block: only a white
/// block is added to the grey set.
proof fn lemma_shade_keeps_greys(a: Heap, ga: Seq<Handle>, c: Handle, b: Heap, gb: Seq<Handle>)
    requires
        greys_in_bounds(a, ga),
        only_colours(a, b),
        a.spec_in_bounds(c) && a.spec_color(c) == WHITE ==> gb == ga.push(c),
        !(a.spec_in_bounds(c) && a.spec_color(c) == WHITE) ==> gb == ga,
    ensures
        greys_in_bounds(b, gb),
{
    lemma_greys_recoloured(a, b, ga);
    crate::tricolour::lemma_only_colours_header(a, b, c);
    assert forall|i: int| 0 <= i < gb.len() implies b.spec_in_bounds(#[trigger] gb[i]) by {
        if i < ga.len() {
            assert(gb[i] == ga[i]);
        }
    }
}

/// Popping the last grey handle leaves the rest addressing blocks.
proof fn lemma_pop_keeps_greys(h: Heap, pending: Seq<Handle>, rest: Seq<Handle>)
    requires
        greys_in_bounds(h, pending),
        pending.len() > 0,
        rest == pending.drop_last(),
    ensures
        greys_in_bounds(h, rest),
        h.spec_in_bounds(pending.last()),
{
    assert forall|i: int| 0 <= i < rest.len() implies h.spec_in_bounds(#[trigger] rest[i]) by {
        assert(rest[i] == pending[i]);
    }
    assert(pending[pending.len() - 1] == pending.last());
}

/// How many headers are still white: shading and blackening lower it.
pub open spec fn whites(b: Seq<u8>, k: int) -> nat {
    count_unsat(b, k, 7, |x: u8| x != WHITE)
}

/// `x` is a block of the walk of `b` up to `end` that is not flagged free.
pub open spec fn in_use(b: Heap, end: int, x: int) -> bool {
    &&& on_tiles(b@, 0, end, x)
    &&& !b.spec_flag(Handle(x as u32), FLAG_FREE)
}

/// `x` is a block of the walk of `b` up to `end`, not flagged free, which
/// is white exactly when `white` holds.
pub open spec fn colour_block(b: Heap, end: int, x: int, white: bool) -> bool {
    &&& on_tiles(b@, 0, end, x)
    &&& (b.spec_color(Handle(x as u32)) == WHITE) == white
    &&& !b.spec_flag(Handle(x as u32), FLAG_FREE)
}

/// What a sweep promises of a walkable space: every live block that is not
/// white survives as a white live block with every other byte as it was,
/// and every white live block is live no more.
pub open spec fn whitened(a: Heap, end_a: int, b: Heap, end_b: int) -> bool {
    &&& forall|x: int| #[trigger]
        colour_block(a, end_a, x, false) ==> colour_block(b, end_b, x, true) && forall|j: int|
            x <= j < x + le32(a@, x) && j != x + 7 ==> #[trigger] b@[j] == a@[j]
    &&& forall|x: int| #[trigger] colour_block(a, end_a, x, true) ==> !in_use(b, end_b, x)
}

/// The first pass of a sweep, up to `at`: every shaded live block below
/// `at` has been turned white and nothing else has changed, every white
/// live block below `at` is in `doomed`, which lists such blocks in
/// ascending order, and the walk goes on from `at`.
#[verifier::opaque]
pub open spec fn whitening(b0: Heap, end: int, now: Heap, at: int, doomed: Seq<Handle>) -> bool {
    &&& 0 <= at <= end
    &&& tiles(b0@, 0, end)
    &&& tiles(b0@, at, end)
    &&& at < end ==> on_tiles(b0@, 0, end, at)
    &&& now@.len() == b0@.len()
    &&& forall|i: int|
        #![trigger now@[i]]
        0 <= i < b0@.len() && now@[i] != b0@[i] ==> 7 <= i && i - 7 < at && colour_block(b0, end, i - 7, false)
    &&& forall|x: int| #[trigger]
        colour_block(b0, end, x, false) && x < at ==> now.spec_color(Handle(x as u32)) == WHITE
    &&& forall|i: int|
        0 <= i < doomed.len() ==> colour_block(b0, end, #[trigger] doomed[i].0 as int, true) && doomed[i].0 < at
    &&& forall|i: int, j: int| 0 <= i < j < doomed.len() ==> doomed[i].0 < doomed[j].0
    &&& forall|x: int| #[trigger] colour_block(b0, end, x, true) && x < at ==> doomed.contains(Handle(x as u32))
}

/// A sweep starts at the bottom of a walkable heap with nothing done.
proof fn lemma_whitening_start(sp: FreeListSpace)
    requires
        sp.walkable(),
        sp.spec_bump() <= sp.spec_heap().cap(),
    ensures
        whitening(sp.spec_heap(), sp.spec_bump(), sp.spec_heap(), 0, Seq::empty()),
{
    reveal(whitening);
    let b = sp.spec_heap()@;
    let end = sp.spec_bump();
    if 0 < end {
        assert(on_tiles(b, 0, end, 0));
    }
    assert forall|x: int| #[trigger] colour_block(sp.spec_heap(), end, x, true) && x < 0 implies Seq::<
        Handle,
    >::empty().contains(Handle(x as u32)) by {
        lemma_on_tiles_facts(b, 0, end, x);
    }
    assert forall|x: int| #[trigger] colour_block(sp.spec_heap(), end, x, false) && x < 0 implies sp.spec_heap().spec_color(
        Handle(x as u32),
    ) == WHITE by {
        lemma_on_tiles_facts(b, 0, end, x);
    }
}

/// The block at `at` reads as it did when the sweep began.
#[verifier::spinoff_prover]
#[verifier::rlimit(40)]
proof fn lemma_whitening_here(b0: Heap, end: int, now: Heap, at: int, doomed: Seq<Handle>)
    requires
        b0.wf(),
        end <= b0.cap(),
        whitening(b0, end, now, at, doomed),
        at < end,
    ensures
        at % 16 == 0,
        at + 16 <= b0.cap(),
        now.spec_size(Handle(at as u32)) == b0.spec_size(Handle(at as u32)),
        16 <= b0.spec_size(Handle(at as u32)),
        at + b0.spec_size(Handle(at as u32)) <= end,
        now.spec_flags(Handle(at as u32)) == b0.spec_flags(Handle(at as u32)),
        now.spec_color(Handle(at as u32)) == b0.spec_color(Handle(at as u32)),
{
    reveal(whitening);
    lemma_on_tiles_facts(b0@, 0, end, at);
    if now@[at] != b0@[at] {
        lemma_on_tiles_facts(b0@, 0, end, at - 7);
    }
    if now@[at + 1] != b0@[at + 1] {
        lemma_on_tiles_facts(b0@, 0, end, at + 1 - 7);
    }
    if now@[at + 2] != b0@[at + 2] {
        lemma_on_tiles_facts(b0@, 0, end, at + 2 - 7);
    }
    if now@[at + 3] != b0@[at + 3] {
        lemma_on_tiles_facts(b0@, 0, end, at + 3 - 7);
    }
    if now@[at + 6] != b0@[at + 6] {
        lemma_on_tiles_facts(b0@, 0, end, at + 6 - 7);
    }
    assert(now@[at + 7] == b0@[at + 7]);
    assert(Handle(at as u32).0 == at);
}

/// Stepping past the block at `at`: a free block is passed over, a white
/// one joins `doomed`, any other is turned white.
#[verifier::spinoff_prover]
proof fn lemma_whitening_step(
    b0: Heap,
    end: int,
    now: Heap,
    at: int,
    doomed: Seq<Handle>,
    now2: Heap,
    doomed2: Seq<Handle>,
)
    requires
        b0.wf(),
        end <= b0.cap(),
        whitening(b0, end, now, at, doomed),
        at < end,
        ({
            let h = Handle(at as u32);
            if b0.spec_flag(h, FLAG_FREE) {
                now2 == now && doomed2 == doomed
            } else if b0.spec_color(h) == WHITE {
                now2 == now && doomed2 == doomed.push(h)
            } else {
                now2@ == now@.update(at + 7, WHITE) && doomed2 == doomed
            }
        }),
    ensures
        whitening(b0, end, now2, at + b0.spec_size(Handle(at as u32)), doomed2),
{
    lemma_whitening_here(b0, end, now, at, doomed);
    reveal(whitening);
    let h = Handle(at as u32);
    let s = b0.spec_size(h);
    let nx = at + s;
    lemma_tiles_next(b0@, 0, end, at);
    assert(h.0 == at);
    assert(tiles(b0@, nx, end));
    // Block starts below `nx` are those below `at`, and `at` itself.
    assert forall|x: int| #[trigger] on_tiles(b0@, 0, end, x) && x < nx && x != at implies x < at by {
        if x > at {
            lemma_tiles_no_start_inside(b0@, 0, end, at, x);
        }
    }
    assert forall|i: int|
        #![trigger now2@[i]]
        0 <= i < b0@.len() && now2@[i] != b0@[i] implies 7 <= i && i - 7 < nx && colour_block(b0, end, i - 7, false) by {
        if now2@[i] == now@[i] {
        } else {
            assert(i == at + 7);
            assert(Handle((i - 7) as u32) == h);
        }
    }
    assert forall|x: int| #[trigger] colour_block(b0, end, x, false) && x < nx implies now2.spec_color(Handle(x as u32))
        == WHITE by {
        lemma_on_tiles_facts(b0@, 0, end, x);
        if x != at {
            assert(x < at);
            assert(now2@[x + 7] == now@[x + 7]);
        } else {
            assert(Handle(x as u32) == h);
        }
    }
    assert forall|i: int| 0 <= i < doomed2.len() implies colour_block(b0, end, #[trigger] doomed2[i].0 as int, true)
        && doomed2[i].0 < nx by {
        if i < doomed.len() {
            assert(doomed2[i] == doomed[i]);
        }
    }
    assert forall|x: int| #[trigger] colour_block(b0, end, x, true) && x < nx implies doomed2.contains(
        Handle(x as u32),
    ) by {
        if x != at {
            assert(x < at);
            assert(doomed.contains(Handle(x as u32)));
            let k = choose|k: int| 0 <= k < doomed.len() && doomed[k] == Handle(x as u32);
            assert(doomed2[k] == doomed[k]);
        } else {
            assert(Handle(x as u32) == h);
            assert(doomed2[doomed.len() as int] == h);
        }
    }
}

/// The second pass of a sweep, `d` blocks into `doomed`: the space is
/// still walkable with the same block starts, the doomed blocks before `d`
/// are free and those from `d` on untouched, and every shaded live block
/// is white with every other byte as it was.
#[verifier::opaque]
pub open spec fn reclaiming(b0: Heap, end: int, sp: FreeListSpace, doomed: Seq<Handle>, d: int) -> bool {
    &&& sp.walkable()
    &&& sp.spec_bump() == end
    &&& end <= b0@.len()
    &&& tiles(b0@, 0, end)
    &&& sp.spec_heap()@.len() == b0@.len()
    &&& forall|y: int| #[trigger] on_tiles(sp.spec_heap()@, 0, end, y) == on_tiles(b0@, 0, end, y)
    &&& 0 <= d <= doomed.len()
    &&& forall|i: int| 0 <= i < doomed.len() ==> colour_block(b0, end, #[trigger] doomed[i].0 as int, true)
    &&& forall|i: int, j: int| 0 <= i < j < doomed.len() ==> doomed[i].0 < doomed[j].0
    &&& forall|i: int, j: int|
        d <= i < doomed.len() && doomed[i].0 <= j < doomed[i].0 + 16 ==> #[trigger] sp.spec_heap()@[j] == b0@[j]
            && #[trigger] doomed[i] == doomed[i]
    &&& forall|i: int| 0 <= i < d ==> sp.spec_heap().spec_flag(#[trigger] doomed[i], FLAG_FREE)
    &&& forall|x: int| #[trigger]
        colour_block(b0, end, x, false) ==> sp.spec_heap().spec_color(Handle(x as u32)) == WHITE && forall|j: int|
            x <= j < x + le32(b0@, x) && j != x + 7 ==> #[trigger] sp.spec_heap()@[j] == b0@[j]
    &&& forall|x: int| #[trigger] colour_block(b0, end, x, true) ==> doomed.contains(Handle(x as u32))
}

/// Whitening touches only colour bytes of block starts, which are no
/// block's size or flags; so the first pass ends with the space still
/// walkable and the second pass ready to start.
#[verifier::spinoff_prover]
proof fn lemma_reclaiming_start(sp0: FreeListSpace, sp1: FreeListSpace, end: int, doomed: Seq<Handle>)
    requires
        sp0.wf(),
        sp0.walkable(),
        end == sp0.spec_bump(),
        whitening(sp0.spec_heap(), end, sp1.spec_heap(), end, doomed),
        sp1.free_list() == sp0.free_list(),
        sp1.spec_bump() == end,
    ensures
        reclaiming(sp0.spec_heap(), end, sp1, doomed, 0),
{
    reveal(whitening);
    reveal(reclaiming);
    sp0.lemma_wf();
    let b0 = sp0.spec_heap();
    let b1 = sp1.spec_heap();
    // A byte that changed is the colour byte of a block start, which is no
    // other block start's size, header or payload.
    assert forall|x: int, j: int|
        #[trigger] on_tiles(b0@, 0, end, x) && x <= j < x + le32(b0@, x) && j != x + 7 implies #[trigger] b1@[j]
        == b0@[j] by {
        lemma_on_tiles_facts(b0@, 0, end, x);
        if b1@[j] != b0@[j] {
            let y = j - 7;
            assert(colour_block(b0, end, y, false));
            lemma_on_tiles_facts(b0@, 0, end, y);
            if y < x {
            } else if y > x {
                lemma_tiles_no_start_inside(b0@, 0, end, x, y);
            }
        }
    }
    assert forall|x: int| #[trigger] on_tiles(b0@, 0, end, x) implies le32(b1@, x) == le32(b0@, x) by {
        lemma_on_tiles_facts(b0@, 0, end, x);
        assert(b1@[x] == b0@[x] && b1@[x + 1] == b0@[x + 1] && b1@[x + 2] == b0@[x + 2] && b1@[x + 3] == b0@[x
            + 3]);
    }
    lemma_tiles_frame(b0@, b1@, 0, end);
    let f = sp1.free_list();
    assert forall|i: int| 0 <= i < f.len() implies on_tiles(b1@, 0, end, #[trigger] f[i].0 as int) && b1.spec_flag(
        f[i],
        FLAG_FREE,
    ) by {
        assert(on_tiles(b0@, 0, end, f[i].0 as int));
        assert(b0.spec_flag(f[i], FLAG_FREE));
        lemma_on_tiles_facts(b0@, 0, end, f[i].0 as int);
        assert(b1@[f[i].0 + 6] == b0@[f[i].0 + 6]);
    }
    assert forall|i: int, j: int|
        0 <= i < doomed.len() && doomed[i].0 <= j < doomed[i].0 + 16 implies #[trigger] b1@[j] == b0@[j]
        && #[trigger] doomed[i] == doomed[i] by {
        let x = doomed[i].0 as int;
        assert(colour_block(b0, end, x, true));
        lemma_on_tiles_facts(b0@, 0, end, x);
        if j == x + 7 {
            if b1@[j] != b0@[j] {
                assert(colour_block(b0, end, x, false));
            }
        }
    }
    assert forall|x: int| #[trigger] colour_block(b0, end, x, false) implies b1.spec_color(Handle(x as u32)) == WHITE
        && forall|j: int| x <= j < x + le32(b0@, x) && j != x + 7 ==> #[trigger] b1@[j] == b0@[j] by {
        lemma_on_tiles_facts(b0@, 0, end, x);
    }
    assert(tiles(b1@, 0, end));
    assert(sp1.free_list().no_duplicates());
    assert(sp1.walkable());
    assert forall|x: int| #[trigger] colour_block(b0, end, x, true) implies doomed.contains(Handle(x as u32)) by {
        lemma_on_tiles_facts(b0@, 0, end, x);
    }
}

/// The next doomed block can be freed: it is a white live block of the
/// walk whose header is as it was.
proof fn lemma_reclaiming_can_free(b0: Heap, end: int, sp: FreeListSpace, doomed: Seq<Handle>, d: int)
    requires
        b0.wf(),
        reclaiming(b0, end, sp, doomed, d),
        d < doomed.len(),
    ensures
        sp.freeable(doomed[d]),
        on_tiles(sp.spec_heap()@, 0, sp.spec_bump(), doomed[d].0 as int),
        sp.walkable(),
{
    reveal(reclaiming);
    let h = doomed[d];
    let x = h.0 as int;
    assert(colour_block(b0, end, x, true));
    lemma_on_tiles_facts(b0@, 0, end, x);
    let b = sp.spec_heap()@;
    assert(b[x] == b0@[x] && doomed[d] == doomed[d]);
    assert(b[x + 1] == b0@[x + 1] && doomed[d] == doomed[d]);
    assert(b[x + 2] == b0@[x + 2] && doomed[d] == doomed[d]);
    assert(b[x + 3] == b0@[x + 3] && doomed[d] == doomed[d]);
    assert(b[x + 6] == b0@[x + 6] && doomed[d] == doomed[d]);
    assert(Handle(x as u32) == h);
    assert(sp.spec_heap().spec_size(h) == le32(b0@, x));
    assert(x % 16 == 0);
    assert(sp.spec_heap().hdr_in(h));
    assert(!sp.spec_heap().spec_flag(h, FLAG_FREE));
    assert(x + le32(b0@, x) <= sp.spec_heap().cap());
}

/// Freeing the next doomed block moves the second pass on by one.
#[verifier::spinoff_prover]
proof fn lemma_reclaiming_step(b0: Heap, end: int, sp: FreeListSpace, doomed: Seq<Handle>, d: int, sp2: FreeListSpace)
    requires
        b0.wf(),
        reclaiming(b0, end, sp, doomed, d),
        d < doomed.len(),
        sp2.walkable(),
        sp2.spec_bump() == sp.spec_bump(),
        forall|y: int| #[trigger]
            on_tiles(sp2.spec_heap()@, 0, sp2.spec_bump(), y) == on_tiles(sp.spec_heap()@, 0, sp.spec_bump(), y),
        sp2.spec_heap().cap() == sp.spec_heap().cap(),
        sp2.spec_heap().spec_flag(doomed[d], FLAG_FREE),
        forall|j: int|
            0 <= j < sp.spec_heap().cap() && !(doomed[d].0 <= j < doomed[d].0 + sp.spec_heap().spec_size(doomed[d]))
                ==> #[trigger] sp2.spec_heap()@[j] == sp.spec_heap()@[j],
    ensures
        reclaiming(b0, end, sp2, doomed, d + 1),
{
    reveal(reclaiming);
    let b = sp.spec_heap();
    let b2 = sp2.spec_heap();
    let h = doomed[d];
    let hx = h.0 as int;
    lemma_reclaiming_can_free(b0, end, sp, doomed, d);
    reveal(reclaiming);
    assert(colour_block(b0, end, hx, true));
    lemma_on_tiles_facts(b0@, 0, end, hx);
    assert(b@[hx] == b0@[hx] && doomed[d] == doomed[d]);
    assert(b@[hx + 1] == b0@[hx + 1] && doomed[d] == doomed[d]);
    assert(b@[hx + 2] == b0@[hx + 2] && doomed[d] == doomed[d]);
    assert(b@[hx + 3] == b0@[hx + 3] && doomed[d] == doomed[d]);
    let size = le32(b0@, hx);
    assert(b.spec_size(h) == size);
    // Any other block start's block lies outside `h`'s.
    assert forall|y: int| #[trigger] on_tiles(b0@, 0, end, y) && y != hx implies y + le32(b0@, y) <= hx || hx
        + size <= y by {
        if y < hx {
            lemma_tiles_apart(b0@, 0, end, y, hx);
        } else {
            lemma_tiles_apart(b0@, 0, end, hx, y);
        }
    }
    assert forall|i: int, j: int|
        d + 1 <= i < doomed.len() && doomed[i].0 <= j < doomed[i].0 + 16 implies #[trigger] b2@[j] == b0@[j]
        && #[trigger] doomed[i] == doomed[i] by {
        let y = doomed[i].0 as int;
        assert(colour_block(b0, end, y, true));
        assert(doomed[d].0 < doomed[i].0);
        lemma_on_tiles_facts(b0@, 0, end, y);
        assert(b@[j] == b0@[j] && doomed[i] == doomed[i]);
    }
    assert forall|i: int| 0 <= i < d + 1 implies b2.spec_flag(#[trigger] doomed[i], FLAG_FREE) by {
        if i < d {
            let y = doomed[i].0 as int;
            assert(colour_block(b0, end, y, true));
            assert(doomed[i].0 < doomed[d].0);
            lemma_on_tiles_facts(b0@, 0, end, y);
            assert(b.spec_flag(doomed[i], FLAG_FREE));
            assert(b2@[y + 6] == b@[y + 6]);
        }
    }
    assert forall|x: int| #[trigger] colour_block(b0, end, x, false) implies b2.spec_color(Handle(x as u32)) == WHITE
        && forall|j: int| x <= j < x + le32(b0@, x) && j != x + 7 ==> #[trigger] b2@[j] == b0@[j] by {
        lemma_on_tiles_facts(b0@, 0, end, x);
        assert(x != hx);
        assert(b2@[x + 7] == b@[x + 7]);
        assert forall|j: int| x <= j < x + le32(b0@, x) && j != x + 7 implies #[trigger] b2@[j] == b0@[j] by {
            assert(b2@[j] == b@[j]);
        }
    }
}

/// After both passes and the merge of neighbouring holes, the sweep has
/// done what it promises.
#[verifier::spinoff_prover]
proof fn lemma_whitened_done(b0: Heap, end: int, sp: FreeListSpace, doomed: Seq<Handle>, sp3: FreeListSpace)
    requires
        b0.wf(),
        reclaiming(b0, end, sp, doomed, doomed.len() as int),
        sp3.walkable(),
        live_blocks_kept(sp.spec_heap(), sp.spec_bump(), sp3.spec_heap(), sp3.spec_bump()),
        free_blocks_stay_free(sp.spec_heap(), sp.spec_bump(), sp3.spec_heap(), sp3.spec_bump()),
    ensures
        whitened(b0, end, sp3.spec_heap(), sp3.spec_bump()),
{
    reveal(reclaiming);
    let b = sp.spec_heap();
    let b3 = sp3.spec_heap();
    let e3 = sp3.spec_bump();
    assert forall|x: int| #[trigger] colour_block(b0, end, x, false) implies colour_block(b3, e3, x, true) && forall|j: int|
        x <= j < x + le32(b0@, x) && j != x + 7 ==> #[trigger] b3@[j] == b0@[j] by {
        lemma_on_tiles_facts(b0@, 0, end, x);
        assert(on_tiles(b@, 0, end, x));
        assert(b@[x] == b0@[x] && b@[x + 1] == b0@[x + 1] && b@[x + 2] == b0@[x + 2] && b@[x + 3] == b0@[x + 3]);
        assert(le32(b@, x) == le32(b0@, x));
        assert(b@[x + 6] == b0@[x + 6]);
        assert(!b.spec_flag(Handle(x as u32), FLAG_FREE));
        assert(on_tiles(b3@, 0, e3, x));
        assert(b3@[x + 6] == b@[x + 6]);
        assert(b3@[x + 7] == b@[x + 7]);
        assert forall|j: int| x <= j < x + le32(b0@, x) && j != x + 7 implies #[trigger] b3@[j] == b0@[j] by {
            assert(b3@[j] == b@[j]);
        }
    }
    assert forall|x: int| #[trigger] colour_block(b0, end, x, true) implies !in_use(b3, e3, x) by {
        assert(doomed.contains(Handle(x as u32)));
        let i = choose|i: int| 0 <= i < doomed.len() && doomed[i] == Handle(x as u32);
        assert(b.spec_flag(doomed[i], FLAG_FREE));
        lemma_on_tiles_facts(b0@, 0, end, x);
        if on_tiles(b3@, 0, e3, x) {
            assert(on_tiles(b@, 0, end, x));
        }
    }
}

/// Recolouring the objects reachable from `ext`, all of them live blocks
/// of a walkable space, leaves the space walkable with the same blocks:
/// every byte of a reachable object but its colour reads as it did, and
/// every other live block is live and keeps its colour.
#[verifier::spinoff_prover]
proof fn lemma_after_colouring(sp0: FreeListSpace, sp1: FreeListSpace, ext: Seq<Handle>)
    requires
        sp0.wf(),
        sp1.wf(),
        sp0.walkable(),
        forall|g: Handle| #[trigger] reachable(sp0.spec_heap(), ext, g) ==> in_use(sp0.spec_heap(), sp0.spec_bump(), g.0 as int),
        colours_only(sp0.spec_heap(), ext, sp1.spec_heap()),
        sp1.free_list() == sp0.free_list(),
        sp1.spec_bump() == sp0.spec_bump(),
    ensures
        sp1.walkable(),
        forall|g: Handle| #[trigger]
            reachable(sp0.spec_heap(), ext, g) ==> in_use(sp1.spec_heap(), sp1.spec_bump(), g.0 as int) && forall|j: int|
                g.0 <= j < g.0 + le32(sp0.spec_heap()@, g.0 as int) && j != g.0 + 7 ==> #[trigger] sp1.spec_heap()@[j]
                    == sp0.spec_heap()@[j],
        forall|x: int| #[trigger]
            in_use(sp0.spec_heap(), sp0.spec_bump(), x) && !reachable(sp0.spec_heap(), ext, Handle(x as u32)) ==> in_use(
                sp1.spec_heap(),
                sp1.spec_bump(),
                x,
            ) && sp1.spec_heap().spec_color(Handle(x as u32)) == sp0.spec_heap().spec_color(Handle(x as u32)),
{
    sp0.lemma_wf();
    let h0 = sp0.spec_heap();
    let h1 = sp1.spec_heap();
    let end = sp0.spec_bump();
    assert forall|x: int| #[trigger] on_tiles(h0@, 0, end, x) implies le32(h1@, x) == le32(h0@, x) by {
        lemma_on_tiles_facts(h0@, 0, end, x);
        assert(h1@[x] == h0@[x] && h1@[x + 1] == h0@[x + 1] && h1@[x + 2] == h0@[x + 2] && h1@[x + 3] == h0@[x
            + 3]);
    }
    lemma_tiles_frame(h0@, h1@, 0, end);
    let f = sp0.free_list();
    assert forall|i: int| 0 <= i < f.len() implies on_tiles(h1@, 0, end, #[trigger] f[i].0 as int) && h1.spec_flag(
        f[i],
        FLAG_FREE,
    ) by {
        assert(on_tiles(h0@, 0, end, f[i].0 as int));
        lemma_on_tiles_facts(h0@, 0, end, f[i].0 as int);
        assert(h1@[f[i].0 + 6] == h0@[f[i].0 + 6]);
    }
    assert forall|g: Handle| #[trigger] reachable(h0, ext, g) implies in_use(h1, end, g.0 as int) && forall|j: int|
        g.0 <= j < g.0 + le32(h0@, g.0 as int) && j != g.0 + 7 ==> #[trigger] h1@[j] == h0@[j] by {
        assert(in_use(h0, end, g.0 as int));
        lemma_on_tiles_facts(h0@, 0, end, g.0 as int);
        assert(Handle((g.0 as int) as u32) == g);
        assert(h1@[g.0 + 6] == h0@[g.0 + 6]);
        assert forall|j: int| g.0 <= j < g.0 + le32(h0@, g.0 as int) && j != g.0 + 7 implies #[trigger] h1@[j] == h0@[j] by {
            if h1@[j] != h0@[j] {
                let a = j - 7;
                let ah = Handle(a as u32);
                assert(ah.0 == a);
                assert(reachable(h0, ext, ah));
                assert(in_use(h0, end, a));
                lemma_on_tiles_facts(h0@, 0, end, a);
                if a > g.0 {
                    lemma_tiles_no_start_inside(h0@, 0, end, g.0 as int, a);
                }
            }
        }
    }
    assert forall|x: int| #[trigger]
        in_use(h0, end, x) && !reachable(h0, ext, Handle(x as u32)) implies in_use(h1, end, x) && h1.spec_color(
        Handle(x as u32),
    ) == h0.spec_color(Handle(x as u32)) by {
        lemma_on_tiles_facts(h0@, 0, end, x);
        assert(h1@[x + 6] == h0@[x + 6]);
        if h1@[x + 7] != h0@[x + 7] {
            assert(Handle((x + 7 - 7) as u32) == Handle(x as u32));
        }
    }
}

pub struct Incremental {
    space: FreeListSpace,
    roots: Roots,
    stats: GcStats,
    phase: Phase,
    /// Reached but not yet scanned. This is the grey set.
    grey: Vec<Handle>,
    /// Bytes in use that will start the next cycle.
    threshold: u32,
}

impl Incremental {
    pub closed spec fn spec_space(&self) -> FreeListSpace {
        self.space
    }

    pub closed spec fn spec_phase(&self) -> Phase {
        self.phase
    }

    pub closed spec fn spec_grey(&self) -> Seq<Handle> {
        self.grey@
    }

    pub closed spec fn spec_threshold(&self) -> u32 {
        self.threshold
    }

    /// What a full collection needs for its promise: the collector is
    /// consistent and its space walkable, and the objects reachable from
    /// the roots and the grey set are live blocks laid out sanely; between
    /// cycles they are all white, and during one the tri-colour invariant
    /// of a pass from the heap as it is holds.
    pub open spec fn cycle_ready(&self) -> bool {
        let h = self.gc_heap();
        let ext = self.gc_roots().slots() + self.spec_grey();
        &&& self.consistent()
        &&& self.spec_space().walkable()
        &&& colour_ready(h, ext)
        &&& forall|g: Handle| #[trigger]
            reachable(h, ext, g) ==> in_use(h, self.spec_space().spec_bump(), g.0 as int)
        &&& self.spec_phase() == Phase::Idle ==> forall|g: Handle| #[trigger]
            reachable(h, ext, g) ==> h.spec_color(g) == WHITE
        &&& self.spec_phase() == Phase::Marking ==> tricolour(h, ext, h, self.spec_grey())
    }

    /// The state every operation keeps: the space is consistent, and
    /// between cycles nothing is grey.
    pub open spec fn consistent(&self) -> bool {
        &&& self.gc_inv()
        &&& self.spec_phase() == Phase::Idle ==> self.spec_grey().len() == 0
    }

    pub fn new(capacity: usize) -> (r: Incremental)
        requires
            capacity >= 16,
            capacity < NULL_ADDR,
            capacity % 16 == 0,
        ensures
            r.gc_inv(),
            r.gc_heap().cap() == capacity,
            r.gc_roots().stack().len() == 0,
            r.gc_roots().globals().len() == 0,
            r.gc_used() == 0,
            r.spec_phase() == Phase::Idle,
            r.spec_grey().len() == 0,
            r.spec_threshold() == if capacity / 2 < MIN_THRESHOLD {
                (capacity / 2) as u32
            } else {
                MIN_THRESHOLD
            },
    {
        let half = (capacity / 2) as u32;
        Incremental {
            space: FreeListSpace::new(capacity),
            roots: Roots::new(),
            stats: GcStats::default(),
            phase: Phase::Idle,
            grey: Vec::new(),
            threshold: if half < MIN_THRESHOLD {
                half
            } else {
                MIN_THRESHOLD
            },
        }
    }

    pub fn space(&self) -> (r: &FreeListSpace)
        ensures
            *r == self.spec_space(),
    {
        &self.space
    }

    /// Whether a marking cycle is in progress.
    pub fn phase(&self) -> (r: Phase)
        ensures
            r == self.spec_phase(),
    {
        self.phase
    }

    /// Objects reached but not yet scanned.
    pub fn grey_count(&self) -> (r: usize)
        ensures
            r == self.spec_grey().len(),
    {
        self.grey.len()
    }

    /// The colour of `h`: [`WHITE`], [`GREY`] or [`BLACK`].
    pub fn color_of(&self, h: Handle) -> (r: u8)
        requires
            self.gc_inv(),
            self.gc_heap().hdr_in(h),
        ensures
            r == self.gc_heap().spec_color(h),
    {
        proof {
            self.space.lemma_wf();
        }
        self.space.heap().color(h)
    }

    /// True if the marker has finished with `h` and will not return to it.
    pub fn is_black(&self, h: Handle) -> (r: bool)
        requires
            self.gc_inv(),
            self.gc_heap().hdr_in(h),
        ensures
            r == (self.gc_heap().spec_color(h) == BLACK),
    {
        self.color_of(h) == BLACK
    }

    pub fn is_free(&self, h: Handle) -> (r: bool)
        requires
            self.gc_inv(),
            self.gc_heap().hdr_in(h),
        ensures
            r == self.gc_heap().spec_flag(h, crate::heap::FLAG_FREE),
    {
        self.space.is_free(h)
    }

    /// Bytes in use that will start the next cycle.
    pub fn threshold(&self) -> (r: u32)
        ensures
            r == self.spec_threshold(),
    {
        self.threshold
    }

    /// Every live object below the bump pointer, in address order.
    pub fn objects(&self) -> (r: Vec<Handle>)
        requires
            self.gc_inv(),
        ensures
            forall|j: int|
                0 <= j < r@.len() ==> self.gc_heap().spec_in_bounds(#[trigger] r@[j])
                    && !self.gc_heap().spec_flag(r@[j], crate::heap::FLAG_FREE),
            forall|h: Handle| #[trigger]
                r@.contains(h) <==> walk_block(self.gc_heap(), 0, self.spec_space().spec_bump(), h.0 as int)
                    && !self.gc_heap().spec_flag(h, crate::heap::FLAG_FREE),
    {
        proof {
            self.space.lemma_wf();
        }
        let bump = self.space.bump_pointer();
        let cap = self.space.capacity();
        let ghost hp = self.space.spec_heap();
        let ghost end = bump as int;
        let mut out: Vec<Handle> = Vec::new();
        let mut at: u32 = 0;
        proof {
            lemma_reaches_stop(hp, 0, end);
        }
        while at < bump
            invariant
                self.space.wf(),
                bump == self.space.spec_bump(),
                bump <= cap,
                cap == self.space.spec_heap().cap(),
                hp == self.space.spec_heap(),
                end == bump,
                forall|j: int|
                    0 <= j < out@.len() ==> self.space.spec_heap().spec_in_bounds(#[trigger] out@[j])
                        && !self.space.spec_heap().spec_flag(out@[j], crate::heap::FLAG_FREE),
                reaches(hp, 0, at as int, end),
                walk_stop(hp, 0, end) == walk_stop(hp, at as int, end),
                forall|h: Handle| #[trigger]
                    out@.contains(h) <==> walked(hp, 0, at as int, end, h.0 as int) && !hp.spec_flag(
                        h,
                        crate::heap::FLAG_FREE,
                    ),
            ensures
                forall|j: int|
                    0 <= j < out@.len() ==> self.space.spec_heap().spec_in_bounds(#[trigger] out@[j])
                        && !self.space.spec_heap().spec_flag(out@[j], crate::heap::FLAG_FREE),
                forall|h: Handle| #[trigger]
                    out@.contains(h) <==> walk_block(hp, 0, end, h.0 as int) && !hp.spec_flag(h, crate::heap::FLAG_FREE),
            decreases bump - at,
        {
            proof {
                self.space.lemma_wf();
                lemma_walk_progress(hp, 0, at as int, end);
            }
            if at % 16 != 0 || at > cap - 16 {
                break;
            }
            let h = Handle(at);
            let s = self.space.heap().size(h);
            if s < 16 || s % 16 != 0 || s > bump - at {
                break;
            }
            proof {
                assert(step_ok(hp, at as int, end));
            }
            if !self.space.is_free(h) {
                let ghost o = out@;
                out.push(h);
                proof {
                    assert forall|g: Handle| #[trigger] out@.contains(g) <==> walked(hp, 0, at + s, end, g.0 as int)
                        && !hp.spec_flag(g, crate::heap::FLAG_FREE) by {
                        if g == h {
                            assert(out@[o.len() as int] == g);
                        }
                        if o.contains(g) {
                            let k = choose|k: int| 0 <= k < o.len() && o[k] == g;
                            assert(out@[k] == g);
                        }
                        if out@.contains(g) && g != h {
                            let k = choose|k: int| 0 <= k < out@.len() && out@[k] == g;
                            assert(k < o.len());
                            assert(o[k] == g);
                        }
                    }
                }
            } else {
                proof {
                    assert forall|g: Handle| #[trigger] out@.contains(g) <==> walked(hp, 0, at + s, end, g.0 as int)
                        && !hp.spec_flag(g, crate::heap::FLAG_FREE) by {
                        if g.0 == at {
                            assert(g == h);
                        }
                    }
                }
            }
            at = at + s;
        }
        proof {
            if at >= bump {
                lemma_walk_progress(hp, 0, at as int, end);
            }
        }
        out
    }

    fn recolor(&mut self, h: Handle, c: u8)
        requires
            old(self).space.wf(),
            old(self).space.spec_heap().hdr_in(h),
            h.0 % 16 == 0,
        ensures
            same_collections(old(self).stats, final(self).stats),
            final(self).stats == old(self).stats,
            final(self).space.wf(),
            final(self).space.spec_heap()@ == old(self).space.spec_heap()@.update(h.0 + 7, c),
            final(self).space.spec_used() == old(self).space.spec_used(),
            final(self).space.free_list() == old(self).space.free_list(),
            final(self).space.spec_bump() == old(self).space.spec_bump(),
            final(self).roots == old(self).roots,
            final(self).grey == old(self).grey,
            final(self).phase == old(self).phase,
            final(self).threshold == old(self).threshold,
    {
        proof {
            self.space.lemma_wf();
        }
        self.space.heap_mut().set_color(h, c);
    }

    /// Shade `h` grey if it has not been reached yet: a white, well-formed
    /// object turns grey and joins the grey set; anything else is left
    /// alone, so an object is scanned at most once per cycle.
    fn shade(&mut self, h: Handle)
        requires
            old(self).space.wf(),
        ensures
            same_collections(old(self).stats, final(self).stats),
            final(self).stats == old(self).stats,
            final(self).space.wf(),
            final(self).space.spec_heap().cap() == old(self).space.spec_heap().cap(),
            final(self).space.spec_used() == old(self).space.spec_used(),
            final(self).space.free_list() == old(self).space.free_list(),
            final(self).space.spec_bump() == old(self).space.spec_bump(),
            final(self).roots == old(self).roots,
            final(self).phase == old(self).phase,
            final(self).threshold == old(self).threshold,
            final(self).grey@.len() >= old(self).grey@.len(),
            whites(final(self).space.spec_heap()@, old(self).space.spec_heap().cap() / 16) <= whites(
                old(self).space.spec_heap()@,
                old(self).space.spec_heap().cap() / 16,
            ),
            final(self).grey@.len() > old(self).grey@.len() ==> whites(
                final(self).space.spec_heap()@,
                old(self).space.spec_heap().cap() / 16,
            ) < whites(old(self).space.spec_heap()@, old(self).space.spec_heap().cap() / 16),
            final(self).grey@.len() <= old(self).grey@.len() + 1,
            old(self).space.spec_heap().spec_in_bounds(h) && old(self).space.spec_heap().spec_color(h)
                == WHITE ==> final(self).grey@ == old(self).grey@.push(h) && final(self).space.spec_heap()@
                == old(self).space.spec_heap()@.update(h.0 + 7, GREY),
            !(old(self).space.spec_heap().spec_in_bounds(h) && old(self).space.spec_heap().spec_color(h)
                == WHITE) ==> final(self).grey@ == old(self).grey@ && final(self).space == old(self).space,
            only_colours(old(self).space.spec_heap(), final(self).space.spec_heap()),
            forall|x: Handle|
                x.0 + 16 <= old(self).space.spec_heap().cap() && #[trigger] old(self).space.spec_heap().spec_color(x)
                    != WHITE ==> final(self).space.spec_heap().spec_color(x) == old(self).space.spec_heap().spec_color(x),
            old(self).space.spec_heap().spec_in_bounds(h) ==> final(self).space.spec_heap().spec_color(h) != WHITE,
            forall|before: Heap, roots: Seq<Handle>|
                #![trigger colour_ready(before, roots), tricolour(before, roots, old(self).space.spec_heap(), old(self).grey@)]
                before.wf() && colour_ready(before, roots) && tricolour(
                    before,
                    roots,
                    old(self).space.spec_heap(),
                    old(self).grey@,
                ) && (before.spec_in_bounds(h) ==> reachable(before, roots, h)) ==> tricolour(
                    before,
                    roots,
                    final(self).space.spec_heap(),
                    final(self).grey@,
                ),
    {
        proof {
            self.space.lemma_wf();
        }
        let ghost cap = self.space.spec_heap().cap();
        let ghost h0 = self.space.spec_heap();
        let ghost g0 = self.grey@;
        if !self.space.heap().in_bounds(h) || self.space.heap().color(h) != WHITE {
            proof {
                lemma_shade_effect(h0, g0, h, self.space.spec_heap(), self.grey@);
                assert forall|before: Heap, roots: Seq<Handle>|
                    #![trigger colour_ready(before, roots), tricolour(before, roots, h0, g0)]
                    before.wf() && colour_ready(before, roots) && tricolour(before, roots, h0, g0) && (before.spec_in_bounds(h)
                        ==> reachable(before, roots, h)) implies tricolour(before, roots, self.space.spec_heap(), self.grey@) by {
                    lemma_shade_step(before, roots, h0, g0, h, self.space.spec_heap(), self.grey@);
                }
            }
            return;
        }
        let ghost b0 = self.space.spec_heap()@;
        self.recolor(h, GREY);
        proof {
            lemma_count_unsat_set(b0, self.space.spec_heap()@, cap / 16, 7, |x: u8| x != WHITE, h.0 as int, GREY);
        }
        self.grey.push(h);
        proof {
            lemma_shade_effect(h0, g0, h, self.space.spec_heap(), self.grey@);
            assert forall|before: Heap, roots: Seq<Handle>|
                #![trigger colour_ready(before, roots), tricolour(before, roots, h0, g0)]
                before.wf() && colour_ready(before, roots) && tricolour(before, roots, h0, g0) && (before.spec_in_bounds(h)
                    ==> reachable(before, roots, h)) implies tricolour(before, roots, self.space.spec_heap(), self.grey@) by {
                lemma_shade_step(before, roots, h0, g0, h, self.space.spec_heap(), self.grey@);
            }
        }
    }

    /// Shade every root: the shadow stack and every global.
    fn shade_roots(&mut self)
        requires
            old(self).space.wf(),
        ensures
            same_collections(old(self).stats, final(self).stats),
            final(self).space.wf(),
            final(self).space.spec_heap().cap() == old(self).space.spec_heap().cap(),
            final(self).space.spec_used() == old(self).space.spec_used(),
            final(self).space.free_list() == old(self).space.free_list(),
            final(self).space.spec_bump() == old(self).space.spec_bump(),
            final(self).roots == old(self).roots,
            final(self).phase == old(self).phase,
            final(self).threshold == old(self).threshold,
            only_colours(old(self).space.spec_heap(), final(self).space.spec_heap()),
            forall|r: Handle|
                #[trigger] old(self).roots.slots().contains(r) && old(self).space.spec_heap().spec_in_bounds(r)
                    ==> final(self).space.spec_heap().spec_color(r) != WHITE,
            greys_in_bounds(old(self).space.spec_heap(), old(self).grey@) ==> greys_in_bounds(
                final(self).space.spec_heap(),
                final(self).grey@,
            ),
            forall|before: Heap, roots: Seq<Handle>|
                #![trigger colour_ready(before, roots), tricolour(before, roots, old(self).space.spec_heap(), old(self).grey@)]
                before.wf() && colour_ready(before, roots) && tricolour(
                    before,
                    roots,
                    old(self).space.spec_heap(),
                    old(self).grey@,
                ) && (forall|x: Handle| #[trigger] old(self).roots.slots().contains(x) ==> roots.contains(x))
                    ==> tricolour(before, roots, final(self).space.spec_heap(), final(self).grey@),
    {
        let roots = self.roots.iter();
        let ghost h0 = self.space.spec_heap();
        let ghost g0 = self.grey@;
        let ghost slots = self.roots.slots();
        let mut i: usize = 0;
        while i < roots.len()
            invariant
                same_collections(old(self).stats, self.stats),
                self.space.wf(),
                self.space.spec_heap().cap() == old(self).space.spec_heap().cap(),
                self.space.spec_used() == old(self).space.spec_used(),
                self.space.free_list() == old(self).space.free_list(),
                self.space.spec_bump() == old(self).space.spec_bump(),
                self.roots == old(self).roots,
                self.phase == old(self).phase,
                self.threshold == old(self).threshold,
                i <= roots@.len(),
                h0 == old(self).space.spec_heap(),
                g0 == old(self).grey@,
                slots == old(self).roots.slots(),
                forall|h: Handle| #[trigger] roots@.contains(h) <==> slots.contains(h) && h.0 != NULL_ADDR,
                only_colours(h0, self.space.spec_heap()),
                greys_in_bounds(h0, g0) ==> greys_in_bounds(self.space.spec_heap(), self.grey@),
                forall|j: int|
                    0 <= j < i && h0.spec_in_bounds(#[trigger] roots@[j]) ==> self.space.spec_heap().spec_color(roots@[j])
                        != WHITE,
                forall|before: Heap, ext: Seq<Handle>|
                    #![trigger colour_ready(before, ext), tricolour(before, ext, h0, g0)]
                    before.wf() && colour_ready(before, ext) && tricolour(before, ext, h0, g0) && (forall|x: Handle|
                        #[trigger] slots.contains(x) ==> ext.contains(x)) ==> tricolour(
                        before,
                        ext,
                        self.space.spec_heap(),
                        self.grey@,
                    ),
            decreases roots@.len() - i,
        {
            let r = roots[i];
            let ghost h1 = self.space.spec_heap();
            let ghost g1 = self.grey@;
            proof {
                assert(roots@.contains(r));
                assert(slots.contains(r));
            }
            self.shade(r);
            proof {
                if greys_in_bounds(h0, g0) {
                    lemma_shade_keeps_greys(h1, g1, r, self.space.spec_heap(), self.grey@);
                }
                crate::tricolour::lemma_only_colours_trans(h0, h1, self.space.spec_heap());
                assert forall|j: int|
                    0 <= j < i + 1 && h0.spec_in_bounds(#[trigger] roots@[j]) implies self.space.spec_heap().spec_color(
                    roots@[j],
                ) != WHITE by {
                    crate::tricolour::lemma_only_colours_header(h0, h1, roots@[j]);
                    if j < i {
                        assert(h1.spec_color(roots@[j]) != WHITE);
                    }
                }
                assert forall|before: Heap, ext: Seq<Handle>|
                    #![trigger colour_ready(before, ext), tricolour(before, ext, h0, g0)]
                    before.wf() && colour_ready(before, ext) && tricolour(before, ext, h0, g0) && (forall|x: Handle|
                        #[trigger] slots.contains(x) ==> ext.contains(x)) implies tricolour(
                        before,
                        ext,
                        self.space.spec_heap(),
                        self.grey@,
                    ) by {
                    assert(tricolour(before, ext, h1, g1));
                    assert(ext.contains(r));
                    if before.spec_in_bounds(r) {
                        crate::trace::lemma_root_reachable(before, ext, r);
                    }
                }
            }
            i = i + 1;
        }
        proof {
            assert forall|r: Handle| #[trigger] slots.contains(r) && h0.spec_in_bounds(r) implies self.space.spec_heap().spec_color(
                r,
            ) != WHITE by {
                assert(roots@.contains(r));
                let j = choose|j: int| 0 <= j < roots@.len() && roots@[j] == r;
            }
        }
    }

    /// Begin a cycle: shade the roots and leave everything else white.
    ///
    /// If everything reachable from the roots is white and laid out sanely,
    /// the tri-colour invariant of a pass from the heap as it was holds
    /// afterwards.
    pub fn start_cycle(&mut self)
        requires
            old(self).gc_inv(),
        ensures
            same_collections(old(self).gc_stats(), final(self).gc_stats()),
            final(self).gc_inv(),
            final(self).gc_heap().cap() == old(self).gc_heap().cap(),
            final(self).gc_roots() == old(self).gc_roots(),
            final(self).gc_used() == old(self).gc_used(),
            final(self).spec_phase() == Phase::Marking,
            greys_in_bounds(final(self).gc_heap(), final(self).spec_grey()),
            final(self).spec_space().free_list() == old(self).spec_space().free_list(),
            final(self).spec_space().spec_bump() == old(self).spec_space().spec_bump(),
            ({
                let h0 = old(self).gc_heap();
                let slots = old(self).gc_roots().slots();
                colour_ready(h0, slots) && (forall|g: Handle| #[trigger] reachable(h0, slots, g) ==> h0.spec_color(g) == WHITE)
                    ==> tricolour(h0, slots, final(self).gc_heap(), final(self).spec_grey())
            }),
    {
        let ghost h0 = self.space.spec_heap();
        let ghost slots = self.roots.slots();
        self.grey.clear();
        proof {
            assert(greys_in_bounds(self.space.spec_heap(), self.grey@));
            self.space.lemma_wf();
            if colour_ready(h0, slots) && (forall|g: Handle| #[trigger] reachable(h0, slots, g) ==> h0.spec_color(g) == WHITE) {
                assert(self.grey@ =~= Seq::<Handle>::empty());
                assert(tricolour(h0, slots, h0, self.grey@));
            }
        }
        self.shade_roots();
        self.phase = Phase::Marking;
    }

    /// Blacken up to `budget` grey objects.
    ///
    /// Take a grey object, shade everything it refers to, and colour it
    /// black: the marker is finished with it. Stop when the budget is spent
    /// or nothing is grey. Each object blackened is counted in
    /// `objects_marked`, and each call in `increments`.
    ///
    /// When every grey handle addresses a block, as after `start_cycle`, the
    /// call blackens exactly `k` objects for some `k <= budget`, and stops
    /// short of the budget only once nothing is grey; it pops at most `k`
    /// entries, and every grey handle still addresses a block afterwards.
    pub fn mark_step(&mut self, budget: usize)
        requires
            old(self).gc_inv(),
        ensures
            same_collections(old(self).gc_stats(), final(self).gc_stats()),
            final(self).gc_inv(),
            final(self).gc_heap().cap() == old(self).gc_heap().cap(),
            final(self).gc_roots() == old(self).gc_roots(),
            final(self).gc_used() == old(self).gc_used(),
            final(self).spec_space().free_list() == old(self).spec_space().free_list(),
            final(self).spec_space().spec_bump() == old(self).spec_space().spec_bump(),
            final(self).spec_phase() == old(self).spec_phase(),
            final(self).gc_stats().increments == sat_add(old(self).gc_stats().increments, 1),
            final(self).gc_stats().objects_marked <= old(self).gc_stats().objects_marked + budget,
            greys_in_bounds(old(self).gc_heap(), old(self).spec_grey()) ==> greys_in_bounds(
                final(self).gc_heap(),
                final(self).spec_grey(),
            ),
            greys_in_bounds(old(self).gc_heap(), old(self).spec_grey()) ==> exists|k: u64|
                k <= budget && final(self).gc_stats().objects_marked == #[trigger] sat_add(
                    old(self).gc_stats().objects_marked,
                    k,
                ) && (k < budget ==> final(self).spec_grey().len() == 0) && final(self).spec_grey().len() + k
                    >= old(self).spec_grey().len(),
            whites(final(self).gc_heap()@, old(self).gc_heap().cap() / 16) <= whites(
                old(self).gc_heap()@,
                old(self).gc_heap().cap() / 16,
            ),
            old(self).spec_grey().len() > 0 && budget > 0 ==> (whites(
                final(self).gc_heap()@,
                old(self).gc_heap().cap() / 16,
            ) < whites(old(self).gc_heap()@, old(self).gc_heap().cap() / 16)
                || final(self).spec_grey().len() < old(self).spec_grey().len()),
            only_colours(old(self).gc_heap(), final(self).gc_heap()),
            forall|x: Handle|
                x.0 + 16 <= old(self).gc_heap().cap() && #[trigger] old(self).gc_heap().spec_color(x) != WHITE
                    ==> final(self).gc_heap().spec_color(x) != WHITE,
            keeps_tricolour(old(self).gc_heap(), old(self).spec_grey(), final(self).gc_heap(), final(self).spec_grey()),
    {
        self.stats.increments = self.stats.increments.saturating_add(1);
        let ghost cap = self.space.spec_heap().cap();
        let ghost w0 = whites(self.space.spec_heap()@, cap / 16);
        let ghost g0 = self.grey@.len();
        let ghost oh = self.space.spec_heap();
        let ghost og = self.grey@;
        let ghost gib = greys_in_bounds(self.space.spec_heap(), self.grey@);
        let mut done: usize = 0;
        while done < budget && self.grey.len() > 0
            invariant
                same_collections(old(self).stats, self.stats),
                self.stats.increments == sat_add(old(self).stats.increments, 1),
                self.stats.objects_marked <= old(self).stats.objects_marked + done,
                gib == greys_in_bounds(old(self).space.spec_heap(), old(self).grey@),
                gib ==> greys_in_bounds(self.space.spec_heap(), self.grey@),
                gib ==> self.stats.objects_marked == sat_add(old(self).stats.objects_marked, done as u64),
                self.grey@.len() + done >= old(self).grey@.len(),
                self.space.wf(),
                self.space.spec_heap().cap() == cap,
                self.space.spec_used() == old(self).space.spec_used(),
                self.space.free_list() == old(self).space.free_list(),
                self.space.spec_bump() == old(self).space.spec_bump(),
                self.roots == old(self).roots,
                self.phase == old(self).phase,
                w0 == whites(old(self).space.spec_heap()@, cap / 16),
                g0 == old(self).grey@.len(),
                whites(self.space.spec_heap()@, cap / 16) <= w0,
                whites(self.space.spec_heap()@, cap / 16) < w0 || self.grey@.len() + done == g0,
                done <= budget,
                oh == old(self).space.spec_heap(),
                og == old(self).grey@,
                cap == oh.cap(),
                only_colours(oh, self.space.spec_heap()),
                forall|x: Handle|
                    x.0 + 16 <= cap && #[trigger] oh.spec_color(x) != WHITE ==> self.space.spec_heap().spec_color(x)
                        != WHITE,
                keeps_tricolour(oh, og, self.space.spec_heap(), self.grey@),
            decreases budget - done,
        {
            let ghost pending = self.grey@;
            let ghost hg = self.space.spec_heap();
            let ghost st = self.stats;
            let g = self.grey.pop().unwrap();
            let ghost rest = self.grey@;
            let ghost wa = whites(self.space.spec_heap()@, cap / 16);
            let ghost ga = self.grey@.len();
            proof {
                self.space.lemma_wf();
                assert(pending =~= rest.push(g));
                crate::trace::lemma_pop_shape(pending, rest, g);
                if gib {
                    assert(rest =~= pending.drop_last());
                    lemma_pop_keeps_greys(hg, pending, rest);
                }
            }
            if self.space.heap().in_bounds(g) {
                let n = self.space.heap().nrefs(g) as u32;
                let fits = 16 + 4 * n <= self.space.capacity() - g.0;
                if fits {
                    let children = self.space.heap().children(g);
                    let mut k: usize = 0;
                    while k < children.len()
                        invariant
                            same_collections(old(self).stats, self.stats),
                            self.stats == st,
                            self.grey@.len() >= rest.len(),
                            gib == greys_in_bounds(oh, og),
                            gib ==> greys_in_bounds(self.space.spec_heap(), self.grey@),
                            self.space.wf(),
                            self.space.spec_heap().cap() == cap,
                            self.space.spec_used() == old(self).space.spec_used(),
                            self.space.free_list() == old(self).space.free_list(),
                            self.space.spec_bump() == old(self).space.spec_bump(),
                            self.roots == old(self).roots,
                            self.phase == old(self).phase,
                            whites(self.space.spec_heap()@, cap / 16) <= wa,
                            whites(self.space.spec_heap()@, cap / 16) < wa || self.grey@.len() == ga,
                            k <= children@.len(),
                            cap == oh.cap(),
                            children@ == hg.spec_children(g),
                            hg.spec_in_bounds(g),
                            pending == rest.push(g),
                            pending.contains(g),
                            only_colours(oh, self.space.spec_heap()),
                            only_colours(hg, self.space.spec_heap()),
                            forall|x: Handle|
                                x.0 + 16 <= cap && #[trigger] oh.spec_color(x) != WHITE ==> self.space.spec_heap().spec_color(
                                    x,
                                ) != WHITE,
                            forall|j: int|
                                0 <= j < k && hg.spec_in_bounds(#[trigger] children@[j]) ==> self.space.spec_heap().spec_color(
                                    children@[j],
                                ) != WHITE,
                            keeps_tricolour(oh, og, hg, pending),
                            keeps_tricolour(oh, og, self.space.spec_heap(), self.grey@.push(g)),
                        decreases children@.len() - k,
                    {
                        let c = children[k];
                        let ghost cur = self.space.spec_heap();
                        let ghost gr = self.grey@;
                        self.shade(c);
                        proof {
                            if gib {
                                lemma_shade_keeps_greys(cur, gr, c, self.space.spec_heap(), self.grey@);
                            }
                            crate::tricolour::lemma_only_colours_trans(oh, cur, self.space.spec_heap());
                            crate::tricolour::lemma_only_colours_trans(hg, cur, self.space.spec_heap());
                            assert forall|j: int|
                                0 <= j < k + 1 && hg.spec_in_bounds(#[trigger] children@[j]) implies self.space.spec_heap().spec_color(
                                children@[j],
                            ) != WHITE by {
                                crate::tricolour::lemma_only_colours_header(hg, cur, children@[j]);
                                if j < k {
                                    assert(cur.spec_color(children@[j]) != WHITE);
                                }
                            }
                            assert forall|before: Heap, roots: Seq<Handle>|
                                #![trigger colour_ready(before, roots), tricolour(before, roots, oh, og)]
                                before.wf() && colour_ready(before, roots) && tricolour(before, roots, oh, og) implies tricolour(
                                before,
                                roots,
                                self.space.spec_heap(),
                                self.grey@.push(g),
                            ) by {
                                assert(tricolour(before, roots, hg, pending));
                                assert(tricolour(before, roots, cur, gr.push(g)));
                                lemma_scanned_child_reachable(before, roots, hg, pending, g, c);
                                lemma_shade_step_pending(before, roots, cur, gr, c, self.space.spec_heap(), self.grey@, g);
                            }
                        }
                        k = k + 1;
                    }
                }
                proof {
                    self.space.lemma_wf();
                }
                let ghost b0 = self.space.spec_heap()@;
                let ghost cur = self.space.spec_heap();
                let ghost gr = self.grey@;
                self.recolor(g, BLACK);
                proof {
                    if gib {
                        crate::tricolour::lemma_recolour_only_colours(cur, self.space.spec_heap(), g, BLACK);
                        lemma_greys_recoloured(cur, self.space.spec_heap(), self.grey@);
                    }
                    lemma_count_unsat_set(b0, self.space.spec_heap()@, cap / 16, 7, |x: u8| x != WHITE, g.0 as int, BLACK);
                    crate::tricolour::lemma_recolour_only_colours(cur, self.space.spec_heap(), g, BLACK);
                    crate::tricolour::lemma_only_colours_trans(oh, cur, self.space.spec_heap());
                    assert forall|x: Handle|
                        x.0 + 16 <= cap && #[trigger] oh.spec_color(x) != WHITE implies self.space.spec_heap().spec_color(
                        x,
                    ) != WHITE by {
                        if x.0 + 7 != g.0 + 7 {
                            assert(cur.spec_color(x) != WHITE);
                        }
                    }
                    assert forall|before: Heap, roots: Seq<Handle>|
                        #![trigger colour_ready(before, roots), tricolour(before, roots, oh, og)]
                        before.wf() && colour_ready(before, roots) && tricolour(before, roots, oh, og) implies tricolour(
                        before,
                        roots,
                        self.space.spec_heap(),
                        self.grey@,
                    ) by {
                        assert(tricolour(before, roots, hg, pending));
                        lemma_scanned_reachable(before, roots, hg, pending, g);
                        if fits {
                            assert(tricolour(before, roots, cur, gr.push(g)));
                        } else {
                            assert(gr == rest);
                            assert(cur == hg);
                        }
                        lemma_blacken_ready(before, roots, hg, pending, g, cur, gr, fits);
                        crate::trace::lemma_pop_shape(gr.push(g), gr, g);
                        lemma_blacken_step(before, roots, cur, gr.push(g), gr, g, self.space.spec_heap());
                    }
                }
                self.stats.objects_marked = self.stats.objects_marked.saturating_add(1);
            } else {
                proof {
                    assert(!gib);
                    assert forall|before: Heap, roots: Seq<Handle>|
                        #![trigger colour_ready(before, roots), tricolour(before, roots, oh, og)]
                        before.wf() && colour_ready(before, roots) && tricolour(before, roots, oh, og) implies tricolour(
                        before,
                        roots,
                        self.space.spec_heap(),
                        self.grey@,
                    ) by {
                        assert(tricolour(before, roots, hg, pending));
                        lemma_skip_step(before, roots, hg, pending, rest, g);
                    }
                }
            }
            done = done + 1;
        }
        proof {
            if gib {
                let k = done as u64;
                assert(old(self).gc_stats().objects_marked == old(self).stats.objects_marked);
                assert(self.gc_stats().objects_marked == sat_add(old(self).gc_stats().objects_marked, k));
                assert(k < budget ==> self.spec_grey().len() == 0);
                assert(self.spec_grey().len() + k >= old(self).spec_grey().len());
            }
        }
    }

    /// Drive marking to completion.
    ///
    /// The mutator has been running throughout the cycle, so the root set
    /// is not the one shaded at the start: the roots are shaded again before
    /// the grey set is drained. Afterwards nothing is grey.
    ///
    /// Take any heap `before` on which the cycle under way could have
    /// begun: its objects reachable from `ext`, which holds every root, are
    /// laid out sanely, and the tri-colour invariant of a pass from it holds
    /// now. Then afterwards nothing but the colours of those objects has
    /// changed since `before`, and everything reachable in `before` from the
    /// roots is black.
    pub fn finish_marking(&mut self)
        requires
            old(self).gc_inv(),
        ensures
            same_collections(old(self).gc_stats(), final(self).gc_stats()),
            final(self).gc_inv(),
            final(self).gc_heap().cap() == old(self).gc_heap().cap(),
            final(self).gc_roots() == old(self).gc_roots(),
            final(self).gc_used() == old(self).gc_used(),
            final(self).spec_phase() == old(self).spec_phase(),
            final(self).spec_grey().len() == 0,
            final(self).spec_space().free_list() == old(self).spec_space().free_list(),
            final(self).spec_space().spec_bump() == old(self).spec_space().spec_bump(),
            forall|before: Heap, ext: Seq<Handle>|
                #![trigger tricolour(before, ext, old(self).gc_heap(), old(self).spec_grey())]
                before.wf() && colour_ready(before, ext) && tricolour(
                    before,
                    ext,
                    old(self).gc_heap(),
                    old(self).spec_grey(),
                ) && (forall|x: Handle| #[trigger] old(self).gc_roots().slots().contains(x) ==> ext.contains(x))
                    ==> colours_only(before, ext, final(self).gc_heap()) && forall|h: Handle| #[trigger]
                    reachable(before, old(self).gc_roots().slots(), h) ==> final(self).gc_heap().spec_color(h) == BLACK,
    {
        let ghost h0 = self.space.spec_heap();
        let ghost g0 = self.grey@;
        let ghost slots = self.roots.slots();
        proof {
            self.space.lemma_wf();
        }
        self.shade_roots();
        let ghost cap = self.space.spec_heap().cap();
        while self.grey.len() > 0
            invariant
                same_collections(old(self).stats, self.stats),
                self.space.wf(),
                self.space.spec_heap().cap() == cap,
                self.space.spec_used() == old(self).space.spec_used(),
                self.space.free_list() == old(self).space.free_list(),
                self.space.spec_bump() == old(self).space.spec_bump(),
                self.roots == old(self).roots,
                self.phase == old(self).phase,
                h0.wf(),
                cap == h0.cap(),
                slots == self.roots.slots(),
                only_colours(h0, self.space.spec_heap()),
                forall|r: Handle| #[trigger] slots.contains(r) && h0.spec_in_bounds(r) ==> self.space.spec_heap().spec_color(r)
                    != WHITE,
                forall|before: Heap, ext: Seq<Handle>|
                    #![trigger colour_ready(before, ext), tricolour(before, ext, h0, g0)]
                    before.wf() && colour_ready(before, ext) && tricolour(before, ext, h0, g0) && (forall|x: Handle|
                        #[trigger] slots.contains(x) ==> ext.contains(x)) ==> tricolour(
                        before,
                        ext,
                        self.space.spec_heap(),
                        self.grey@,
                    ),
            decreases whites(self.space.spec_heap()@, cap / 16), self.grey@.len(),
        {
            let ghost cur = self.space.spec_heap();
            let ghost gr = self.grey@;
            self.mark_step(DRAIN_BUDGET);
            proof {
                crate::tricolour::lemma_only_colours_trans(h0, cur, self.space.spec_heap());
                assert forall|r: Handle| #[trigger] slots.contains(r) && h0.spec_in_bounds(r) implies self.space.spec_heap().spec_color(
                    r,
                ) != WHITE by {
                    assert(cur.spec_color(r) != WHITE);
                }
                assert forall|before: Heap, ext: Seq<Handle>|
                    #![trigger colour_ready(before, ext), tricolour(before, ext, h0, g0)]
                    before.wf() && colour_ready(before, ext) && tricolour(before, ext, h0, g0) && (forall|x: Handle|
                        #[trigger] slots.contains(x) ==> ext.contains(x)) implies tricolour(
                        before,
                        ext,
                        self.space.spec_heap(),
                        self.grey@,
                    ) by {
                    assert(tricolour(before, ext, cur, gr));
                }
            }
        }
        proof {
            assert(self.grey@ =~= Seq::<Handle>::empty());
            assert forall|before: Heap, ext: Seq<Handle>|
                #![trigger tricolour(before, ext, h0, g0)]
                before.wf() && colour_ready(before, ext) && tricolour(before, ext, h0, g0) && (forall|x: Handle|
                    #[trigger] slots.contains(x) ==> ext.contains(x)) implies colours_only(
                    before,
                    ext,
                    self.space.spec_heap(),
                ) && forall|h: Handle| #[trigger]
                reachable(before, slots, h) ==> self.space.spec_heap().spec_color(h) == BLACK by {
                let now = self.space.spec_heap();
                assert(tricolour(before, ext, now, self.grey@));
                assert forall|r: Handle| #[trigger] slots.contains(r) && before.spec_in_bounds(r) implies now.spec_color(r)
                    != WHITE by {
                    crate::tricolour::lemma_colours_only_header(before, ext, h0, r);
                }
                crate::tricolour::lemma_tricolour_done(before, slots, ext, now);
            }
        }
    }

    /// Free every white object and return the survivors to white, then end
    /// the cycle and aim the next one at twice what survived.
    ///
    /// On a walkable space, every live block that is not white survives as
    /// a white live block with every other byte as it was, no white live
    /// block stays live, and the space is still walkable.
    pub fn sweep(&mut self)
        requires
            old(self).gc_inv(),
        ensures
            same_collections(old(self).gc_stats(), final(self).gc_stats()),
            final(self).gc_inv(),
            final(self).gc_heap().cap() == old(self).gc_heap().cap(),
            final(self).gc_roots() == old(self).gc_roots(),
            final(self).spec_phase() == Phase::Idle,
            final(self).spec_grey() == old(self).spec_grey(),
            old(self).spec_space().walkable() ==> final(self).spec_space().walkable() && whitened(
                old(self).gc_heap(),
                old(self).spec_space().spec_bump(),
                final(self).gc_heap(),
                final(self).spec_space().spec_bump(),
            ),
    {
        proof {
            self.space.lemma_wf();
        }
        let ghost sp0 = self.space;
        let ghost b0 = self.space.spec_heap();
        let ghost ok = self.space.walkable();
        let bump = self.space.bump_pointer();
        let cap = self.space.capacity();
        let ghost cap0 = self.space.spec_heap().cap();
        let ghost end = bump as int;
        proof {
            if ok {
                lemma_whitening_start(self.space);
            }
        }
        let mut doomed: Vec<Handle> = Vec::new();
        let mut at: u32 = 0;
        while at < bump
            invariant
                same_collections(old(self).stats, self.stats),
                self.space.wf(),
                self.space.spec_heap().cap() == cap0,
                cap == cap0,
                bump <= cap,
                self.roots == old(self).roots,
                self.grey == old(self).grey,
                b0 == sp0.spec_heap(),
                end == bump,
                b0.wf(),
                end <= b0.cap(),
                self.space.free_list() == sp0.free_list(),
                self.space.spec_bump() == sp0.spec_bump(),
                sp0.spec_bump() == end,
                at <= bump,
                ok ==> whitening(b0, end, self.space.spec_heap(), at as int, doomed@),
            ensures
                ok ==> at == end,
                ok ==> whitening(b0, end, self.space.spec_heap(), at as int, doomed@),
                self.space.wf(),
                self.space.spec_heap().cap() == cap0,
                self.roots == old(self).roots,
                self.grey == old(self).grey,
                self.space.free_list() == sp0.free_list(),
                self.space.spec_bump() == sp0.spec_bump(),
            decreases bump - at,
        {
            proof {
                self.space.lemma_wf();
                if ok {
                    lemma_whitening_here(b0, end, self.space.spec_heap(), at as int, doomed@);
                }
            }
            if at % 16 != 0 || at > cap - 16 {
                break;
            }
            let h = Handle(at);
            let s = self.space.heap().size(h);
            if s < 16 || s > bump - at {
                break;
            }
            let ghost now = self.space.spec_heap();
            let ghost dm = doomed@;
            let ghost at0 = at as int;
            at = at + s;
            if self.space.is_free(h) {
                proof {
                    if ok {
                        lemma_whitening_step(b0, end, now, at0, dm, self.space.spec_heap(), doomed@);
                    }
                }
                continue;
            }
            if self.space.heap().color(h) == WHITE {
                doomed.push(h);
            } else {
                self.recolor(h, WHITE);
            }
            proof {
                if ok {
                    lemma_whitening_step(b0, end, now, at0, dm, self.space.spec_heap(), doomed@);
                }
            }
        }

        let ghost sp1 = self.space;
        proof {
            if ok {
                lemma_reclaiming_start(sp0, sp1, end, doomed@);
            }
        }
        let mut d: usize = 0;
        while d < doomed.len()
            invariant
                same_collections(old(self).stats, self.stats),
                self.space.wf(),
                self.space.spec_heap().cap() == cap0,
                self.roots == old(self).roots,
                self.grey == old(self).grey,
                d <= doomed@.len(),
                b0.wf(),
                ok ==> reclaiming(b0, end, self.space, doomed@, d as int),
            decreases doomed@.len() - d,
        {
            let h = doomed[d];
            proof {
                if ok {
                    lemma_reclaiming_can_free(b0, end, self.space, doomed@, d as int);
                }
            }
            if self.space.can_free(h) {
                proof {
                    self.space.lemma_wf();
                }
                let ghost before = self.space;
                let size = self.space.heap().size(h);
                self.space.free(h);
                proof {
                    if ok {
                        lemma_reclaiming_step(b0, end, before, doomed@, d as int, self.space);
                    }
                }
                self.stats.objects_freed = self.stats.objects_freed.saturating_add(1);
                self.stats.bytes_freed = self.stats.bytes_freed.saturating_add(size as u64);
            }
            d = d + 1;
        }
        let ghost sp2 = self.space;
        proof {
            if ok {
                reveal(reclaiming);
            }
        }
        self.space.coalesce();
        proof {
            if ok {
                lemma_whitened_done(b0, end, sp2, doomed@, self.space);
            }
        }

        self.phase = Phase::Idle;
        let live = self.space.used_bytes();
        let doubled = if live > u32::MAX / 2 {
            u32::MAX
        } else {
            live * 2
        };
        let floor = if doubled > MIN_THRESHOLD {
            doubled
        } else {
            MIN_THRESHOLD
        };
        self.threshold = if floor < cap {
            floor
        } else {
            cap
        };
    }

    /// Finish whatever cycle is in progress, starting one if necessary.
    fn complete_cycle(&mut self)
        requires
            old(self).gc_inv(),
        ensures
            final(self).stats.collections == sat_add(old(self).stats.collections, 1),
            final(self).stats.allocation_failures == old(self).stats.allocation_failures,
            final(self).gc_inv(),
            final(self).gc_heap().cap() == old(self).gc_heap().cap(),
            final(self).gc_roots().stack().len() == old(self).gc_roots().stack().len(),
            final(self).spec_phase() == Phase::Idle,
            final(self).spec_grey().len() == 0,
            old(self).cycle_ready() ==> {
                let h0 = old(self).gc_heap();
                let e0 = old(self).spec_space().spec_bump();
                let slots = old(self).gc_roots().slots();
                let ext = slots + old(self).spec_grey();
                let h2 = final(self).gc_heap();
                let e2 = final(self).spec_space().spec_bump();
                &&& final(self).spec_space().walkable()
                &&& forall|g: Handle| #[trigger]
                    reachable(h0, slots, g) ==> colour_block(h2, e2, g.0 as int, true) && forall|j: int|
                        g.0 <= j < g.0 + h0.spec_size(g) && j != g.0 + 7 ==> #[trigger] h2@[j] == h0@[j]
                &&& forall|x: int| #[trigger]
                    colour_block(h0, e0, x, true) && !reachable(h0, ext, Handle(x as u32)) ==> !in_use(h2, e2, x)
            },
    {
        let ghost sp0 = self.space;
        let ghost slots = self.roots.slots();
        let ghost ext = slots + self.grey@;
        let ghost ready = self.cycle_ready();
        let start = clock::now();
        if self.phase == Phase::Idle {
            proof {
                if ready {
                    assert(ext =~= slots);
                }
            }
            self.start_cycle();
        }
        let ghost hm = self.space.spec_heap();
        let ghost gm = self.grey@;
        proof {
            sp0.lemma_wf();
            if ready {
                assert(tricolour(sp0.spec_heap(), ext, hm, gm));
                assert forall|x: Handle| #[trigger] slots.contains(x) implies ext.contains(x) by {
                    let j = choose|j: int| 0 <= j < slots.len() && slots[j] == x;
                    assert(ext[j] == x);
                }
            }
        }
        self.finish_marking();
        let ghost sp1 = self.space;
        proof {
            if ready {
                lemma_after_colouring(sp0, sp1, ext);
            }
        }
        self.sweep();
        proof {
            if ready {
                let h0 = sp0.spec_heap();
                let h1 = sp1.spec_heap();
                let e = sp0.spec_bump();
                let h2 = self.space.spec_heap();
                let e2 = self.space.spec_bump();
                assert(whitened(h1, e, h2, e2));
                assert forall|g: Handle| #[trigger] reachable(h0, slots, g) implies colour_block(h2, e2, g.0 as int, true)
                    && forall|j: int| g.0 <= j < g.0 + h0.spec_size(g) && j != g.0 + 7 ==> #[trigger] h2@[j] == h0@[j] by {
                    crate::trace::lemma_reachable_more_roots(h0, slots, ext, g);
                    assert(in_use(h1, e, g.0 as int));
                    assert(Handle((g.0 as int) as u32) == g);
                    assert(h1.spec_color(g) == BLACK);
                    assert(colour_block(h1, e, g.0 as int, false));
                    lemma_on_tiles_facts(h0@, 0, e, g.0 as int);
                    assert(h1@[g.0 as int] == h0@[g.0 as int]);
                    assert(h1@[g.0 + 1] == h0@[g.0 + 1]);
                    assert(h1@[g.0 + 2] == h0@[g.0 + 2]);
                    assert(h1@[g.0 + 3] == h0@[g.0 + 3]);
                    assert forall|j: int| g.0 <= j < g.0 + h0.spec_size(g) && j != g.0 + 7 implies #[trigger] h2@[j] == h0@[j] by {
                        assert(h2@[j] == h1@[j]);
                    }
                }
                assert forall|x: int| #[trigger]
                    colour_block(h0, e, x, true) && !reachable(h0, ext, Handle(x as u32)) implies !in_use(h2, e2, x) by {
                    assert(in_use(h0, e, x));
                    assert(colour_block(h1, e, x, true));
                }
            }
        }
        self.stats.collections = self.stats.collections.saturating_add(1);
        self.stats.major_collections = self.stats.major_collections.saturating_add(1);
        let pause = clock::nanos_since(&start);
        self.stats.record_pause(pause);
    }

    fn account(&mut self, h: Handle) -> (r: Handle)
        requires
            old(self).space.wf(),
            old(self).space.spec_heap().hdr_in(h),
        ensures
            r == h,
            final(self).space == old(self).space,
            final(self).roots == old(self).roots,
            final(self).phase == old(self).phase,
            final(self).stats == counted_allocation(
                old(self).stats,
                old(self).space.spec_heap().spec_size(h),
                old(self).space.spec_used() as u32,
            ),
    {
        proof {
            self.space.lemma_wf();
        }
        self.stats.allocations = self.stats.allocations.saturating_add(1);
        let size = self.space.heap().size(h);
        self.stats.bytes_allocated = self.stats.bytes_allocated.saturating_add(size as u64);
        self.stats.observe_used(self.space.used_bytes());
        h
    }
}

impl Collector for Incremental {
    closed spec fn gc_heap(&self) -> Heap {
        self.space.spec_heap()
    }

    closed spec fn gc_roots(&self) -> Roots {
        self.roots
    }

    closed spec fn gc_stats(&self) -> GcStats {
        self.stats
    }

    closed spec fn gc_used(&self) -> int {
        self.space.spec_used()
    }

    closed spec fn gc_inv(&self) -> bool {
        self.space.wf()
    }

    proof fn lemma_inv_heap(&self) {
        self.space.lemma_wf();
    }

    fn name(&self) -> &'static str {
        "incremental tri-colour"
    }

    fn heap(&self) -> (r: &Heap) {
        self.space.heap()
    }

    fn heap_mut(&mut self) -> (r: &mut Heap) {
        self.space.heap_mut()
    }

    fn roots(&self) -> (r: &Roots) {
        &self.roots
    }

    fn roots_mut(&mut self) -> (r: &mut Roots) {
        &mut self.roots
    }

    fn stats(&self) -> (r: &GcStats) {
        &self.stats
    }

    fn used_bytes(&self) -> (r: u32) {
        self.space.used_bytes()
    }

    /// Allocation drives marking forward: while a cycle is in progress each
    /// allocation first blackens a few objects, finishing the cycle when
    /// nothing is left grey. An object born mid-cycle is black, one born
    /// between cycles white.
    #[verifier::spinoff_prover]
    #[verifier::rlimit(40)]
    fn allocate(&mut self, nrefs: u16, ndata: u32) -> (r: Result<Handle, GcError>)
        ensures
            old(self).spec_phase() == Phase::Idle && old(self).spec_space().spec_used() < old(self).spec_threshold()
                && old(self).spec_space().room_for(spec_size_for(nrefs as int, ndata as int)) ==> r is Ok,
            r matches Ok(h) ==> final(self).gc_heap().spec_color(h) == if final(self).spec_phase()
                == Phase::Marking {
                BLACK
            } else {
                WHITE
            },
    {
        match self.phase {
            Phase::Marking => {
                let start = clock::now();
                self.mark_step(MARK_BUDGET);
                if self.grey.len() == 0 {
                    self.finish_marking();
                    self.sweep();
                    self.stats.collections = self.stats.collections.saturating_add(1);
                    self.stats.major_collections = self.stats.major_collections.saturating_add(1);
                }
                let pause = clock::nanos_since(&start);
                self.stats.record_pause(pause);
            },
            Phase::Idle => {
                if self.space.used_bytes() >= self.threshold {
                    self.start_cycle();
                }
            },
        }

        let h = match self.space.allocate(nrefs, ndata) {
            Some(h) => h,
            None => {
                self.complete_cycle();
                match self.space.allocate(nrefs, ndata) {
                    Some(h) => h,
                    None => {
                        self.stats.allocation_failures = self.stats.allocation_failures.saturating_add(1);
                        return Err(
                            GcError::OutOfMemory {
                                requested: Heap::size_for(nrefs, ndata),
                                used: self.space.used_bytes(),
                                capacity: self.space.capacity(),
                            },
                        );
                    },
                }
            },
        };
        let ghost placed = self.space.spec_heap();
        let c = if self.phase == Phase::Marking {
            BLACK
        } else {
            WHITE
        };
        self.recolor(h, c);
        proof {
            placed.lemma_blank_keeps(self.space.spec_heap(), h, nrefs as int, ndata as int, h.0 + 7, c);
            assert(self.space.spec_heap().spec_color(h) == c);
        }
        Ok(self.account(h))
    }

    /// Dijkstra's barrier: while a cycle is in progress the value being
    /// stored is shaded, so no finished object can come to hold the only
    /// reference to one the marker has never seen. Between cycles there is
    /// no wavefront to protect and nothing is shaded.
    fn write_field(&mut self, obj: Handle, i: u16, val: Handle)
        ensures
            final(self).gc_heap().spec_field(obj, i as int) == val.0,
            final(self).gc_stats().barrier_hits == sat_add(old(self).gc_stats().barrier_hits, 1),
            final(self).spec_phase() == old(self).spec_phase(),
            old(self).spec_phase() == Phase::Idle ==> final(self).spec_grey() == old(self).spec_grey()
                && crate::heap::same_outside(
                final(self).gc_heap()@,
                old(self).gc_heap()@,
                obj.0 + 16 + 4 * i,
                obj.0 + 16 + 4 * i + 4,
            ),
            old(self).spec_phase() == Phase::Marking && old(self).gc_heap().spec_in_bounds(val) && old(self).gc_heap().spec_color(val) == WHITE ==> final(self).spec_grey() == old(self).spec_grey().push(
                val,
            ),
    {
        self.stats.barrier_hits = self.stats.barrier_hits.saturating_add(1);
        if self.phase == Phase::Marking && !val.is_null() {
            self.shade(val);
        }
        proof {
            self.space.lemma_wf();
        }
        if self.space.heap().field_ok(obj, i) {
            self.space.heap_mut().set_field(obj, i, val);
        }
    }

    /// A full collection. From a state fit for it, everything reachable
    /// from the roots survives as a white live block with every byte but
    /// its colour as it was, every white live block that nothing reaches
    /// is reclaimed, and the space stays walkable.
    fn collect(&mut self)
        ensures
            old(self).cycle_ready() ==> {
                let h0 = old(self).gc_heap();
                let e0 = old(self).spec_space().spec_bump();
                let slots = old(self).gc_roots().slots();
                let ext = slots + old(self).spec_grey();
                let h2 = final(self).gc_heap();
                let e2 = final(self).spec_space().spec_bump();
                &&& final(self).spec_space().walkable()
                &&& forall|g: Handle| #[trigger]
                    reachable(h0, slots, g) ==> colour_block(h2, e2, g.0 as int, true) && forall|j: int|
                        g.0 <= j < g.0 + h0.spec_size(g) && j != g.0 + 7 ==> #[trigger] h2@[j] == h0@[j]
                &&& forall|x: int| #[trigger]
                    colour_block(h0, e0, x, true) && !reachable(h0, ext, Handle(x as u32)) ==> !in_use(h2, e2, x)
            },
    {
        self.complete_cycle();
    }
}

} // verus!
