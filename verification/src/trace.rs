//! Reachability through the heap, and what a marking pass owes it.
//!
//! A tracing collector promises to mark every object reachable from the
//! roots. That promise can only hold of a heap whose reachable objects are
//! laid out sanely: each keeps its reference slots inside its own block, no
//! two overlap, and none carries a mark left over from an earlier
//! collection. [`trace_ready`] names those conditions; [`marking`] is the
//! invariant a worklist traversal keeps while it runs.

use crate::heap::{Handle, Heap, FLAG_MARK, NULL_ADDR};
use vstd::prelude::*;

verus! {

/// `p` is a path through the heap: it starts at a root, every object on it
/// is well-formed, and each one after the first is a child of the one
/// before.
pub open spec fn is_path(heap: Heap, roots: Seq<Handle>, p: Seq<Handle>) -> bool {
    &&& p.len() > 0
    &&& roots.contains(p[0])
    &&& forall|i: int| 0 <= i < p.len() ==> #[trigger] heap.spec_in_bounds(p[i])
    &&& forall|i: int| 0 < i < p.len() ==> #[trigger] heap.spec_children(p[i - 1]).contains(p[i])
}

/// `h` is a well-formed object reachable from `roots`.
pub open spec fn reachable(heap: Heap, roots: Seq<Handle>, h: Handle) -> bool {
    exists|p: Seq<Handle>| #[trigger] is_path(heap, roots, p) && p.last() == h
}

/// The blocks of `g` and `h` do not overlap.
pub open spec fn apart(heap: Heap, g: Handle, h: Handle) -> bool {
    g.0 + heap.spec_size(g) <= h.0 || h.0 + heap.spec_size(h) <= g.0
}

/// What a marking pass needs of the heap it starts on: every reachable
/// object keeps its reference slots inside its own block and carries no
/// mark yet, and no two reachable objects overlap.
pub open spec fn trace_ready(heap: Heap, roots: Seq<Handle>) -> bool {
    &&& forall|h: Handle| #[trigger]
        reachable(heap, roots, h) ==> 16 + 4 * heap.spec_nrefs(h) <= heap.spec_size(h)
            && !heap.spec_flag(h, FLAG_MARK)
    &&& forall|g: Handle, h: Handle|
        #[trigger] reachable(heap, roots, g) && #[trigger] reachable(heap, roots, h) && g != h
            ==> apart(heap, g, h)
}

/// `now` differs from `before` only in the flag bytes of reachable objects.
pub open spec fn flags_only(before: Heap, roots: Seq<Handle>, now: Heap) -> bool {
    &&& now@.len() == before@.len()
    &&& forall|i: int|
        #![trigger now@[i]]
        0 <= i < before@.len() && now@[i] != before@[i] ==> i % 16 == 6 && reachable(
            before,
            roots,
            Handle((i - 6) as u32),
        ) && now@[i] == before@[i] | FLAG_MARK
}

/// Every reachable object already marked in `now` has each of its
/// well-formed children marked or waiting in `work`.
pub open spec fn frontier_closed(before: Heap, roots: Seq<Handle>, now: Heap, work: Seq<Handle>) -> bool {
    forall|g: Handle, c: Handle|
        #[trigger] reachable(before, roots, g) && now.spec_flag(g, FLAG_MARK)
            && #[trigger] before.spec_children(g).contains(c) && before.spec_in_bounds(c)
            ==> now.spec_flag(c, FLAG_MARK) || work.contains(c)
}

/// Everything waiting in `work` that addresses a well-formed object is
/// reachable.
pub open spec fn queued_reachable(before: Heap, roots: Seq<Handle>, work: Seq<Handle>) -> bool {
    forall|c: Handle| #[trigger] work.contains(c) && before.spec_in_bounds(c) ==> reachable(before, roots, c)
}

/// The state of a marking pass that started on `before`: it has set mark
/// bits of reachable objects and nothing else, and what it has marked is
/// either finished or has its children waiting in `work`.
pub open spec fn marking(before: Heap, roots: Seq<Handle>, now: Heap, work: Seq<Handle>) -> bool {
    &&& flags_only(before, roots, now)
    &&& frontier_closed(before, roots, now, work)
    &&& queued_reachable(before, roots, work)
}

/// What visiting `h` does: an unmarked, well-formed object is marked and its
/// children are queued behind `work`; anything else is left alone.
pub open spec fn visited(now: Heap, work: Seq<Handle>, h: Handle, now2: Heap, work2: Seq<Handle>) -> bool {
    let fresh = now.spec_in_bounds(h) && !now.spec_flag(h, FLAG_MARK);
    &&& now2@ == if fresh {
        now@.update(h.0 + 6, now.spec_flags(h) | FLAG_MARK)
    } else {
        now@
    }
    &&& work2 == work + if fresh && 16 + 4 * now.spec_nrefs(h) <= now.cap() - h.0 {
        now.spec_children(h)
    } else {
        Seq::<Handle>::empty()
    }
}

/// What any visit of `h` must do, whether or not it skips children that are
/// already marked: an unmarked, well-formed `h` gets its mark bit and
/// nothing else changes in the heap; what was waiting still waits; what is
/// added is a child of `h`; and each child of `h` ends up marked or waiting.
pub open spec fn steps(now: Heap, work: Seq<Handle>, h: Handle, now2: Heap, work2: Seq<Handle>) -> bool {
    let fresh = now.spec_in_bounds(h) && !now.spec_flag(h, FLAG_MARK);
    &&& now2@ == if fresh {
        now@.update(h.0 + 6, now.spec_flags(h) | FLAG_MARK)
    } else {
        now@
    }
    &&& forall|c: Handle| #[trigger] work.contains(c) ==> work2.contains(c)
    &&& forall|c: Handle| #[trigger]
        work2.contains(c) ==> work.contains(c) || (fresh && now.spec_children(h).contains(c))
    &&& fresh && 16 + 4 * now.spec_nrefs(h) <= now.cap() - h.0 ==> forall|c: Handle| #[trigger]
        now.spec_children(h).contains(c) ==> work2.contains(c) || now2.spec_flag(c, FLAG_MARK)
}

/// Appending a node's children to the worklist is one way to visit it.
pub proof fn lemma_visited_steps(now: Heap, work: Seq<Handle>, h: Handle, now2: Heap, work2: Seq<Handle>)
    requires
        visited(now, work, h, now2, work2),
    ensures
        steps(now, work, h, now2, work2),
{
    let fresh = now.spec_in_bounds(h) && !now.spec_flag(h, FLAG_MARK);
    let extra = if fresh && 16 + 4 * now.spec_nrefs(h) <= now.cap() - h.0 {
        now.spec_children(h)
    } else {
        Seq::<Handle>::empty()
    };
    assert(work2 == work + extra);
    assert forall|c: Handle| #[trigger] work.contains(c) implies work2.contains(c) by {
        let j = choose|j: int| 0 <= j < work.len() && work[j] == c;
        assert(work2[j] == c);
    }
    assert forall|c: Handle| #[trigger] work2.contains(c) implies work.contains(c) || (fresh
        && now.spec_children(h).contains(c)) by {
        let j = choose|j: int| 0 <= j < work2.len() && work2[j] == c;
        if j < work.len() {
            assert(work[j] == c);
        } else {
            assert(extra[j - work.len()] == c);
        }
    }
    if fresh && 16 + 4 * now.spec_nrefs(h) <= now.cap() - h.0 {
        assert forall|c: Handle| #[trigger] now.spec_children(h).contains(c) implies work2.contains(c) by {
            let j = choose|j: int| 0 <= j < extra.len() && extra[j] == c;
            assert(work2[work.len() + j] == c);
        }
    }
}

/// A root that addresses a well-formed object is reachable.
pub proof fn lemma_root_reachable(heap: Heap, roots: Seq<Handle>, h: Handle)
    requires
        roots.contains(h),
        heap.spec_in_bounds(h),
    ensures
        reachable(heap, roots, h),
{
    let p = seq![h];
    assert(is_path(heap, roots, p));
}

/// Whatever is reachable from some roots is reachable from more.
pub proof fn lemma_reachable_more_roots(heap: Heap, a: Seq<Handle>, b: Seq<Handle>, h: Handle)
    requires
        reachable(heap, a, h),
        forall|x: Handle| #[trigger] a.contains(x) ==> b.contains(x),
    ensures
        reachable(heap, b, h),
{
    let p = choose|p: Seq<Handle>| #[trigger] is_path(heap, a, p) && p.last() == h;
    assert(is_path(heap, b, p));
}

/// A reachable object is well-formed.
pub proof fn lemma_reachable_in_bounds(heap: Heap, roots: Seq<Handle>, h: Handle)
    requires
        reachable(heap, roots, h),
    ensures
        heap.spec_in_bounds(h),
{
    let p = choose|p: Seq<Handle>| #[trigger] is_path(heap, roots, p) && p.last() == h;
    assert(heap.spec_in_bounds(p[p.len() - 1]));
}

/// A well-formed child of a reachable object is reachable.
pub proof fn lemma_reach_child(heap: Heap, roots: Seq<Handle>, g: Handle, c: Handle)
    requires
        reachable(heap, roots, g),
        heap.spec_children(g).contains(c),
        heap.spec_in_bounds(c),
    ensures
        reachable(heap, roots, c),
{
    let p = choose|p: Seq<Handle>| #[trigger] is_path(heap, roots, p) && p.last() == g;
    let q = p.push(c);
    assert forall|i: int| 0 <= i < q.len() implies #[trigger] heap.spec_in_bounds(q[i]) by {
        if i < p.len() {
            assert(q[i] == p[i]);
        }
    }
    assert forall|i: int| 0 < i < q.len() implies #[trigger] heap.spec_children(q[i - 1]).contains(q[i]) by {
        if i < p.len() {
            assert(q[i] == p[i] && q[i - 1] == p[i - 1]);
        }
    }
    assert(is_path(heap, roots, q));
}

/// A non-null slot below `n` is among the children read up to `n`.
pub proof fn lemma_slot_child(heap: Heap, g: Handle, n: int, i: int)
    requires
        0 <= i < n,
        heap.spec_field(g, i) != NULL_ADDR,
    ensures
        heap.children_upto(g, n).contains(Handle(heap.spec_field(g, i) as u32)),
    decreases n,
{
    let c = Handle(heap.spec_field(g, i) as u32);
    if i == n - 1 {
        let s = heap.children_upto(g, n - 1).push(c);
        assert(s[s.len() - 1] == c);
    } else {
        lemma_slot_child(heap, g, n - 1, i);
        let s = heap.children_upto(g, n - 1);
        let k = choose|k: int| 0 <= k < s.len() && s[k] == c;
        if heap.spec_field(g, n - 1) != NULL_ADDR {
            assert(s.push(Handle(heap.spec_field(g, n - 1) as u32))[k] == c);
        }
    }
}

/// Slots that read the same give the same children.
pub proof fn lemma_children_upto_frame(a: Heap, b: Heap, g: Handle, n: int)
    requires
        forall|i: int| 0 <= i < n ==> #[trigger] a.spec_field(g, i) == b.spec_field(g, i),
    ensures
        a.children_upto(g, n) == b.children_upto(g, n),
    decreases n,
{
    if n > 0 {
        lemma_children_upto_frame(a, b, g, n - 1);
        assert(a.spec_field(g, n - 1) == b.spec_field(g, n - 1));
    }
}

/// After storing `v` into one slot of `h`, every child of `h` was a child
/// before or is `v`.
pub proof fn lemma_children_after_store(a: Heap, b: Heap, h: Handle, i: int, v: Handle, n: int)
    requires
        forall|j: int| 0 <= j < n && j != i ==> #[trigger] b.spec_field(h, j) == a.spec_field(h, j),
        b.spec_field(h, i) == v.0,
    ensures
        forall|c: Handle| #[trigger] b.children_upto(h, n).contains(c) ==> a.children_upto(h, n).contains(c) || c == v,
    decreases n,
{
    if n > 0 {
        lemma_children_after_store(a, b, h, i, v, n - 1);
        assert forall|c: Handle| #[trigger] b.children_upto(h, n).contains(c) implies a.children_upto(h, n).contains(c)
            || c == v by {
            let bs = b.children_upto(h, n - 1);
            let as_ = a.children_upto(h, n - 1);
            if bs.contains(c) {
                if as_.contains(c) {
                    let k = choose|k: int| 0 <= k < as_.len() && as_[k] == c;
                    if a.spec_field(h, n - 1) != crate::heap::NULL_ADDR {
                        assert(a.children_upto(h, n) == as_.push(Handle(a.spec_field(h, n - 1) as u32)));
                        assert(a.children_upto(h, n)[k] == c);
                    }
                }
            } else {
                assert(b.spec_field(h, n - 1) != crate::heap::NULL_ADDR);
                assert(b.children_upto(h, n) == bs.push(Handle(b.spec_field(h, n - 1) as u32)));
                assert(c == Handle(b.spec_field(h, n - 1) as u32));
                if n - 1 != i {
                    assert(a.spec_field(h, n - 1) == b.spec_field(h, n - 1));
                    assert(a.children_upto(h, n) == as_.push(c));
                    assert(a.children_upto(h, n)[as_.len() as int] == c);
                } else {
                    assert(c.0 == v.0);
                }
            }
        }
    }
}

/// Setting the flag byte of `h` leaves its children as they were.
pub proof fn lemma_flag_write_keeps_children(a: Heap, b: Heap, h: Handle, v: u8)
    requires
        b@ == a@.update(h.0 + 6, v),
        h.0 + 16 + 4 * a.spec_nrefs(h) <= a.cap(),
    ensures
        b.spec_nrefs(h) == a.spec_nrefs(h),
        b.spec_children(h) == a.spec_children(h),
{
    assert(b.spec_nrefs(h) == a.spec_nrefs(h));
    assert forall|i: int| 0 <= i < a.spec_nrefs(h) implies #[trigger] a.spec_field(h, i) == b.spec_field(h, i) by {
        let o = h.0 + 16 + 4 * i;
        assert(b@[o] == a@[o] && b@[o + 1] == a@[o + 1] && b@[o + 2] == a@[o + 2] && b@[o + 3] == a@[o + 3]);
    }
    lemma_children_upto_frame(a, b, h, a.spec_nrefs(h));
}

/// Bytes other than flag bytes are untouched, so every header reads the same
/// size and slot count, and is well-formed exactly when it was.
pub proof fn lemma_flags_only_header(before: Heap, roots: Seq<Handle>, now: Heap, h: Handle)
    requires
        flags_only(before, roots, now),
    ensures
        now.spec_in_bounds(h) == before.spec_in_bounds(h),
        h.0 % 16 == 0 && h.0 + 16 <= before.cap() ==> now.spec_size(h) == before.spec_size(h)
            && now.spec_nrefs(h) == before.spec_nrefs(h),
{
    if h.0 % 16 == 0 && h.0 + 16 <= before.cap() {
        let o = h.0 as int;
        assert(now@[o] == before@[o]);
        assert(now@[o + 1] == before@[o + 1]);
        assert(now@[o + 2] == before@[o + 2]);
        assert(now@[o + 3] == before@[o + 3]);
        assert(now@[o + 4] == before@[o + 4]);
        assert(now@[o + 5] == before@[o + 5]);
    }
}

/// A reachable object's children read the same as when the pass began:
/// its slots lie in its own block, and no other reachable object's flag
/// byte does.
#[verifier::spinoff_prover]
pub proof fn lemma_flags_only_children(before: Heap, roots: Seq<Handle>, now: Heap, g: Handle)
    requires
        before.wf(),
        trace_ready(before, roots),
        flags_only(before, roots, now),
        reachable(before, roots, g),
    ensures
        now.spec_children(g) == before.spec_children(g),
{
    lemma_flags_only_header(before, roots, now, g);
    let n = before.spec_nrefs(g);
    assert(16 + 4 * n <= before.spec_size(g));
    assert forall|j: int| g.0 + 16 <= j < g.0 + 16 + 4 * n implies #[trigger] now@[j] == before@[j] by {
        if now@[j] != before@[j] {
            let a = Handle((j - 6) as u32);
            assert(reachable(before, roots, a));
            assert(a.0 == j - 6);
            assert(a != g);
            assert(apart(before, g, a));
            lemma_reachable_in_bounds(before, roots, a);
        }
    }
    assert forall|i: int| 0 <= i < n implies #[trigger] now.spec_field(g, i) == before.spec_field(g, i) by {
        let o = g.0 + 16 + 4 * i;
        assert(now@[o] == before@[o] && now@[o + 1] == before@[o + 1] && now@[o + 2] == before@[o + 2]
            && now@[o + 3] == before@[o + 3]);
    }
    lemma_children_upto_frame(now, before, g, n);
}

/// Where a pass starts: nothing marked yet, nothing waiting.
pub proof fn lemma_mark_start(before: Heap, roots: Seq<Handle>)
    requires
        trace_ready(before, roots),
    ensures
        marking(before, roots, before, Seq::empty()),
{
}

/// A visit of `h` keeps every well-formed object that was marked or waiting
/// (other than `h` itself, which it marks) marked or waiting.
#[verifier::spinoff_prover]
pub proof fn lemma_step_keeps(
    before: Heap,
    roots: Seq<Handle>,
    now: Heap,
    pending: Seq<Handle>,
    work: Seq<Handle>,
    h: Handle,
    now2: Heap,
    work2: Seq<Handle>,
    c: Handle,
)
    requires
        flags_only(before, roots, now),
        forall|x: Handle| #[trigger] pending.contains(x) ==> work.contains(x) || x == h,
        steps(now, work, h, now2, work2),
        now.spec_flag(c, FLAG_MARK) || pending.contains(c),
        before.spec_in_bounds(c),
    ensures
        now2.spec_flag(c, FLAG_MARK) || work2.contains(c),
{
    lemma_flags_only_header(before, roots, now, c);
    let fresh = now.spec_in_bounds(h) && !now.spec_flag(h, FLAG_MARK);
    if fresh {
        let f = now.spec_flags(h);
        assert((f | 1u8) & 1u8 != 0) by (bit_vector);
        if c != h {
            assert(c.0 + 6 != h.0 + 6);
            assert(now2.spec_flags(c) == now.spec_flags(c));
        }
    }
    if !now.spec_flag(c, FLAG_MARK) && c != h {
        assert(work.contains(c));
    }
}

/// Popping `h` off the end of `pending` leaves `rest`: everything that was
/// waiting, other than `h`, still is.
pub proof fn lemma_pop_shape(pending: Seq<Handle>, rest: Seq<Handle>, h: Handle)
    requires
        pending == rest.push(h),
    ensures
        pending.contains(h),
        forall|c: Handle| #[trigger] pending.contains(c) ==> rest.contains(c) || c == h,
        forall|c: Handle| #[trigger] rest.contains(c) ==> pending.contains(c),
{
    assert(pending[pending.len() - 1] == h);
    assert forall|c: Handle| #[trigger] pending.contains(c) implies rest.contains(c) || c == h by {
        let j = choose|j: int| 0 <= j < pending.len() && pending[j] == c;
        if j < rest.len() {
            assert(rest[j] == c);
        }
    }
    assert forall|c: Handle| #[trigger] rest.contains(c) implies pending.contains(c) by {
        let j = choose|j: int| 0 <= j < rest.len() && rest[j] == c;
        assert(pending[j] == c);
    }
}

/// The same as [`lemma_step_keeps`], judged by the heap as it is rather
/// than as it was when the pass began.
#[verifier::spinoff_prover]
pub proof fn lemma_step_keeps_any(
    now: Heap,
    pending: Seq<Handle>,
    work: Seq<Handle>,
    h: Handle,
    now2: Heap,
    work2: Seq<Handle>,
    c: Handle,
)
    requires
        forall|x: Handle| #[trigger] pending.contains(x) ==> work.contains(x) || x == h,
        steps(now, work, h, now2, work2),
        now2.spec_in_bounds(c) ==> now.spec_flag(c, FLAG_MARK) || pending.contains(c),
    ensures
        now2.spec_in_bounds(c) ==> now2.spec_flag(c, FLAG_MARK) || work2.contains(c),
{
    let fresh = now.spec_in_bounds(h) && !now.spec_flag(h, FLAG_MARK);
    if now2.spec_in_bounds(c) {
        if fresh {
            let o = c.0 as int;
            assert(now2@[o] == now@[o] && now2@[o + 1] == now@[o + 1] && now2@[o + 2] == now@[o + 2]
                && now2@[o + 3] == now@[o + 3]);
            assert(now.spec_in_bounds(c));
            let f = now.spec_flags(h);
            assert((f | 1u8) & 1u8 != 0) by (bit_vector);
            if c != h {
                assert(c.0 + 6 != h.0 + 6);
                assert(now2.spec_flags(c) == now.spec_flags(c));
            }
        }
        if !now.spec_flag(c, FLAG_MARK) && c != h {
            assert(pending.contains(c));
            assert(work.contains(c));
        }
    }
}

/// Visiting `h` keeps the pass's invariant, provided every entry of the old
/// worklist other than `h` is still waiting and `h` is reachable if it is
/// well-formed.
#[verifier::spinoff_prover]
pub proof fn lemma_mark_step(
    before: Heap,
    roots: Seq<Handle>,
    now: Heap,
    pending: Seq<Handle>,
    work: Seq<Handle>,
    h: Handle,
    now2: Heap,
    work2: Seq<Handle>,
)
    requires
        before.wf(),
        trace_ready(before, roots),
        marking(before, roots, now, pending),
        forall|c: Handle| #[trigger] pending.contains(c) ==> work.contains(c) || c == h,
        forall|c: Handle| #[trigger] work.contains(c) ==> pending.contains(c),
        before.spec_in_bounds(h) ==> reachable(before, roots, h),
        steps(now, work, h, now2, work2),
    ensures
        marking(before, roots, now2, work2),
{
    lemma_flags_only_header(before, roots, now, h);
    let fresh = now.spec_in_bounds(h) && !now.spec_flag(h, FLAG_MARK);
    if fresh {
        assert(reachable(before, roots, h));
        lemma_flags_only_children(before, roots, now, h);
        lemma_reachable_in_bounds(before, roots, h);
        assert(16 + 4 * now.spec_nrefs(h) <= now.cap() - h.0);
        // Only the flag byte of `h` changed, and `h` is reachable.
        let f = before@[h.0 + 6];
        assert((f | 1u8) & 1u8 != 0) by (bit_vector);
        assert(now@[h.0 + 6] == f);
        assert forall|i: int|
            #![trigger now2@[i]]
            0 <= i < before@.len() && now2@[i] != before@[i] implies i % 16 == 6 && reachable(
                before,
                roots,
                Handle((i - 6) as u32),
            ) && now2@[i] == before@[i] | FLAG_MARK by {
            if i != h.0 + 6 {
                assert(now2@[i] == now@[i]);
            } else {
                assert(Handle((i - 6) as u32) == h);
            }
        }
    }
    assert forall|g: Handle, c: Handle|
        #[trigger] reachable(before, roots, g) && now2.spec_flag(g, FLAG_MARK)
            && #[trigger] before.spec_children(g).contains(c) && before.spec_in_bounds(c)
            implies now2.spec_flag(c, FLAG_MARK) || work2.contains(c) by {
        lemma_reachable_in_bounds(before, roots, g);
        if fresh && g == h {
            assert(now.spec_children(h).contains(c));
        } else {
            if fresh {
                assert(g.0 + 6 != h.0 + 6);
            }
            assert(now.spec_flag(g, FLAG_MARK));
            lemma_step_keeps(before, roots, now, pending, work, h, now2, work2, c);
        }
    }
    assert forall|c: Handle| #[trigger] work2.contains(c) && before.spec_in_bounds(c) implies reachable(
        before,
        roots,
        c,
    ) by {
        if work.contains(c) {
            assert(pending.contains(c));
        } else {
            assert(before.spec_children(h).contains(c));
            lemma_reach_child(before, roots, h, c);
        }
    }
}

/// Every object on a path is marked, once the pass has nothing left waiting
/// and every well-formed root is marked.
proof fn lemma_path_marked(before: Heap, roots: Seq<Handle>, now: Heap, p: Seq<Handle>, i: int)
    requires
        marking(before, roots, now, Seq::empty()),
        forall|r: Handle| #[trigger] roots.contains(r) && before.spec_in_bounds(r) ==> now.spec_flag(r, FLAG_MARK),
        is_path(before, roots, p),
        0 <= i < p.len(),
    ensures
        now.spec_flag(p[i], FLAG_MARK),
    decreases i,
{
    assert(before.spec_in_bounds(p[i]));
    if i > 0 {
        lemma_path_marked(before, roots, now, p, i - 1);
        assert(before.spec_children(p[i - 1]).contains(p[i]));
        let q = p.subrange(0, i);
        assert(is_path(before, roots, q)) by {
            assert forall|j: int| 0 <= j < q.len() implies #[trigger] before.spec_in_bounds(q[j]) by {
                assert(q[j] == p[j]);
                assert(before.spec_in_bounds(p[j]));
            }
            assert forall|j: int| 0 < j < q.len() implies #[trigger] before.spec_children(q[j - 1]).contains(q[j]) by {
                assert(q[j] == p[j] && q[j - 1] == p[j - 1]);
                assert(before.spec_children(p[j - 1]).contains(p[j]));
            }
        }
        assert(reachable(before, roots, p[i - 1]));
        assert(!Seq::<Handle>::empty().contains(p[i]));
    }
}

/// A finished pass has marked everything reachable.
pub proof fn lemma_mark_done(before: Heap, roots: Seq<Handle>, now: Heap)
    requires
        marking(before, roots, now, Seq::empty()),
        forall|r: Handle| #[trigger] roots.contains(r) && before.spec_in_bounds(r) ==> now.spec_flag(r, FLAG_MARK),
    ensures
        forall|h: Handle| #[trigger] reachable(before, roots, h) ==> now.spec_flag(h, FLAG_MARK),
{
    assert forall|h: Handle| #[trigger] reachable(before, roots, h) implies now.spec_flag(h, FLAG_MARK) by {
        let p = choose|p: Seq<Handle>| #[trigger] is_path(before, roots, p) && p.last() == h;
        lemma_path_marked(before, roots, now, p, p.len() - 1);
    }
}

} // verus!
