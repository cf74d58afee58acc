//! The tri-colour invariant, and what shading and blackening do to it.
//!
//! Reachability is taken from `roots` in the heap `before` a marking pass
//! began; the pass then only ever rewrites colour bytes. The invariant
//! [`tricolour`] is the strong one: no black object refers to a white one,
//! and every grey object is waiting in the grey set. When the grey set is
//! empty and every root has been shaded, everything reachable is black.

use crate::heap::{Handle, Heap, BLACK, GREY, WHITE};
use crate::trace::{
    apart, is_path, lemma_children_upto_frame, lemma_reach_child, lemma_reachable_in_bounds, queued_reachable,
    reachable,
};
use vstd::prelude::*;

verus! {

/// One of the three colours.
pub open spec fn coloured(c: u8) -> bool {
    c == WHITE || c == GREY || c == BLACK
}

/// `b` differs from `a` at most in colour bytes.
pub open spec fn only_colours(a: Heap, b: Heap) -> bool {
    &&& b@.len() == a@.len()
    &&& forall|i: int| #![trigger b@[i]] 0 <= i < a@.len() && b@[i] != a@[i] ==> i % 16 == 7
}

/// What a marking pass needs of the heap it starts on: every reachable
/// object keeps its reference slots inside its own block and carries one of
/// the three colours, and no two reachable objects overlap.
pub open spec fn colour_ready(heap: Heap, roots: Seq<Handle>) -> bool {
    &&& forall|h: Handle| #[trigger]
        reachable(heap, roots, h) ==> 16 + 4 * heap.spec_nrefs(h) <= heap.spec_size(h) && coloured(
            heap.spec_color(h),
        )
    &&& forall|g: Handle, h: Handle|
        #[trigger] reachable(heap, roots, g) && #[trigger] reachable(heap, roots, h) && g != h
            ==> apart(heap, g, h)
}

/// `now` differs from `before` only in the colour bytes of reachable
/// objects.
pub open spec fn colours_only(before: Heap, roots: Seq<Handle>, now: Heap) -> bool {
    &&& now@.len() == before@.len()
    &&& forall|i: int|
        #![trigger now@[i]]
        0 <= i < before@.len() && now@[i] != before@[i] ==> i % 16 == 7 && reachable(
            before,
            roots,
            Handle((i - 7) as u32),
        )
}

/// Every reachable grey object is waiting in `grey`.
pub open spec fn greys_queued(before: Heap, roots: Seq<Handle>, now: Heap, grey: Seq<Handle>) -> bool {
    forall|g: Handle| #[trigger] reachable(before, roots, g) && now.spec_color(g) == GREY ==> grey.contains(g)
}

/// No reachable black object refers to a white one.
pub open spec fn blacks_closed(before: Heap, roots: Seq<Handle>, now: Heap) -> bool {
    forall|g: Handle, c: Handle|
        #[trigger] reachable(before, roots, g) && now.spec_color(g) == BLACK
            && #[trigger] before.spec_children(g).contains(c) && before.spec_in_bounds(c)
            ==> now.spec_color(c) != WHITE
}

/// The strong tri-colour invariant of a pass that began on `before`, with
/// `grey` as its grey set.
pub open spec fn tricolour(before: Heap, roots: Seq<Handle>, now: Heap, grey: Seq<Handle>) -> bool {
    &&& colours_only(before, roots, now)
    &&& greys_queued(before, roots, now, grey)
    &&& blacks_closed(before, roots, now)
    &&& queued_reachable(before, roots, grey)
    &&& forall|g: Handle| #[trigger] reachable(before, roots, g) ==> coloured(now.spec_color(g))
}

/// Whatever marking pass is under way, going from `a` with grey set `ga`
/// to `b` with grey set `gb` keeps its invariant.
pub open spec fn keeps_tricolour(a: Heap, ga: Seq<Handle>, b: Heap, gb: Seq<Handle>) -> bool {
    forall|before: Heap, roots: Seq<Handle>|
        #![trigger colour_ready(before, roots), tricolour(before, roots, a, ga)]
        before.wf() && colour_ready(before, roots) && tricolour(before, roots, a, ga) ==> tricolour(
            before,
            roots,
            b,
            gb,
        )
}

/// Rewriting the colour byte of an aligned header changes only a colour
/// byte.
pub proof fn lemma_recolour_only_colours(a: Heap, b: Heap, h: Handle, c: u8)
    requires
        h.0 % 16 == 0,
        h.0 + 16 <= a.cap(),
        b@ == a@.update(h.0 + 7, c),
    ensures
        only_colours(a, b),
{
}

/// Changes to colour bytes alone compose.
pub proof fn lemma_only_colours_trans(a: Heap, b: Heap, c: Heap)
    requires
        only_colours(a, b),
        only_colours(b, c),
    ensures
        only_colours(a, c),
{
    assert forall|i: int| #![trigger c@[i]] 0 <= i < a@.len() && c@[i] != a@[i] implies i % 16 == 7 by {
        if b@[i] == a@[i] {
            assert(c@[i] != b@[i]);
        }
    }
}

/// A pass that has only recoloured reachable objects has not changed which
/// objects are well-formed.
pub proof fn lemma_colours_only_header(before: Heap, roots: Seq<Handle>, now: Heap, h: Handle)
    requires
        colours_only(before, roots, now),
    ensures
        now.spec_in_bounds(h) == before.spec_in_bounds(h),
{
    assert(only_colours(before, now)) by {
        assert forall|i: int| #![trigger now@[i]] 0 <= i < before@.len() && now@[i] != before@[i] implies i % 16 == 7 by {
        }
    }
    lemma_only_colours_header(before, now, h);
}

/// Colour bytes are not read by a header's size, slot count or shape.
pub proof fn lemma_only_colours_header(a: Heap, b: Heap, h: Handle)
    requires
        only_colours(a, b),
    ensures
        b.spec_in_bounds(h) == a.spec_in_bounds(h),
        h.0 % 16 == 0 && h.0 + 16 <= a.cap() ==> b.spec_size(h) == a.spec_size(h) && b.spec_nrefs(h)
            == a.spec_nrefs(h),
{
    if h.0 % 16 == 0 && h.0 + 16 <= a.cap() {
        let o = h.0 as int;
        assert(b@[o] == a@[o]);
        assert(b@[o + 1] == a@[o + 1]);
        assert(b@[o + 2] == a@[o + 2]);
        assert(b@[o + 3] == a@[o + 3]);
        assert(b@[o + 4] == a@[o + 4]);
        assert(b@[o + 5] == a@[o + 5]);
    }
}

/// A reachable object's children read the same as when the pass began:
/// its slots lie in its own block, and no other reachable object's colour
/// byte does.
#[verifier::spinoff_prover]
pub proof fn lemma_colours_keep_children(before: Heap, roots: Seq<Handle>, now: Heap, g: Handle)
    requires
        before.wf(),
        colour_ready(before, roots),
        colours_only(before, roots, now),
        reachable(before, roots, g),
    ensures
        now.spec_children(g) == before.spec_children(g),
{
    lemma_reachable_in_bounds(before, roots, g);
    let n = before.spec_nrefs(g);
    assert(16 + 4 * n <= before.spec_size(g));
    assert forall|j: int| g.0 + 16 <= j < g.0 + 16 + 4 * n implies #[trigger] now@[j] == before@[j] by {
        if now@[j] != before@[j] {
            let a = Handle((j - 7) as u32);
            assert(reachable(before, roots, a));
            assert(a.0 == j - 7);
            assert(a != g);
            assert(apart(before, g, a));
            lemma_reachable_in_bounds(before, roots, a);
        }
    }
    let o = g.0 as int;
    assert(now@[o + 4] == before@[o + 4] && now@[o + 5] == before@[o + 5]);
    assert forall|i: int| 0 <= i < n implies #[trigger] now.spec_field(g, i) == before.spec_field(g, i) by {
        let o = g.0 + 16 + 4 * i;
        assert(now@[o] == before@[o] && now@[o + 1] == before@[o + 1] && now@[o + 2] == before@[o + 2]
            && now@[o + 3] == before@[o + 3]);
    }
    lemma_children_upto_frame(now, before, g, n);
}

/// Shading `c` keeps the invariant: a white, well-formed `c` turns grey and
/// joins the grey set, and nothing else changes colour.
#[verifier::spinoff_prover]
pub proof fn lemma_shade_step(
    before: Heap,
    roots: Seq<Handle>,
    now: Heap,
    grey: Seq<Handle>,
    c: Handle,
    now2: Heap,
    grey2: Seq<Handle>,
)
    requires
        before.wf(),
        colour_ready(before, roots),
        tricolour(before, roots, now, grey),
        before.spec_in_bounds(c) ==> reachable(before, roots, c),
        ({
            let fresh = now.spec_in_bounds(c) && now.spec_color(c) == WHITE;
            &&& now2@ == if fresh {
                now@.update(c.0 + 7, GREY)
            } else {
                now@
            }
            &&& forall|x: Handle| #[trigger] grey.contains(x) ==> grey2.contains(x)
            &&& forall|x: Handle| #[trigger] grey2.contains(x) ==> grey.contains(x) || (fresh && x == c)
            &&& fresh ==> grey2.contains(c)
        }),
    ensures
        tricolour(before, roots, now2, grey2),
{
    let fresh = now.spec_in_bounds(c) && now.spec_color(c) == WHITE;
    lemma_only_colours_header_via(before, roots, now, c);
    if fresh {
        assert(reachable(before, roots, c));
        assert forall|i: int|
            #![trigger now2@[i]]
            0 <= i < before@.len() && now2@[i] != before@[i] implies i % 16 == 7 && reachable(
                before,
                roots,
                Handle((i - 7) as u32),
            ) by {
            if i != c.0 + 7 {
                assert(now2@[i] == now@[i]);
            } else {
                assert(Handle((i - 7) as u32) == c);
            }
        }
        assert forall|x: Handle| x != c && x.0 + 16 <= before.cap() implies #[trigger] now2.spec_color(x)
            == now.spec_color(x) by {
            assert(x.0 + 7 != c.0 + 7);
        }
        assert(now2.spec_color(c) == GREY);
        assert forall|g: Handle| #[trigger]
            reachable(before, roots, g) && now2.spec_color(g) == GREY implies grey2.contains(g) by {
            lemma_reachable_in_bounds(before, roots, g);
            if g != c {
                assert(grey.contains(g));
            }
        }
        assert forall|g: Handle, x: Handle|
            #[trigger] reachable(before, roots, g) && now2.spec_color(g) == BLACK
                && #[trigger] before.spec_children(g).contains(x) && before.spec_in_bounds(x)
                implies now2.spec_color(x) != WHITE by {
            lemma_reachable_in_bounds(before, roots, g);
            assert(g != c);
            assert(now.spec_color(g) == BLACK);
            assert(now.spec_color(x) != WHITE);
        }
        assert forall|x: Handle| #[trigger] grey2.contains(x) && before.spec_in_bounds(x) implies reachable(
            before,
            roots,
            x,
        ) by {}
        assert forall|g: Handle| #[trigger] reachable(before, roots, g) implies coloured(now2.spec_color(g)) by {
            lemma_reachable_in_bounds(before, roots, g);
        }
    } else {
        assert forall|x: Handle| #[trigger] grey2.contains(x) && before.spec_in_bounds(x) implies reachable(
            before,
            roots,
            x,
        ) by {}
    }
}

/// What a shade does, as [`lemma_shade_step`] takes it: given the exact
/// effect, the weaker description holds, colours only move away from white,
/// and a well-formed target ends up not white.
pub proof fn lemma_shade_effect(now: Heap, grey: Seq<Handle>, c: Handle, now2: Heap, grey2: Seq<Handle>)
    requires
        now.spec_in_bounds(c) && now.spec_color(c) == WHITE ==> grey2 == grey.push(c) && now2@ == now@.update(
            c.0 + 7,
            GREY,
        ),
        !(now.spec_in_bounds(c) && now.spec_color(c) == WHITE) ==> grey2 == grey && now2@ == now@,
    ensures
        ({
            let fresh = now.spec_in_bounds(c) && now.spec_color(c) == WHITE;
            &&& now2@ == if fresh {
                now@.update(c.0 + 7, GREY)
            } else {
                now@
            }
            &&& forall|x: Handle| #[trigger] grey.contains(x) ==> grey2.contains(x)
            &&& forall|x: Handle| #[trigger] grey2.contains(x) ==> grey.contains(x) || (fresh && x == c)
            &&& fresh ==> grey2.contains(c)
        }),
        only_colours(now, now2),
        forall|x: Handle|
            x.0 + 16 <= now.cap() && #[trigger] now.spec_color(x) != WHITE ==> now2.spec_color(x) == now.spec_color(x),
        now.spec_in_bounds(c) ==> now2.spec_color(c) != WHITE,
{
    let fresh = now.spec_in_bounds(c) && now.spec_color(c) == WHITE;
    if fresh {
        assert forall|x: Handle| #[trigger] grey.contains(x) implies grey2.contains(x) by {
            let j = choose|j: int| 0 <= j < grey.len() && grey[j] == x;
            assert(grey2[j] == x);
        }
        assert forall|x: Handle| #[trigger] grey2.contains(x) implies grey.contains(x) || x == c by {
            let j = choose|j: int| 0 <= j < grey2.len() && grey2[j] == x;
            if j < grey.len() {
                assert(grey[j] == x);
            }
        }
        assert(grey2[grey.len() as int] == c);
        assert forall|x: Handle|
            x.0 + 16 <= now.cap() && #[trigger] now.spec_color(x) != WHITE implies now2.spec_color(x) == now.spec_color(x) by {
            assert(x.0 + 7 != c.0 + 7);
        }
    }
}

/// Shading a child of `g` while `g` itself is being scanned: the same as
/// [`lemma_shade_step`], with `g` counted as still waiting.
#[verifier::spinoff_prover]
pub proof fn lemma_shade_step_pending(
    before: Heap,
    roots: Seq<Handle>,
    now: Heap,
    grey: Seq<Handle>,
    c: Handle,
    now2: Heap,
    grey2: Seq<Handle>,
    g: Handle,
)
    requires
        before.wf(),
        colour_ready(before, roots),
        tricolour(before, roots, now, grey.push(g)),
        before.spec_in_bounds(c) ==> reachable(before, roots, c),
        now.spec_in_bounds(c) && now.spec_color(c) == WHITE ==> grey2 == grey.push(c) && now2@ == now@.update(
            c.0 + 7,
            GREY,
        ),
        !(now.spec_in_bounds(c) && now.spec_color(c) == WHITE) ==> grey2 == grey && now2@ == now@,
    ensures
        tricolour(before, roots, now2, grey2.push(g)),
{
    lemma_shade_effect(now, grey, c, now2, grey2);
    let fresh = now.spec_in_bounds(c) && now.spec_color(c) == WHITE;
    let p1 = grey.push(g);
    let p2 = grey2.push(g);
    assert forall|x: Handle| #[trigger] p1.contains(x) implies p2.contains(x) by {
        let j = choose|j: int| 0 <= j < p1.len() && p1[j] == x;
        if j < grey.len() {
            assert(grey[j] == x);
            assert(grey.contains(x));
            assert(grey2.contains(x));
            let k = choose|k: int| 0 <= k < grey2.len() && grey2[k] == x;
            assert(p2[k] == x);
        } else {
            assert(p2[grey2.len() as int] == x);
        }
    }
    assert forall|x: Handle| #[trigger] p2.contains(x) implies p1.contains(x) || (fresh && x == c) by {
        let j = choose|j: int| 0 <= j < p2.len() && p2[j] == x;
        if j < grey2.len() {
            assert(grey2[j] == x);
            assert(grey2.contains(x));
            if grey.contains(x) {
                let k = choose|k: int| 0 <= k < grey.len() && grey[k] == x;
                assert(p1[k] == x);
            }
        } else {
            assert(p1[grey.len() as int] == x);
        }
    }
    if fresh {
        let k = choose|k: int| 0 <= k < grey2.len() && grey2[k] == c;
        assert(p2[k] == c);
    }
    lemma_shade_step(before, roots, now, p1, c, now2, p2);
}

/// A grey-set entry that addresses a well-formed object is reachable.
pub proof fn lemma_scanned_reachable(before: Heap, roots: Seq<Handle>, now: Heap, pending: Seq<Handle>, g: Handle)
    requires
        tricolour(before, roots, now, pending),
        pending.contains(g),
        now.spec_in_bounds(g),
    ensures
        reachable(before, roots, g),
{
    lemma_only_colours_header_via(before, roots, now, g);
}

/// A well-formed child, as read now, of a grey-set entry being scanned is
/// reachable.
pub proof fn lemma_scanned_child_reachable(
    before: Heap,
    roots: Seq<Handle>,
    now: Heap,
    pending: Seq<Handle>,
    g: Handle,
    c: Handle,
)
    requires
        before.wf(),
        colour_ready(before, roots),
        tricolour(before, roots, now, pending),
        pending.contains(g),
        now.spec_in_bounds(g),
        now.spec_children(g).contains(c),
    ensures
        before.spec_in_bounds(c) ==> reachable(before, roots, c),
{
    lemma_scanned_reachable(before, roots, now, pending, g);
    lemma_colours_keep_children(before, roots, now, g);
    if before.spec_in_bounds(c) {
        lemma_reach_child(before, roots, g, c);
    }
}

/// Once every child of a reachable `g`, as read when its scan began, has
/// been shaded, every well-formed child of `g` is not white; and a reachable
/// `g` always has room for its slots, so its scan cannot have been skipped.
pub proof fn lemma_blacken_ready(
    before: Heap,
    roots: Seq<Handle>,
    hg: Heap,
    pending: Seq<Handle>,
    g: Handle,
    cur: Heap,
    gr: Seq<Handle>,
    fits: bool,
)
    requires
        before.wf(),
        colour_ready(before, roots),
        tricolour(before, roots, hg, pending),
        reachable(before, roots, g),
        hg.spec_in_bounds(g),
        fits == (16 + 4 * hg.spec_nrefs(g) <= hg.cap() - g.0),
        fits ==> only_colours(hg, cur),
        fits ==> forall|j: int|
            0 <= j < hg.spec_children(g).len() && hg.spec_in_bounds(#[trigger] hg.spec_children(g)[j])
                ==> cur.spec_color(hg.spec_children(g)[j]) != WHITE,
    ensures
        fits,
        forall|c: Handle|
            #[trigger] before.spec_children(g).contains(c) && before.spec_in_bounds(c) ==> cur.spec_color(c) != WHITE,
{
    lemma_reachable_in_bounds(before, roots, g);
    assert(only_colours(before, hg));
    lemma_only_colours_header(before, hg, g);
    lemma_colours_keep_children(before, roots, hg, g);
    assert forall|c: Handle|
        #[trigger] before.spec_children(g).contains(c) && before.spec_in_bounds(c) implies cur.spec_color(c) != WHITE by {
        let kids = hg.spec_children(g);
        let j = choose|j: int| 0 <= j < kids.len() && kids[j] == c;
        lemma_only_colours_header(before, hg, c);
    }
}

/// The header facts of [`lemma_only_colours_header`], for a pass's heap.
proof fn lemma_only_colours_header_via(before: Heap, roots: Seq<Handle>, now: Heap, h: Handle)
    requires
        colours_only(before, roots, now),
    ensures
        now.spec_in_bounds(h) == before.spec_in_bounds(h),
{
    assert(only_colours(before, now));
    lemma_only_colours_header(before, now, h);
}

/// Blackening `g`, once every well-formed child of it is no longer white,
/// keeps the invariant with `g` out of the grey set.
#[verifier::spinoff_prover]
pub proof fn lemma_blacken_step(
    before: Heap,
    roots: Seq<Handle>,
    now: Heap,
    pending: Seq<Handle>,
    rest: Seq<Handle>,
    g: Handle,
    now2: Heap,
)
    requires
        before.wf(),
        colour_ready(before, roots),
        tricolour(before, roots, now, pending),
        reachable(before, roots, g),
        forall|x: Handle| #[trigger] pending.contains(x) ==> rest.contains(x) || x == g,
        forall|x: Handle| #[trigger] rest.contains(x) ==> pending.contains(x),
        forall|c: Handle|
            #[trigger] before.spec_children(g).contains(c) && before.spec_in_bounds(c) ==> now.spec_color(c)
                != WHITE,
        now2@ == now@.update(g.0 + 7, BLACK),
    ensures
        tricolour(before, roots, now2, rest),
{
    lemma_reachable_in_bounds(before, roots, g);
    assert forall|i: int|
        #![trigger now2@[i]]
        0 <= i < before@.len() && now2@[i] != before@[i] implies i % 16 == 7 && reachable(
            before,
            roots,
            Handle((i - 7) as u32),
        ) by {
        if i != g.0 + 7 {
            assert(now2@[i] == now@[i]);
        } else {
            assert(Handle((i - 7) as u32) == g);
        }
    }
    assert forall|x: Handle| x != g && x.0 + 16 <= before.cap() implies #[trigger] now2.spec_color(x)
        == now.spec_color(x) by {
        assert(x.0 + 7 != g.0 + 7);
    }
    assert(now2.spec_color(g) == BLACK);
    assert forall|x: Handle| #[trigger]
        reachable(before, roots, x) && now2.spec_color(x) == GREY implies rest.contains(x) by {
        lemma_reachable_in_bounds(before, roots, x);
        assert(x != g);
        assert(pending.contains(x));
    }
    assert forall|y: Handle, x: Handle|
        #[trigger] reachable(before, roots, y) && now2.spec_color(y) == BLACK
            && #[trigger] before.spec_children(y).contains(x) && before.spec_in_bounds(x)
            implies now2.spec_color(x) != WHITE by {
        lemma_reachable_in_bounds(before, roots, y);
        if y != g {
            assert(now.spec_color(y) == BLACK);
            assert(now.spec_color(x) != WHITE);
        } else {
            assert(now.spec_color(x) != WHITE);
        }
    }
    assert forall|x: Handle| #[trigger] rest.contains(x) && before.spec_in_bounds(x) implies reachable(
        before,
        roots,
        x,
    ) by {
        assert(pending.contains(x));
    }
    assert forall|x: Handle| #[trigger] reachable(before, roots, x) implies coloured(now2.spec_color(x)) by {
        lemma_reachable_in_bounds(before, roots, x);
    }
}

/// Dropping a grey-set entry that addresses no well-formed object keeps the
/// invariant.
pub proof fn lemma_skip_step(
    before: Heap,
    roots: Seq<Handle>,
    now: Heap,
    pending: Seq<Handle>,
    rest: Seq<Handle>,
    g: Handle,
)
    requires
        tricolour(before, roots, now, pending),
        !now.spec_in_bounds(g),
        forall|x: Handle| #[trigger] pending.contains(x) ==> rest.contains(x) || x == g,
        forall|x: Handle| #[trigger] rest.contains(x) ==> pending.contains(x),
    ensures
        tricolour(before, roots, now, rest),
{
    assert forall|x: Handle| #[trigger]
        reachable(before, roots, x) && now.spec_color(x) == GREY implies rest.contains(x) by {
        lemma_reachable_in_bounds(before, roots, x);
        lemma_only_colours_header_via(before, roots, now, x);
        assert(pending.contains(x));
    }
    assert forall|x: Handle| #[trigger] rest.contains(x) && before.spec_in_bounds(x) implies reachable(
        before,
        roots,
        x,
    ) by {
        assert(pending.contains(x));
    }
}

/// Every object on a path from `slots` is black once nothing is grey and
/// every well-formed root has been shaded.
proof fn lemma_path_black(
    before: Heap,
    slots: Seq<Handle>,
    roots: Seq<Handle>,
    now: Heap,
    p: Seq<Handle>,
    i: int,
)
    requires
        tricolour(before, roots, now, Seq::empty()),
        forall|x: Handle| #[trigger] slots.contains(x) ==> roots.contains(x),
        forall|r: Handle| #[trigger] slots.contains(r) && before.spec_in_bounds(r) ==> now.spec_color(r) != WHITE,
        is_path(before, slots, p),
        0 <= i < p.len(),
    ensures
        now.spec_color(p[i]) == BLACK,
    decreases i,
{
    let q = p.subrange(0, i + 1);
    assert(is_path(before, roots, q)) by {
        assert(q[0] == p[0]);
        assert forall|j: int| 0 <= j < q.len() implies #[trigger] before.spec_in_bounds(q[j]) by {
            assert(q[j] == p[j]);
            assert(before.spec_in_bounds(p[j]));
        }
        assert forall|j: int| 0 < j < q.len() implies #[trigger] before.spec_children(q[j - 1]).contains(q[j]) by {
            assert(q[j] == p[j] && q[j - 1] == p[j - 1]);
            assert(before.spec_children(p[j - 1]).contains(p[j]));
        }
    }
    assert(q.last() == p[i]);
    assert(reachable(before, roots, p[i]));
    assert(before.spec_in_bounds(p[i]));
    assert(!Seq::<Handle>::empty().contains(p[i]));
    if i == 0 {
        assert(now.spec_color(p[0]) != WHITE);
    } else {
        lemma_path_black(before, slots, roots, now, p, i - 1);
        assert(before.spec_children(p[i - 1]).contains(p[i]));
        let q1 = p.subrange(0, i);
        assert(is_path(before, roots, q1)) by {
            assert(q1[0] == p[0]);
            assert forall|j: int| 0 <= j < q1.len() implies #[trigger] before.spec_in_bounds(q1[j]) by {
                assert(q1[j] == p[j]);
                assert(before.spec_in_bounds(p[j]));
            }
            assert forall|j: int| 0 < j < q1.len() implies #[trigger] before.spec_children(q1[j - 1]).contains(
                q1[j],
            ) by {
                assert(q1[j] == p[j] && q1[j - 1] == p[j - 1]);
                assert(before.spec_children(p[j - 1]).contains(p[j]));
            }
        }
        assert(q1.last() == p[i - 1]);
        assert(reachable(before, roots, p[i - 1]));
    }
}

/// A pass with nothing grey, after every well-formed root was shaded, has
/// blackened everything reachable from the roots.
pub proof fn lemma_tricolour_done(before: Heap, slots: Seq<Handle>, roots: Seq<Handle>, now: Heap)
    requires
        tricolour(before, roots, now, Seq::empty()),
        forall|x: Handle| #[trigger] slots.contains(x) ==> roots.contains(x),
        forall|r: Handle| #[trigger] slots.contains(r) && before.spec_in_bounds(r) ==> now.spec_color(r) != WHITE,
    ensures
        forall|h: Handle| #[trigger] reachable(before, slots, h) ==> now.spec_color(h) == BLACK,
{
    assert forall|h: Handle| #[trigger] reachable(before, slots, h) implies now.spec_color(h) == BLACK by {
        let p = choose|p: Seq<Handle>| #[trigger] is_path(before, slots, p) && p.last() == h;
        lemma_path_black(before, slots, roots, now, p, p.len() - 1);
    }
}

} // verus!
