//! A free-list heap, shared by the collectors that do not move objects.
//!
//! It hands out memory from a bump pointer until that runs out, then recycles
//! blocks that have been handed back. Everything in `[0, bump)` carries a
//! header, free blocks included, so the region can always be walked.
//!
//! The space never trusts a size it reads back from a header: a free block
//! whose header does not describe an aligned, in-bounds block is passed over
//! rather than split or merged.

use crate::heap::{
    block_ok, le32, same_outside, spec_size_for, walk_from, walk_ok, Handle, Heap, FLAG_FREE, FLAG_MARK,
    HEADER_SIZE, NULL_ADDR, POISON,
};
use crate::tiling::{
    lemma_on_tiles_facts, lemma_tiles_append, lemma_tiles_apart, lemma_tiles_frame, lemma_tiles_merge,
    lemma_tiles_no_start_inside, lemma_tiles_split, lemma_tiles_trim, on_tiles,
};
use crate::allocator::{adjacent, lemma_merge_keeps_apart, sane};
use crate::verify::{push_handles, push_hex, push_num};
use vstd::prelude::*;
use vstd::string::StringExecFns;

verus! {

/// A free-list entry whose header lies inside an arena of `cap` bytes.
pub open spec fn entry_ok(cap: int, e: Handle) -> bool {
    e.0 % 16 == 0 && e.0 + 16 <= cap
}

/// The free block `e` can hold `need` bytes and describes itself sanely.
pub open spec fn fits(heap: Heap, e: Handle, need: int) -> bool {
    &&& heap.spec_size(e) >= need
    &&& heap.spec_size(e) % 16 == 0
    &&& e.0 + heap.spec_size(e) <= heap.cap()
}

/// How a free list and the free blocks of a walk disagree.
fn free_list_mismatch(free: &Vec<Handle>, walked: &Vec<Handle>) -> String {
    let mut m = String::from_str("the free list holds ");
    push_handles(&mut m, free);
    m.append(" but walking the heap finds ");
    push_handles(&mut m, walked);
    m
}

/// `i` is the first entry of `free` that can hold `need` bytes.
pub open spec fn first_fit(heap: Heap, free: Seq<Handle>, need: int, i: int) -> bool {
    &&& 0 <= i < free.len()
    &&& fits(heap, free[i], need)
    &&& forall|j: int| 0 <= j < i ==> !#[trigger] fits(heap, free[j], need)
}

/// The free list once entry `i` is taken: the last entry moves into its
/// place, and what is left of the block, if anything, is appended.
pub open spec fn after_take(free: Seq<Handle>, i: int, rest: Option<Handle>) -> Seq<Handle> {
    let f1 = free.update(i, free.last()).drop_last();
    match rest {
        Some(h) => f1.push(h),
        None => f1,
    }
}

/// What is left of block `e` once `need` bytes are taken from its start.
pub open spec fn rest_of(heap: Heap, e: Handle, need: int) -> Option<Handle> {
    if heap.spec_size(e) > need {
        Some(Handle((e.0 + need) as u32))
    } else {
        None
    }
}

/// Addresses ascend along `s`.
pub open spec fn sorted_by_addr(s: Seq<Handle>) -> bool {
    forall|i: int, j: int| 0 <= i < j < s.len() ==> s[i].0 <= s[j].0
}

/// Total of the header sizes of the blocks in `s`.
pub open spec fn sum_sizes(heap: Heap, s: Seq<Handle>) -> int
    decreases s.len(),
{
    if s.len() == 0 {
        0
    } else {
        sum_sizes(heap, s.drop_last()) + heap.spec_size(s.last())
    }
}

/// Blocks whose sizes agree in two heaps total the same in both.
proof fn lemma_sum_sizes_same(h1: Heap, h2: Heap, s: Seq<Handle>)
    requires
        forall|i: int| 0 <= i < s.len() ==> h1.spec_size(#[trigger] s[i]) == h2.spec_size(s[i]),
    ensures
        sum_sizes(h1, s) == sum_sizes(h2, s),
    decreases s.len(),
{
    if s.len() > 0 {
        assert(forall|i: int| 0 <= i < s.len() - 1 ==> #[trigger] s.drop_last()[i] == s[i]);
        lemma_sum_sizes_same(h1, h2, s.drop_last());
        assert(s.last() == s[s.len() - 1]);
    }
}

/// Taking one block out of a list takes its size off the total.
proof fn lemma_sum_sizes_remove(heap: Heap, s: Seq<Handle>, j: int)
    requires
        0 <= j < s.len(),
    ensures
        sum_sizes(heap, s) == sum_sizes(heap, s.remove(j)) + heap.spec_size(s[j]),
    decreases s.len(),
{
    if j == s.len() - 1 {
        assert(s.remove(j) =~= s.drop_last());
    } else {
        lemma_sum_sizes_remove(heap, s.drop_last(), j);
        assert(s.remove(j).drop_last() =~= s.drop_last().remove(j));
        assert(s.remove(j).last() == s.last());
    }
}

/// Reordering a list of blocks does not change their total.
proof fn lemma_sum_sizes_perm(heap: Heap, a: Seq<Handle>, b: Seq<Handle>)
    requires
        a.to_multiset() == b.to_multiset(),
    ensures
        sum_sizes(heap, a) == sum_sizes(heap, b),
    decreases a.len(),
{
    broadcast use vstd::seq_lib::group_to_multiset_ensures;
    broadcast use vstd::multiset::group_multiset_axioms;

    if a.len() == 0 {
        assert(b.to_multiset().len() == 0);
        assert(b =~= Seq::<Handle>::empty());
    } else {
        let x = a.last();
        assert(a =~= a.drop_last().push(x));
        assert(a.to_multiset() =~= a.drop_last().to_multiset().insert(x));
        vstd::seq_lib::to_multiset_contains(b, x);
        assert(b.to_multiset().count(x) > 0);
        let j = choose|j: int| 0 <= j < b.len() && b[j] == x;
        lemma_sum_sizes_remove(heap, b, j);
        assert(b.remove(j).to_multiset() =~= b.to_multiset().remove(x));
        assert(a.drop_last().to_multiset() =~= a.to_multiset().remove(x));
        lemma_sum_sizes_perm(heap, a.drop_last(), b.remove(j));
    }
}

/// Largest header size among the blocks in `s`, or zero.
pub open spec fn max_size(heap: Heap, s: Seq<Handle>) -> int
    decreases s.len(),
{
    if s.len() == 0 {
        0
    } else {
        let m = max_size(heap, s.drop_last());
        let x = heap.spec_size(s.last());
        if x > m {
            x
        } else {
            m
        }
    }
}

/// Total size of the blocks in `s` not flagged free.
pub open spec fn live_sum(heap: Heap, s: Seq<Handle>) -> int
    decreases s.len(),
{
    if s.len() == 0 {
        0
    } else {
        live_sum(heap, s.drop_last()) + if heap.spec_flag(s.last(), FLAG_FREE) {
            0
        } else {
            heap.spec_size(s.last())
        }
    }
}

/// The blocks in `s` not flagged free.
pub open spec fn live_only(heap: Heap, s: Seq<Handle>) -> Seq<Handle> {
    s.filter(|h: Handle| !heap.spec_flag(h, FLAG_FREE))
}

/// The blocks in `s` flagged free.
pub open spec fn free_only(heap: Heap, s: Seq<Handle>) -> Seq<Handle> {
    s.filter(|h: Handle| heap.spec_flag(h, FLAG_FREE))
}

/// `[at, end)` is exactly covered by well-formed blocks laid end to end.
pub open spec fn tiles(b: Seq<u8>, at: int, end: int) -> bool
    decreases end - at,
{
    if at >= end {
        at == end
    } else if le32(b, at) < 16 || !block_ok(b, at) || at + le32(b, at) > end {
        false
    } else {
        tiles(b, at + le32(b, at), end)
    }
}

pub proof fn lemma_tiles_walk_ok(b: Seq<u8>, at: int, end: int)
    requires
        tiles(b, at, end),
        0 <= at,
        end <= u32::MAX,
    ensures
        walk_ok(b, at, end),
    decreases end - at,
{
    if at < end {
        lemma_tiles_walk_ok(b, at + le32(b, at), end);
    }
}

/// Byte `off` of the header that would start at the `i`-th 16-byte
/// boundary.
pub open spec fn hb(b: Seq<u8>, i: int, off: int) -> u8 {
    b[16 * i + off]
}

/// How many of the first `k` 16-byte boundaries carry a header whose byte
/// `off` fails `p`. A pass that only ever makes headers satisfy `p` can
/// lower it but never raise it, which bounds the pass.
pub open spec fn count_unsat(b: Seq<u8>, k: int, off: int, p: spec_fn(u8) -> bool) -> nat
    decreases k,
{
    if k <= 0 {
        0
    } else {
        count_unsat(b, k - 1, off, p) + if p(hb(b, k - 1, off)) {
            0nat
        } else {
            1nat
        }
    }
}

/// A change under which no header stops satisfying `p` does not raise the
/// count, and one that makes header `i0` satisfy it lowers the count.
pub proof fn lemma_count_unsat_drop(
    b1: Seq<u8>,
    b2: Seq<u8>,
    k: int,
    off: int,
    p: spec_fn(u8) -> bool,
    i0: int,
)
    requires
        forall|i: int| 0 <= i < k && p(hb(b1, i, off)) ==> p(#[trigger] hb(b2, i, off)),
    ensures
        count_unsat(b2, k, off, p) <= count_unsat(b1, k, off, p),
        0 <= i0 < k && !p(hb(b1, i0, off)) && p(hb(b2, i0, off)) ==> count_unsat(b2, k, off, p)
            < count_unsat(b1, k, off, p),
    decreases k,
{
    if k > 0 {
        lemma_count_unsat_drop(b1, b2, k - 1, off, p, i0);
        assert(p(hb(b1, k - 1, off)) ==> p(hb(b2, k - 1, off)));
    }
}

/// A change confined to `[lo, hi)` leaves the headers of boundaries outside
/// it alone.
pub proof fn lemma_count_unsat_frame(
    b1: Seq<u8>,
    b2: Seq<u8>,
    k: int,
    off: int,
    p: spec_fn(u8) -> bool,
    lo: int,
    hi: int,
)
    requires
        0 <= off < 16,
        16 * k <= b1.len(),
        crate::heap::same_outside(b2, b1, lo, hi),
        forall|i: int| 0 <= i < k ==> !(lo <= #[trigger] (16 * i + off) < hi),
    ensures
        count_unsat(b2, k, off, p) == count_unsat(b1, k, off, p),
{
    assert forall|i: int| 0 <= i < k implies #[trigger] hb(b2, i, off) == hb(b1, i, off) by {
        assert(!(lo <= 16 * i + off < hi));
    }
    lemma_count_unsat_drop(b1, b2, k, off, p, -1);
    lemma_count_unsat_drop(b2, b1, k, off, p, -1);
}

/// Writing byte `off` of the aligned header `h` touches no other boundary:
/// the count cannot rise if the new byte satisfies `p`, and falls if the old
/// one did not.
pub proof fn lemma_count_unsat_set(
    b1: Seq<u8>,
    b2: Seq<u8>,
    k: int,
    off: int,
    p: spec_fn(u8) -> bool,
    h: int,
    v: u8,
)
    requires
        0 <= off < 16,
        16 * k <= b1.len(),
        h % 16 == 0,
        0 <= h,
        h + 16 <= 16 * k,
        b2 == b1.update(h + off, v),
        p(v),
    ensures
        count_unsat(b2, k, off, p) <= count_unsat(b1, k, off, p),
        !p(b1[h + off]) ==> count_unsat(b2, k, off, p) < count_unsat(b1, k, off, p),
{
    let i0 = h / 16;
    assert(16 * i0 == h);
    assert forall|i: int| 0 <= i < k && p(hb(b1, i, off)) implies p(#[trigger] hb(b2, i, off)) by {
        if i != i0 {
            assert(16 * i + off != h + off);
        }
    }
    lemma_count_unsat_drop(b1, b2, k, off, p, i0);
}

/// Writing byte `off` of the aligned header `h` leaves the count of every
/// other header byte alone.
pub proof fn lemma_count_unsat_other_byte(
    b1: Seq<u8>,
    b2: Seq<u8>,
    k: int,
    off: int,
    p: spec_fn(u8) -> bool,
    h: int,
    off2: int,
    v: u8,
)
    requires
        0 <= off < 16,
        0 <= off2 < 16,
        off != off2,
        16 * k <= b1.len(),
        h % 16 == 0,
        0 <= h,
        h + 16 <= b1.len(),
        b2 == b1.update(h + off2, v),
    ensures
        count_unsat(b2, k, off, p) == count_unsat(b1, k, off, p),
{
    assert forall|i: int| 0 <= i < k implies !(h + off2 <= #[trigger] (16 * i + off) < h + off2 + 1) by {
        let i0 = h / 16;
        assert(16 * i0 == h);
    }
    lemma_count_unsat_frame(b1, b2, k, off, p, h + off2, h + off2 + 1);
}

/// The header flag byte says "free".
pub open spec fn is_free_byte(x: u8) -> bool {
    x & FLAG_FREE != 0
}

/// How many 16-byte boundaries of the arena carry a header not flagged free.
/// Freeing a block lowers it, which bounds any cascade of frees.
pub open spec fn unfree_count(b: Seq<u8>, k: int) -> nat {
    count_unsat(b, k, 6, |x: u8| is_free_byte(x))
}

/// `x + y` pinned at `u32::MAX`.
pub open spec fn sat_add32(x: int, y: int) -> int {
    if x + y > u32::MAX {
        u32::MAX as int
    } else {
        x + y
    }
}

/// `x - y` pinned at zero.
pub open spec fn sat_sub32(x: int, y: int) -> int {
    if x < y {
        0
    } else {
        x - y
    }
}

/// Removing entry `i` by moving the last entry into its place keeps a list
/// free of repeats and drops exactly that entry.
proof fn lemma_swap_remove_contents(f0: Seq<Handle>, i: int, f1: Seq<Handle>)
    requires
        f0.no_duplicates(),
        0 <= i < f0.len(),
        f1 == f0.update(i, f0.last()).drop_last(),
    ensures
        f1.no_duplicates(),
        forall|e: Handle| #[trigger] f1.contains(e) <==> f0.contains(e) && e != f0[i],
{
    let n = f0.len();
    assert forall|e: Handle| #[trigger] f1.contains(e) <==> f0.contains(e) && e != f0[i] by {
        if f1.contains(e) {
            let k = choose|k: int| 0 <= k < f1.len() && f1[k] == e;
            if k == i {
                assert(e == f0[n - 1]);
                assert(n - 1 != i);
            } else {
                assert(e == f0[k]);
            }
        }
        if f0.contains(e) && e != f0[i] {
            let k = choose|k: int| 0 <= k < n && f0[k] == e;
            if k == n - 1 {
                assert(f1[i] == e);
            } else {
                assert(f1[k] == e);
            }
        }
    }
    assert forall|a: int, c: int| 0 <= a < f1.len() && 0 <= c < f1.len() && a != c implies f1[a] != f1[c] by {
        let pa = if a == i { n - 1 } else { a };
        let pc = if c == i { n - 1 } else { c };
        assert(f1[a] == f0[pa] && f1[c] == f0[pc]);
    }
}

/// Placing a block at the bump pointer and moving the pointer past it keeps
/// the space walkable, with the new block on the walk.
#[verifier::spinoff_prover]
proof fn lemma_alloc_at_bump_keeps_walkable(s0: FreeListSpace, s1: FreeListSpace, at: int, need: int)
    requires
        s0.wf(),
        s0.walkable(),
        at == s0.spec_bump(),
        need >= 16,
        need % 16 == 0,
        at + need <= s0.spec_heap().cap(),
        s1.spec_bump() == at + need,
        s1.free_list() == s0.free_list(),
        same_outside(s1.spec_heap()@, s0.spec_heap()@, at, at + need),
        s1.spec_heap().spec_size(Handle(at as u32)) == need,
    ensures
        s1.walkable(),
        on_tiles(s1.spec_heap()@, 0, s1.spec_bump(), at),
{
    let b0 = s0.spec_heap()@;
    let b1 = s1.spec_heap()@;
    assert forall|x: int| #[trigger] on_tiles(b0, 0, at, x) implies le32(b1, x) == le32(b0, x) by {
        lemma_on_tiles_facts(b0, 0, at, x);
        assert(b1[x] == b0[x] && b1[x + 1] == b0[x + 1] && b1[x + 2] == b0[x + 2] && b1[x + 3] == b0[x + 3]);
    }
    assert(le32(b1, at) == need);
    lemma_tiles_append(b0, b1, 0, at);
    let f = s0.free_list();
    assert forall|i: int| 0 <= i < f.len() implies on_tiles(b1, 0, at + need, #[trigger] f[i].0 as int)
        && s1.spec_heap().spec_flag(f[i], FLAG_FREE) by {
        assert(on_tiles(b0, 0, at, f[i].0 as int));
        lemma_on_tiles_facts(b0, 0, at, f[i].0 as int);
        assert(b1[f[i].0 + 6] == b0[f[i].0 + 6]);
    }
}

/// Placing an object at the start of a free block taken off the list, and
/// splitting off what it does not need as a new free block, keeps the space
/// walkable, with the new object on the walk.
#[verifier::spinoff_prover]
#[verifier::rlimit(30)]
proof fn lemma_alloc_from_list_keeps_walkable(
    s0: FreeListSpace,
    s1: FreeListSpace,
    s2: FreeListSpace,
    at: int,
    need: int,
)
    requires
        s0.wf(),
        s0.walkable(),
        need >= 16,
        need % 16 == 0,
        on_tiles(s0.spec_heap()@, 0, s0.spec_bump(), at),
        s0.spec_heap().spec_size(Handle(at as u32)) >= need,
        s0.spec_heap().spec_size(Handle(at as u32)) > need ==> {
            &&& same_outside(s1.spec_heap()@, s0.spec_heap()@, at + need, at + need + 16)
            &&& s1.spec_heap().spec_size(Handle((at + need) as u32)) == s0.spec_heap().spec_size(Handle(at as u32)) - need
            &&& s1.spec_heap().spec_flag(Handle((at + need) as u32), FLAG_FREE)
        },
        s0.spec_heap().spec_size(Handle(at as u32)) == need ==> s1.spec_heap() == s0.spec_heap(),
        forall|e: Handle| #[trigger]
            s1.free_list().contains(e) <==> (s0.free_list().contains(e) && e.0 != at) || (s0.spec_heap().spec_size(
                Handle(at as u32),
            ) > need && e.0 == at + need),
        s1.free_list().no_duplicates(),
        s1.spec_bump() == s0.spec_bump(),
        s2.spec_bump() == s1.spec_bump(),
        s2.free_list() == s1.free_list(),
        same_outside(s2.spec_heap()@, s1.spec_heap()@, at, at + need),
        s2.spec_heap().spec_size(Handle(at as u32)) == need,
    ensures
        s2.walkable(),
        on_tiles(s2.spec_heap()@, 0, s2.spec_bump(), at),
{
    let b0 = s0.spec_heap()@;
    let b1 = s1.spec_heap()@;
    let b2 = s2.spec_heap()@;
    let end = s0.spec_bump();
    let sz = le32(b0, at);
    lemma_on_tiles_facts(b0, 0, end, at);
    assert(at % 16 == 0);
    // Every other block start lies outside the block at `at`, so nothing
    // written there reaches its header.
    assert forall|y: int| #[trigger] on_tiles(b0, 0, end, y) && y != at implies forall|j: int|
        y <= j < y + 16 ==> b2[j] == b0[j] by {
        lemma_on_tiles_facts(b0, 0, end, y);
        if y < at {
            lemma_tiles_apart(b0, 0, end, y, at);
        } else {
            lemma_tiles_apart(b0, 0, end, at, y);
        }
        assert forall|j: int| y <= j < y + 16 implies b2[j] == b0[j] by {
            assert(b2[j] == b1[j]);
            if sz > need {
                assert(b1[j] == b0[j]);
            }
        }
    }
    assert forall|y: int| #[trigger] on_tiles(b0, 0, end, y) && y != at implies le32(b2, y) == le32(b0, y) by {
        assert(b2[y] == b0[y] && b2[y + 1] == b0[y + 1] && b2[y + 2] == b0[y + 2] && b2[y + 3] == b0[y + 3]);
    }
    if sz > need {
        let o = at + need;
        assert(b2[o] == b1[o] && b2[o + 1] == b1[o + 1] && b2[o + 2] == b1[o + 2] && b2[o + 3] == b1[o + 3]);
        lemma_tiles_split(b0, b2, 0, end, at, need);
    } else {
        assert forall|y: int| #[trigger] on_tiles(b0, 0, end, y) implies le32(b2, y) == le32(b0, y) by {}
        lemma_tiles_frame(b0, b2, 0, end);
    }
    let f1 = s1.free_list();
    assert forall|i: int| 0 <= i < f1.len() implies on_tiles(b2, 0, end, #[trigger] f1[i].0 as int)
        && s2.spec_heap().spec_flag(f1[i], FLAG_FREE) by {
        let e = f1[i];
        assert(f1.contains(e));
        if sz > need && e.0 == at + need {
            assert(b2[e.0 + 6] == b1[e.0 + 6]);
        } else {
            assert(s0.free_list().contains(e));
            let k = choose|k: int| 0 <= k < s0.free_list().len() && s0.free_list()[k] == e;
            assert(on_tiles(b0, 0, end, s0.free_list()[k].0 as int));
            assert(s0.spec_heap().spec_flag(s0.free_list()[k], FLAG_FREE));
            assert(b2[e.0 + 6] == b0[e.0 + 6]);
        }
    }
}

/// Putting the free list in another order keeps the space walkable.
#[verifier::spinoff_prover]
proof fn lemma_permuted_walkable(s0: FreeListSpace, s1: FreeListSpace)
    requires
        s0.walkable(),
        s1.spec_heap() == s0.spec_heap(),
        s1.spec_bump() == s0.spec_bump(),
        s1.free_list().to_multiset() == s0.free_list().to_multiset(),
    ensures
        s1.walkable(),
{
    broadcast use vstd::seq_lib::to_multiset_contains;

    let f0 = s0.free_list();
    let f1 = s1.free_list();
    assert forall|i: int| 0 <= i < f1.len() implies on_tiles(
        s1.spec_heap()@,
        0,
        s1.spec_bump(),
        #[trigger] f1[i].0 as int,
    ) && s1.spec_heap().spec_flag(f1[i], FLAG_FREE) by {
        assert(f1.contains(f1[i]));
        assert(f1.to_multiset().count(f1[i]) > 0);
        assert(f0.contains(f1[i]));
        let k = choose|k: int| 0 <= k < f0.len() && f0[k] == f1[i];
        assert(on_tiles(s0.spec_heap()@, 0, s0.spec_bump(), f0[k].0 as int));
    }
    f0.lemma_multiset_has_no_duplicates();
    assert forall|x: Handle| f1.to_multiset().contains(x) implies f1.to_multiset().count(x) == 1 by {
        assert(f0.to_multiset().contains(x));
    }
    f1.lemma_multiset_has_no_duplicates_conv();
}

/// A list in address order with no repeats is strictly ascending.
proof fn lemma_sorted_distinct_ascends(f: Seq<Handle>)
    requires
        sorted_by_addr(f),
        f.no_duplicates(),
    ensures
        forall|i: int, j: int| 0 <= i < j < f.len() ==> f[i].0 < f[j].0,
{
    assert forall|i: int, j: int| 0 <= i < j < f.len() implies f[i].0 < f[j].0 by {
        assert(f[i] != f[j]);
        assert(f[i].0 <= f[j].0);
        if f[i].0 == f[j].0 {
            assert(f[i] == f[j]);
        }
    }
}

/// Merging the last listed block with the next free block on the walk
/// keeps every other listed block, and every block still to come, a
/// free-flagged block of the walk.
#[verifier::spinoff_prover]
proof fn lemma_merge_keeps_entries(
    b1: Heap,
    b2: Heap,
    end: int,
    merged: Seq<Handle>,
    free: Seq<Handle>,
    k: int,
)
    requires
        b1.wf(),
        tiles(b1@, 0, end),
        end <= b1.cap(),
        merged.len() > 0,
        0 <= k < free.len(),
        merged.last().0 + b1.spec_size(merged.last()) == free[k].0,
        forall|i: int, j: int| 0 <= i < j < merged.len() ==> merged[i].0 < merged[j].0,
        forall|i: int, j: int| 0 <= i < j < free.len() ==> free[i].0 < free[j].0,
        forall|i: int, j: int| 0 <= i < merged.len() && k <= j < free.len() ==> merged[i].0 < free[j].0,
        forall|i: int|
            0 <= i < merged.len() ==> on_tiles(b1@, 0, end, #[trigger] merged[i].0 as int) && b1.spec_flag(
                merged[i],
                FLAG_FREE,
            ),
        forall|j: int|
            k <= j < free.len() ==> on_tiles(b1@, 0, end, #[trigger] free[j].0 as int) && b1.spec_flag(
                free[j],
                FLAG_FREE,
            ),
        same_outside(b2@, b1@, merged.last().0 as int, merged.last().0 + 16),
        b2.spec_size(merged.last()) == b1.spec_size(merged.last()) + b1.spec_size(free[k]),
        b2.spec_flags(merged.last()) == FLAG_FREE,
    ensures
        tiles(b2@, 0, end),
        forall|i: int|
            0 <= i < merged.len() ==> on_tiles(b2@, 0, end, #[trigger] merged[i].0 as int) && b2.spec_flag(
                merged[i],
                FLAG_FREE,
            ),
        forall|j: int|
            k + 1 <= j < free.len() ==> on_tiles(b2@, 0, end, #[trigger] free[j].0 as int) && b2.spec_flag(
                free[j],
                FLAG_FREE,
            ),
        forall|y: int| #[trigger] on_tiles(b2@, 0, end, y) <==> on_tiles(b1@, 0, end, y) && y != free[k].0,
{
    let p = merged.last();
    let x = p.0 as int;
    let nx = free[k].0 as int;
    assert(merged[merged.len() - 1] == p);
    assert(on_tiles(b1@, 0, end, x));
    assert(on_tiles(b1@, 0, end, nx));
    lemma_on_tiles_facts(b1@, 0, end, x);
    // Only the header of `p` was rewritten; every other block start's header
    // lies outside it.
    assert forall|y: int| #[trigger] on_tiles(b1@, 0, end, y) && y != x implies forall|j: int|
        y <= j < y + 16 ==> b2@[j] == b1@[j] by {
        lemma_on_tiles_facts(b1@, 0, end, y);
        if y < x {
            lemma_tiles_apart(b1@, 0, end, y, x);
        } else {
            lemma_tiles_apart(b1@, 0, end, x, y);
        }
    }
    assert forall|y: int|
        #[trigger] on_tiles(b1@, 0, end, y) && y != x && y != x + le32(b1@, x) implies le32(b2@, y) == le32(
            b1@,
            y,
        ) by {
        assert(b2@[y] == b1@[y] && b2@[y + 1] == b1@[y + 1] && b2@[y + 2] == b1@[y + 2] && b2@[y + 3] == b1@[y
            + 3]);
    }
    lemma_tiles_merge(b1@, b2@, 0, end, x);
    assert(FLAG_FREE & FLAG_FREE != 0) by (bit_vector);
    assert forall|i: int| 0 <= i < merged.len() implies on_tiles(b2@, 0, end, #[trigger] merged[i].0 as int)
        && b2.spec_flag(merged[i], FLAG_FREE) by {
        let y = merged[i].0 as int;
        assert(on_tiles(b1@, 0, end, y));
        if i < merged.len() - 1 {
            assert(y < x);
            assert(b2@[y + 6] == b1@[y + 6]);
        }
    }
    assert forall|j: int| k + 1 <= j < free.len() implies on_tiles(b2@, 0, end, #[trigger] free[j].0 as int)
        && b2.spec_flag(free[j], FLAG_FREE) by {
        let y = free[j].0 as int;
        assert(on_tiles(b1@, 0, end, y));
        assert(y > nx);
        assert(b2@[y + 6] == b1@[y + 6]);
    }
}

/// Freeing a block of the walk keeps the space walkable: its size is left
/// alone, nothing outside it changes, and it joins the free list flagged
/// free, which it was not before.
#[verifier::spinoff_prover]
proof fn lemma_free_keeps_walkable(s0: FreeListSpace, s1: FreeListSpace, h: Handle)
    requires
        s0.wf(),
        s0.walkable(),
        on_tiles(s0.spec_heap()@, 0, s0.spec_bump(), h.0 as int),
        !s0.spec_heap().spec_flag(h, FLAG_FREE),
        s1.free_list() == s0.free_list().push(h),
        s1.spec_bump() == s0.spec_bump(),
        s1.spec_heap().cap() == s0.spec_heap().cap(),
        s1.spec_heap().spec_size(h) == s0.spec_heap().spec_size(h),
        s1.spec_heap().spec_flag(h, FLAG_FREE),
        forall|j: int|
            0 <= j < s0.spec_heap().cap() && !(h.0 <= j < h.0 + s0.spec_heap().spec_size(h)) ==> #[trigger] s1.spec_heap()@[j]
                == s0.spec_heap()@[j],
    ensures
        s1.walkable(),
        forall|y: int| #[trigger]
            on_tiles(s1.spec_heap()@, 0, s1.spec_bump(), y) == on_tiles(s0.spec_heap()@, 0, s0.spec_bump(), y),
{
    let b0 = s0.spec_heap()@;
    let b1 = s1.spec_heap()@;
    let end = s0.spec_bump();
    let size = s0.spec_heap().spec_size(h);
    lemma_on_tiles_facts(b0, 0, end, h.0 as int);
    // Any other block start's header lies wholly outside `h`'s block.
    assert forall|y: int| #[trigger] on_tiles(b0, 0, end, y) && y != h.0 implies forall|j: int|
        y <= j < y + 16 ==> b1[j] == b0[j] by {
        lemma_on_tiles_facts(b0, 0, end, y);
        if y < h.0 {
            lemma_tiles_apart(b0, 0, end, y, h.0 as int);
        } else {
            lemma_tiles_apart(b0, 0, end, h.0 as int, y);
        }
        assert forall|j: int| y <= j < y + 16 implies b1[j] == b0[j] by {
            assert(!(h.0 <= j < h.0 + size));
        }
    }
    assert forall|y: int| #[trigger] on_tiles(b0, 0, end, y) implies le32(b1, y) == le32(b0, y) by {
        if y != h.0 {
            assert(b1[y] == b0[y] && b1[y + 1] == b0[y + 1] && b1[y + 2] == b0[y + 2] && b1[y + 3] == b0[y + 3]);
        }
    }
    lemma_tiles_frame(b0, b1, 0, end);
    let f0 = s0.free_list();
    let f1 = s1.free_list();
    assert forall|i: int| 0 <= i < f1.len() implies on_tiles(b1, 0, end, #[trigger] f1[i].0 as int)
        && s1.spec_heap().spec_flag(f1[i], FLAG_FREE) by {
        if i < f0.len() {
            assert(f1[i] == f0[i]);
            assert(on_tiles(b0, 0, end, f0[i].0 as int));
            assert(f0[i].0 != h.0);
            assert(b1[f0[i].0 + 6] == b0[f0[i].0 + 6]);
        }
    }
    assert forall|i: int, j: int| 0 <= i < f1.len() && 0 <= j < f1.len() && i != j implies f1[i] != f1[j] by {
        if i < f0.len() && j < f0.len() {
            assert(f0[i] != f0[j]);
        } else if i < f0.len() {
            assert(s0.spec_heap().spec_flag(f0[i], FLAG_FREE));
        } else if j < f0.len() {
            assert(s0.spec_heap().spec_flag(f0[j], FLAG_FREE));
        }
    }
}

/// Every block of the walk of `a` up to `end_a` that is not flagged free
/// is, in `b`, still a block of the walk up to `end_b`, byte for byte.
pub open spec fn live_blocks_kept(a: Heap, end_a: int, b: Heap, end_b: int) -> bool {
    forall|x: int|
        #[trigger] on_tiles(a@, 0, end_a, x) && !a.spec_flag(Handle(x as u32), FLAG_FREE) ==> on_tiles(
            b@,
            0,
            end_b,
            x,
        ) && forall|j: int| x <= j < x + le32(a@, x) ==> #[trigger] b@[j] == a@[j]
}

/// Every block of the walk of `b` up to `end_b` was a block of the walk of
/// `a` up to `end_a`, and one that was flagged free still is.
pub open spec fn free_blocks_stay_free(a: Heap, end_a: int, b: Heap, end_b: int) -> bool {
    forall|x: int| #[trigger]
        on_tiles(b@, 0, end_b, x) ==> on_tiles(a@, 0, end_a, x) && (a.spec_flag(Handle(x as u32), FLAG_FREE)
            ==> b.spec_flag(Handle(x as u32), FLAG_FREE))
}

/// Merging two free neighbours leaves every block not flagged free where it
/// was, byte for byte.
#[verifier::spinoff_prover]
proof fn lemma_merge_keeps_live(b0: Heap, end0: int, b1: Heap, b2: Heap, end: int, p: Handle, nx: int)
    requires
        live_blocks_kept(b0, end0, b1, end),
        tiles(b1@, 0, end),
        on_tiles(b1@, 0, end, p.0 as int),
        b1.spec_flag(p, FLAG_FREE),
        same_outside(b2@, b1@, p.0 as int, p.0 + 16),
        forall|y: int| #[trigger] on_tiles(b2@, 0, end, y) <==> on_tiles(b1@, 0, end, y) && y != nx,
        on_tiles(b1@, 0, end, nx) ==> b1.spec_flag(Handle(nx as u32), FLAG_FREE),
        on_tiles(b1@, 0, end, nx),
        nx < u32::MAX,
        end <= b1@.len(),
    ensures
        live_blocks_kept(b0, end0, b2, end),
{
    let x0 = p.0 as int;
    lemma_on_tiles_facts(b1@, 0, end, x0);
    assert forall|x: int|
        #[trigger] on_tiles(b0@, 0, end0, x) && !b0.spec_flag(Handle(x as u32), FLAG_FREE) implies on_tiles(
        b2@,
        0,
        end,
        x,
    ) && forall|j: int| x <= j < x + le32(b0@, x) ==> #[trigger] b2@[j] == b0@[j] by {
        assert(on_tiles(b1@, 0, end, x));
        assert(forall|j: int| x <= j < x + le32(b0@, x) ==> #[trigger] b1@[j] == b0@[j]);
        lemma_on_tiles_facts(b0@, 0, end0, x);
        assert(b1@[x + 6] == b0@[x + 6]);
        assert(b1@[x] == b0@[x] && b1@[x + 1] == b0@[x + 1] && b1@[x + 2] == b0@[x + 2] && b1@[x + 3] == b0@[x
            + 3]);
        assert(le32(b1@, x) == le32(b0@, x));
        assert(x != x0);
        if x == nx {
            assert(Handle(nx as u32).0 == x);
        }
        assert(x != nx);
        if x < x0 {
            lemma_tiles_apart(b1@, 0, end, x, x0);
        } else {
            lemma_tiles_apart(b1@, 0, end, x0, x);
        }
        lemma_on_tiles_facts(b1@, 0, end, x);
        assert forall|j: int| x <= j < x + le32(b0@, x) implies #[trigger] b2@[j] == b0@[j] by {
            assert(b1@[j] == b0@[j]);
            assert(!(x0 <= j < x0 + 16));
            assert(0 <= j < b1@.len());
        }
    }
}

/// Merging two free neighbours keeps every surviving block start one of
/// the original walk, and a free block free.
#[verifier::spinoff_prover]
proof fn lemma_merge_keeps_free(b0: Heap, end0: int, b1: Heap, b2: Heap, end: int, p: Handle, nx: int)
    requires
        b1.wf(),
        free_blocks_stay_free(b0, end0, b1, end),
        tiles(b1@, 0, end),
        on_tiles(b1@, 0, end, p.0 as int),
        same_outside(b2@, b1@, p.0 as int, p.0 + 16),
        b2.spec_flags(p) == FLAG_FREE,
        forall|y: int| #[trigger] on_tiles(b2@, 0, end, y) <==> on_tiles(b1@, 0, end, y) && y != nx,
    ensures
        free_blocks_stay_free(b0, end0, b2, end),
{
    lemma_on_tiles_facts(b1@, 0, end, p.0 as int);
    assert(FLAG_FREE & FLAG_FREE != 0) by (bit_vector);
    assert forall|x: int| #[trigger] on_tiles(b2@, 0, end, x) implies on_tiles(b0@, 0, end0, x) && (b0.spec_flag(
        Handle(x as u32),
        FLAG_FREE,
    ) ==> b2.spec_flag(Handle(x as u32), FLAG_FREE)) by {
        assert(on_tiles(b1@, 0, end, x));
        lemma_on_tiles_facts(b1@, 0, end, x);
        assert(Handle(x as u32).0 == x);
        if x != p.0 {
            assert(b2@[x + 6] == b1@[x + 6]);
            assert(b2.spec_flags(Handle(x as u32)) == b1.spec_flags(Handle(x as u32)));
        } else {
            assert(Handle(x as u32) == p);
        }
    }
}

/// The state of a coalescing pass over an address-ordered free list that
/// started on `hp0`: the region up to `end` is still tiled; `merged` holds
/// the free blocks kept so far, in ascending order and below every entry
/// from `k` on; those entries are still free blocks of the walk; and no
/// block that was not free has been touched.
#[verifier::opaque]
pub open spec fn coalescing(
    hp0: Heap,
    end: int,
    now: Heap,
    merged: Seq<Handle>,
    free: Seq<Handle>,
    k: int,
) -> bool {
    &&& tiles(now@, 0, end)
    &&& forall|i: int, j: int| 0 <= i < j < free.len() ==> free[i].0 < free[j].0
    &&& forall|i: int, j: int| 0 <= i < merged.len() && k <= j < free.len() ==> merged[i].0 < free[j].0
    &&& forall|i: int|
        0 <= i < merged.len() ==> on_tiles(now@, 0, end, #[trigger] merged[i].0 as int) && now.spec_flag(
            merged[i],
            FLAG_FREE,
        )
    &&& forall|j: int|
        k <= j < free.len() ==> on_tiles(now@, 0, end, #[trigger] free[j].0 as int) && now.spec_flag(
            free[j],
            FLAG_FREE,
        )
    &&& live_blocks_kept(hp0, end, now, end)
    &&& free_blocks_stay_free(hp0, end, now, end)
}

/// A pass starts with nothing kept and nothing touched.
proof fn lemma_coalescing_start(s: FreeListSpace)
    requires
        s.walkable(),
        forall|i: int, j: int| 0 <= i < j < s.free_list().len() ==> s.free_list()[i].0 < s.free_list()[j].0,
    ensures
        coalescing(s.spec_heap(), s.spec_bump(), s.spec_heap(), Seq::empty(), s.free_list(), 0),
{
    reveal(coalescing);
}

/// Passing over an entry without merging it or keeping it.
proof fn lemma_coalescing_skip(hp0: Heap, end: int, now: Heap, merged: Seq<Handle>, free: Seq<Handle>, k: int)
    requires
        coalescing(hp0, end, now, merged, free, k),
        0 <= k < free.len(),
    ensures
        coalescing(hp0, end, now, merged, free, k + 1),
{
    reveal(coalescing);
}

/// An entry that does not come after the last kept block cannot occur.
proof fn lemma_coalescing_ascends(hp0: Heap, end: int, now: Heap, merged: Seq<Handle>, free: Seq<Handle>, k: int)
    requires
        coalescing(hp0, end, now, merged, free, k),
        0 <= k < free.len(),
        merged.len() > 0,
    ensures
        merged.last().0 < free[k].0,
{
    reveal(coalescing);
    assert(merged[merged.len() - 1] == merged.last());
}

/// Keeping entry `k` as it is.
proof fn lemma_coalescing_keep(hp0: Heap, end: int, now: Heap, merged: Seq<Handle>, free: Seq<Handle>, k: int)
    requires
        coalescing(hp0, end, now, merged, free, k),
        0 <= k < free.len(),
    ensures
        coalescing(hp0, end, now, merged.push(free[k]), free, k + 1),
{
    reveal(coalescing);
    let m2 = merged.push(free[k]);
    assert forall|i: int| 0 <= i < m2.len() implies on_tiles(now@, 0, end, #[trigger] m2[i].0 as int) && now.spec_flag(
        m2[i],
        FLAG_FREE,
    ) by {
        if i < merged.len() {
            assert(m2[i] == merged[i]);
        }
    }
    assert forall|i: int, j: int| 0 <= i < m2.len() && k + 1 <= j < free.len() implies m2[i].0 < free[j].0 by {
        if i < merged.len() {
            assert(m2[i] == merged[i]);
        }
    }
}

/// Merging entry `k` into the last kept block, which ends where it starts.
#[verifier::spinoff_prover]
proof fn lemma_coalescing_merge(
    hp0: Heap,
    end: int,
    b1: Heap,
    b2: Heap,
    merged: Seq<Handle>,
    free: Seq<Handle>,
    k: int,
)
    requires
        b1.wf(),
        end <= b1.cap(),
        coalescing(hp0, end, b1, merged, free, k),
        merged.len() > 0,
        0 <= k < free.len(),
        forall|i: int, j: int| 0 <= i < j < merged.len() ==> merged[i].0 < merged[j].0,
        merged.last().0 + b1.spec_size(merged.last()) == free[k].0,
        same_outside(b2@, b1@, merged.last().0 as int, merged.last().0 + 16),
        b2.spec_size(merged.last()) == b1.spec_size(merged.last()) + b1.spec_size(free[k]),
        b2.spec_flags(merged.last()) == FLAG_FREE,
    ensures
        coalescing(hp0, end, b2, merged, free, k + 1),
{
    reveal(coalescing);
    lemma_merge_keeps_entries(b1, b2, end, merged, free, k);
    let p = merged.last();
    assert(merged[merged.len() - 1] == p);
    assert(on_tiles(b1@, 0, end, free[k].0 as int));
    lemma_on_tiles_facts(b1@, 0, end, free[k].0 as int);
    lemma_merge_keeps_live(hp0, end, b1, b2, end, p, free[k].0 as int);
    lemma_merge_keeps_free(hp0, end, b1, b2, end, p, free[k].0 as int);
}

/// Merging entry `k` into the last kept block moves its bytes from the
/// entries still to come to the kept blocks, and leaves the sizes of the
/// entries after it alone.
#[verifier::spinoff_prover]
proof fn lemma_merge_keeps_sums(
    hp0: Heap,
    b1: Heap,
    b2: Heap,
    merged: Seq<Handle>,
    free: Seq<Handle>,
    k: int,
)
    requires
        b1.wf(),
        merged.len() > 0,
        merged.last().0 < free[k].0,
        forall|i: int, j: int| 0 <= i < j < free.len() ==> free[i].0 < free[j].0,
        0 <= k < free.len(),
        b2.cap() == b1.cap(),
        forall|i: int| 0 <= i < merged.len() ==> #[trigger] entry_ok(b1.cap(), merged[i]),
        forall|i: int| 0 <= i < free.len() ==> #[trigger] entry_ok(b1.cap(), free[i]),
        forall|i: int, j: int| 0 <= i < j < merged.len() ==> merged[i].0 < merged[j].0,
        same_outside(b2@, b1@, merged.last().0 as int, merged.last().0 + 16),
        b2.spec_size(merged.last()) == b1.spec_size(merged.last()) + b1.spec_size(free[k]),
        sum_sizes(b1, merged) == sum_sizes(hp0, free.subrange(0, k)),
        forall|j: int| k <= j < free.len() ==> b1.spec_size(#[trigger] free[j]) == hp0.spec_size(free[j]),
    ensures
        sum_sizes(b2, merged) == sum_sizes(hp0, free.subrange(0, k + 1)),
        forall|j: int| k + 1 <= j < free.len() ==> b2.spec_size(#[trigger] free[j]) == hp0.spec_size(free[j]),
{
    let prev = merged.last();
    assert(merged[merged.len() - 1] == prev);
    assert(entry_ok(b1.cap(), prev));
    assert forall|j: int| k + 1 <= j < free.len() implies b2.spec_size(#[trigger] free[j]) == hp0.spec_size(free[j]) by {
        assert(entry_ok(b1.cap(), free[j]));
        assert(prev.0 < free[j].0);
        crate::heap::lemma_align_gap(prev.0 as int, free[j].0 as int);
        crate::heap::lemma_header_frame(b1@, b2@, prev.0 as int, free[j].0 as int);
    }
    let md = merged.drop_last();
    assert forall|i: int| 0 <= i < md.len() implies b2.spec_size(#[trigger] md[i]) == b1.spec_size(md[i]) by {
        assert(md[i] == merged[i]);
        assert(entry_ok(b1.cap(), merged[i]));
        assert(merged[i].0 < prev.0);
        crate::heap::lemma_align_gap(merged[i].0 as int, prev.0 as int);
        crate::heap::lemma_header_frame(b1@, b2@, prev.0 as int, merged[i].0 as int);
    }
    lemma_sum_sizes_same(b2, b1, md);
    assert(free.subrange(0, k + 1).drop_last() =~= free.subrange(0, k));
    assert(free.subrange(0, k + 1).last() == free[k]);
}

/// Keeping entry `k` as it is moves its bytes from the entries still to
/// come to the kept blocks.
proof fn lemma_keep_keeps_sums(hp0: Heap, b: Heap, merged: Seq<Handle>, free: Seq<Handle>, k: int)
    requires
        0 <= k < free.len(),
        sum_sizes(b, merged) == sum_sizes(hp0, free.subrange(0, k)),
        b.spec_size(free[k]) == hp0.spec_size(free[k]),
    ensures
        sum_sizes(b, merged.push(free[k])) == sum_sizes(hp0, free.subrange(0, k + 1)),
{
    assert(merged.push(free[k]).drop_last() =~= merged);
    assert(free.subrange(0, k + 1).drop_last() =~= free.subrange(0, k));
    assert(free.subrange(0, k + 1).last() == free[k]);
}

/// At the end of a pass the kept blocks are free blocks of the walk, in
/// ascending order.
proof fn lemma_coalescing_done(hp0: Heap, end: int, now: Heap, merged: Seq<Handle>, free: Seq<Handle>)
    requires
        coalescing(hp0, end, now, merged, free, free.len() as int),
        forall|i: int, j: int| 0 <= i < j < merged.len() ==> merged[i].0 < merged[j].0,
    ensures
        tiles(now@, 0, end),
        forall|i: int|
            0 <= i < merged.len() ==> on_tiles(now@, 0, end, #[trigger] merged[i].0 as int) && now.spec_flag(
                merged[i],
                FLAG_FREE,
            ),
        merged.no_duplicates(),
        live_blocks_kept(hp0, end, now, end),
        free_blocks_stay_free(hp0, end, now, end),
{
    reveal(coalescing);
}

pub struct FreeListSpace {
    heap: Heap,
    /// Free block addresses. Kept unsorted for cheap frees; sorted on demand.
    free: Vec<Handle>,
    sorted: bool,
    bump: u32,
    used: u32,
}

impl FreeListSpace {
    pub closed spec fn spec_heap(&self) -> Heap {
        self.heap
    }

    pub closed spec fn free_list(&self) -> Seq<Handle> {
        self.free@
    }

    pub closed spec fn spec_bump(&self) -> int {
        self.bump as int
    }

    pub closed spec fn spec_used(&self) -> int {
        self.used as int
    }

    pub closed spec fn is_sorted(&self) -> bool {
        self.sorted
    }

    /// The bump pointer and every free-list entry stay inside the arena.
    /// None of this depends on what the arena holds, only on its length.
    pub closed spec fn wf(&self) -> bool {
        &&& self.heap.wf()
        &&& self.bump <= self.heap.cap()
        &&& self.bump % 16 == 0
        &&& forall|i: int| 0 <= i < self.free@.len() ==> #[trigger] entry_ok(self.heap.cap(), self.free@[i])
        &&& (self.sorted ==> sorted_by_addr(self.free@))
    }

    pub proof fn lemma_wf(&self)
        requires
            self.wf(),
        ensures
            self.spec_heap().wf(),
            self.spec_bump() <= self.spec_heap().cap(),
            self.spec_bump() % 16 == 0,
            forall|i: int|
                0 <= i < self.free_list().len() ==> #[trigger] entry_ok(
                    self.spec_heap().cap(),
                    self.free_list()[i],
                ),
    {
    }

    /// The heap-walk invariant: every block from the bottom of the arena up
    /// to the bump pointer, live or free, carries its true size, so a walk
    /// that steps by header sizes lands exactly on the bump pointer; and the
    /// free list names blocks of that walk that are flagged free, each once.
    pub open spec fn walkable(&self) -> bool {
        let b = self.spec_heap()@;
        let end = self.spec_bump();
        &&& tiles(b, 0, end)
        &&& forall|i: int|
            0 <= i < self.free_list().len() ==> on_tiles(b, 0, end, #[trigger] self.free_list()[i].0 as int)
                && self.spec_heap().spec_flag(self.free_list()[i], FLAG_FREE)
        &&& self.free_list().no_duplicates()
    }

    pub fn new(capacity: usize) -> (r: FreeListSpace)
        requires
            capacity >= 16,
            capacity < NULL_ADDR,
            capacity % 16 == 0,
        ensures
            r.wf(),
            r.walkable(),
            r.spec_heap()@ == Seq::new(capacity as nat, |i: int| 0u8),
            r.free_list() == Seq::<Handle>::empty(),
            r.spec_bump() == 0,
            r.spec_used() == 0,
    {
        FreeListSpace { heap: Heap::new(capacity), free: Vec::new(), sorted: true, bump: 0, used: 0 }
    }

    pub fn heap(&self) -> (r: &Heap)
        ensures
            *r == self.spec_heap(),
    {
        &self.heap
    }

    pub fn heap_mut(&mut self) -> (r: &mut Heap)
        ensures
            *r == old(self).spec_heap(),
            final(self).spec_heap() == *final(r),
            final(self).free_list() == old(self).free_list(),
            final(self).spec_bump() == old(self).spec_bump(),
            final(self).spec_used() == old(self).spec_used(),
            old(self).wf() && final(r).cap() == r.cap() ==> final(self).wf(),
    {
        &mut self.heap
    }

    pub fn capacity(&self) -> (r: u32)
        requires
            self.wf(),
        ensures
            r == self.spec_heap().cap(),
    {
        self.heap.capacity()
    }

    /// Bytes committed to live objects.
    pub fn used_bytes(&self) -> (r: u32)
        ensures
            r == self.spec_used(),
    {
        self.used
    }

    /// Bytes held in free blocks, not counting memory past the bump pointer.
    pub fn free_bytes(&self) -> (r: u32)
        requires
            self.wf(),
        ensures
            r == if sum_sizes(self.spec_heap(), self.free_list()) > u32::MAX {
                u32::MAX as int
            } else {
                sum_sizes(self.spec_heap(), self.free_list())
            },
    {
        let mut total: u64 = 0;
        let mut i: usize = 0;
        while i < self.free.len()
            invariant
                self.wf(),
                i <= self.free@.len(),
                total == if sum_sizes(self.heap, self.free@.subrange(0, i as int)) > u32::MAX {
                    u32::MAX as int
                } else {
                    sum_sizes(self.heap, self.free@.subrange(0, i as int))
                },
            decreases self.free@.len() - i,
        {
            assert(self.free@.subrange(0, i + 1).drop_last() =~= self.free@.subrange(0, i as int));
            assert(entry_ok(self.heap.cap(), self.free@[i as int]));
            let sz = self.heap.size(self.free[i]) as u64;
            total = if total + sz > u32::MAX as u64 {
                u32::MAX as u64
            } else {
                total + sz
            };
            i = i + 1;
        }
        assert(self.free@.subrange(0, self.free@.len() as int) =~= self.free@);
        total as u32
    }

    /// First address never yet handed out; the heap walk ends here.
    pub fn bump_pointer(&self) -> (r: u32)
        ensures
            r == self.spec_bump(),
    {
        self.bump
    }

    pub fn free_block_count(&self) -> (r: usize)
        ensures
            r == self.free_list().len(),
    {
        self.free.len()
    }

    pub fn largest_free_block(&self) -> (r: u32)
        requires
            self.wf(),
        ensures
            r == max_size(self.spec_heap(), self.free_list()),
    {
        let mut best: u32 = 0;
        let mut i: usize = 0;
        while i < self.free.len()
            invariant
                self.wf(),
                i <= self.free@.len(),
                best == max_size(self.heap, self.free@.subrange(0, i as int)),
            decreases self.free@.len() - i,
        {
            assert(self.free@.subrange(0, i + 1).drop_last() =~= self.free@.subrange(0, i as int));
            assert(entry_ok(self.heap.cap(), self.free@[i as int]));
            let sz = self.heap.size(self.free[i]);
            if sz > best {
                best = sz;
            }
            i = i + 1;
        }
        assert(self.free@.subrange(0, self.free@.len() as int) =~= self.free@);
        best
    }

    pub fn is_free(&self, h: Handle) -> (r: bool)
        requires
            self.wf(),
            self.spec_heap().hdr_in(h),
        ensures
            r == self.spec_heap().spec_flag(h, FLAG_FREE),
    {
        self.heap.flag(h, FLAG_FREE)
    }

    /// Index of the first free block that can hold `need` bytes.
    fn find_fit(&self, need: u32) -> (r: Option<usize>)
        requires
            self.wf(),
        ensures
            match r {
                Some(i) => i < self.free_list().len() && fits(self.spec_heap(), self.free_list()[i as int], need as int)
                    && forall|j: int| 0 <= j < i ==> !#[trigger] fits(self.spec_heap(), self.free_list()[j], need as int),
                None => forall|j: int|
                    0 <= j < self.free_list().len() ==> !#[trigger] fits(self.spec_heap(), self.free_list()[j], need as int),
            },
    {
        let cap = self.heap.capacity();
        let mut i: usize = 0;
        while i < self.free.len()
            invariant
                self.wf(),
                cap == self.heap.cap(),
                i <= self.free@.len(),
                forall|j: int| 0 <= j < i ==> !#[trigger] fits(self.heap, self.free@[j], need as int),
            decreases self.free@.len() - i,
        {
            let b = self.free[i];
            assert(entry_ok(cap as int, b));
            let sz = self.heap.size(b);
            if sz >= need && sz % 16 == 0 && sz <= cap - b.0 {
                return Some(i);
            }
            i = i + 1;
        }
        None
    }

    #[verifier::spinoff_prover]
    fn take_free(&mut self, need: u32) -> (r: Option<u32>)
        requires
            old(self).wf(),
            need % 16 == 0,
            need >= 16,
        ensures
            final(self).wf(),
            final(self).spec_bump() == old(self).spec_bump(),
            final(self).spec_used() == old(self).spec_used(),
            final(self).spec_heap().cap() == old(self).spec_heap().cap(),
            match r {
                Some(at) => at % 16 == 0 && at + need <= old(self).spec_heap().cap() && exists|i: int|
                    #[trigger] first_fit(old(self).spec_heap(), old(self).free_list(), need as int, i)
                        && old(self).free_list()[i].0 == at && final(self).free_list() == after_take(
                        old(self).free_list(),
                        i,
                        rest_of(old(self).spec_heap(), old(self).free_list()[i], need as int),
                    ),
                None => *final(self) == *old(self) && forall|j: int|
                    0 <= j < old(self).free_list().len() ==> !#[trigger] fits(
                        old(self).spec_heap(),
                        old(self).free_list()[j],
                        need as int,
                    ),
            },
            old(self).walkable() ==> match r {
                Some(at) => {
                    let b0 = old(self).spec_heap()@;
                    let s = old(self).spec_heap().spec_size(Handle(at));
                    &&& on_tiles(b0, 0, old(self).spec_bump(), at as int)
                    &&& s >= need
                    &&& s > need ==> {
                        &&& same_outside(final(self).spec_heap()@, b0, at + need, at + need + 16)
                        &&& final(self).spec_heap().spec_size(Handle((at + need) as u32)) == s - need
                        &&& final(self).spec_heap().spec_flag(Handle((at + need) as u32), FLAG_FREE)
                    }
                    &&& s == need ==> final(self).spec_heap() == old(self).spec_heap()
                    &&& forall|e: Handle| #[trigger]
                        final(self).free_list().contains(e) <==> (old(self).free_list().contains(e) && e.0 != at)
                            || (s > need && e.0 == at + need)
                    &&& final(self).free_list().no_duplicates()
                },
                None => true,
            },
    {
        let ghost s0 = *self;
        let idx = match self.find_fit(need) {
            Some(i) => i,
            None => return None,
        };
        let ghost i0 = idx as int;
        assert(entry_ok(self.heap.cap(), self.free@[i0]));
        let block = self.free.swap_remove(idx);
        let ghost f1 = self.free@;
        proof {
            if s0.walkable() {
                lemma_swap_remove_contents(s0.free@, i0, f1);
            }
        }
        self.sorted = false;
        let size = self.heap.size(block);
        let remainder = size - need;
        if remainder > 0 {
            let ghost x = block.0 as int;
            proof {
                if s0.walkable() {
                    assert(on_tiles(s0.heap@, 0, s0.bump as int, s0.free@[i0].0 as int));
                    lemma_on_tiles_facts(s0.heap@, 0, s0.bump as int, x);
                    assert(s0.heap.spec_size(block) >= need);
                    lemma_tiles_no_start_inside(s0.heap@, 0, s0.bump as int, x, x + need);
                    assert(!f1.contains(Handle((x + need) as u32))) by {
                        if f1.contains(Handle((x + need) as u32)) {
                            let k = choose|k: int| 0 <= k < s0.free@.len() && s0.free@[k] == Handle((x + need) as u32);
                            assert(on_tiles(s0.heap@, 0, s0.bump as int, s0.free@[k].0 as int));
                        }
                    }
                }
            }
            let split = self.heap.emplace_block(block.0 + need, remainder);
            self.free.push(split);
            proof {
                if s0.walkable() {
                    let f2 = self.free@;
                    assert forall|e: Handle| #[trigger] f2.contains(e) <==> f1.contains(e) || e == split by {
                        if f2.contains(e) {
                            let k = choose|k: int| 0 <= k < f2.len() && f2[k] == e;
                            if k < f1.len() {
                                assert(f1[k] == e);
                            }
                        }
                        if f1.contains(e) {
                            let k = choose|k: int| 0 <= k < f1.len() && f1[k] == e;
                            assert(f2[k] == e);
                        }
                        if e == split {
                            assert(f2[f1.len() as int] == e);
                        }
                    }
                    assert forall|i: int, j: int| 0 <= i < f2.len() && 0 <= j < f2.len() && i != j implies f2[i]
                        != f2[j] by {
                        if i < f1.len() && j < f1.len() {
                            assert(f1[i] != f1[j]);
                        } else if i < f1.len() {
                            assert(f1.contains(f1[i]));
                        } else if j < f1.len() {
                            assert(f1.contains(f1[j]));
                        }
                    }
                }
            }
        }
        assert(old(self).free_list()[i0].0 == block.0);
        assert(first_fit(old(self).spec_heap(), old(self).free_list(), need as int, i0));
        assert(self.free@ =~= after_take(
            old(self).free_list(),
            i0,
            rest_of(old(self).spec_heap(), old(self).free_list()[i0], need as int),
        ));
        proof {
            if s0.walkable() {
                let at = block.0;
                let sz = s0.heap.spec_size(Handle(at));
                assert(Handle(at) == block);
                assert(on_tiles(s0.heap@, 0, s0.bump as int, s0.free@[i0].0 as int));
                assert(on_tiles(s0.heap@, 0, s0.bump as int, at as int));
                assert(sz >= need);
                assert(sz == need ==> self.heap == s0.heap);
                assert forall|e: Handle| #[trigger] self.free@.contains(e) <==> (s0.free@.contains(e) && e.0 != at)
                    || (sz > need && e.0 == at + need) by {
                    if sz == need {
                        assert(self.free@ == f1);
                    }
                }
                assert(self.free@.no_duplicates());
                if sz > need {
                    assert(same_outside(self.heap@, s0.heap@, at + need, at + need + 16));
                    assert(self.heap.spec_size(Handle((at + need) as u32)) == sz - need);
                    assert(FLAG_FREE & FLAG_FREE != 0) by (bit_vector);
                    assert(self.heap.spec_flag(Handle((at + need) as u32), FLAG_FREE));
                }
            }
        }
        Some(block.0)
    }

    /// Allocate an object, or `None` if no block is large enough.
    ///
    /// Coalescing is not attempted here: a caller that gets `None` should
    /// collect, or call [`FreeListSpace::coalesce`], and try again.
    #[verifier::spinoff_prover]
    pub fn allocate(&mut self, nrefs: u16, ndata: u32) -> (r: Option<Handle>)
        requires
            old(self).wf(),
            16 + 4 * nrefs + ndata + 15 <= u32::MAX,
        ensures
            final(self).wf(),
            final(self).spec_heap().cap() == old(self).spec_heap().cap(),
            match r {
                Some(h) => {
                    let need = spec_size_for(nrefs as int, ndata as int);
                    &&& final(self).spec_heap().is_fresh(h, nrefs as int, ndata as int)
                    &&& final(self).spec_used() == sat_add32(old(self).spec_used(), need)
                    &&& (exists|i: int|
                        #[trigger] first_fit(old(self).spec_heap(), old(self).free_list(), need, i)
                            && old(self).free_list()[i] == h && final(self).spec_bump() == old(self).spec_bump()
                            && final(self).free_list() == after_take(
                            old(self).free_list(),
                            i,
                            rest_of(old(self).spec_heap(), h, need),
                        )) || ((forall|j: int|
                        0 <= j < old(self).free_list().len() ==> !#[trigger] fits(
                            old(self).spec_heap(),
                            old(self).free_list()[j],
                            need,
                        )) && h.0 == old(self).spec_bump() && final(self).spec_bump() == old(self).spec_bump() + need
                        && final(self).free_list() == old(self).free_list())
                },
                None => {
                    &&& *final(self) == *old(self)
                    &&& old(self).spec_bump() + spec_size_for(nrefs as int, ndata as int)
                        > old(self).spec_heap().cap()
                    &&& forall|j: int|
                        0 <= j < old(self).free_list().len() ==> !#[trigger] fits(
                            old(self).spec_heap(),
                            old(self).free_list()[j],
                            spec_size_for(nrefs as int, ndata as int),
                        )
                },
            },
            old(self).walkable() ==> final(self).walkable(),
            r matches Some(h) ==> old(self).walkable() ==> on_tiles(
                final(self).spec_heap()@,
                0,
                final(self).spec_bump(),
                h.0 as int,
            ),
    {
        let ghost s0 = *self;
        let need = Heap::size_for(nrefs, ndata);
        let ghost mut from_list = true;
        let at = match self.take_free(need) {
            Some(at) => at,
            None => {
                let cap = self.heap.capacity();
                if need > cap - self.bump {
                    return None;
                }
                let at = self.bump;
                self.bump = self.bump + need;
                proof {
                    from_list = false;
                }
                at
            },
        };
        let ghost s1 = *self;
        self.used = self.used.saturating_add(need);
        let h = self.heap.emplace(at, nrefs, ndata);
        proof {
            if s0.walkable() {
                if from_list {
                    lemma_alloc_from_list_keeps_walkable(s0, s1, *self, at as int, need as int);
                } else {
                    lemma_alloc_at_bump_keeps_walkable(s0, *self, at as int, need as int);
                }
            }
        }
        Some(h)
    }

    /// The space can hold `need` more bytes without collecting: some listed
    /// free block is big enough, or there is fresh room past the bump
    /// pointer.
    pub open spec fn room_for(&self, need: int) -> bool {
        ||| exists|j: int| 0 <= j < self.free_list().len() && #[trigger] fits(self.spec_heap(), self.free_list()[j], need)
        ||| self.spec_bump() + need <= self.spec_heap().cap()
    }

    /// `h` may be handed to [`FreeListSpace::free`]: an aligned, well-sized,
    /// in-bounds block not already flagged free.
    pub open spec fn freeable(&self, h: Handle) -> bool {
        &&& h.0 % 16 == 0
        &&& self.spec_heap().hdr_in(h)
        &&& self.spec_heap().spec_size(h) >= 16
        &&& h.0 + self.spec_heap().spec_size(h) <= self.spec_heap().cap()
        &&& !self.spec_heap().spec_flag(h, FLAG_FREE)
    }

    /// Whether `h` may be handed to [`FreeListSpace::free`].
    pub fn can_free(&self, h: Handle) -> (r: bool)
        requires
            self.wf(),
        ensures
            r == self.freeable(h),
    {
        let cap = self.heap.capacity();
        if h.0 % 16 != 0 || h.0 > cap - HEADER_SIZE {
            return false;
        }
        let size = self.heap.size(h);
        size >= HEADER_SIZE && size <= cap - h.0 && !self.heap.flag(h, FLAG_FREE)
    }

    /// Return a live object's memory to the free list.
    ///
    /// The payload is poisoned and the block's reference count and mark are
    /// cleared, so a dangling handle reads obvious rubbish.
    #[verifier::spinoff_prover]
    pub fn free(&mut self, h: Handle)
        requires
            old(self).wf(),
            old(self).freeable(h),
        ensures
            final(self).wf(),
            final(self).free_list() == old(self).free_list().push(h),
            final(self).spec_bump() == old(self).spec_bump(),
            final(self).spec_used() == sat_sub32(
                old(self).spec_used(),
                old(self).spec_heap().spec_size(h),
            ),
            final(self).spec_heap().cap() == old(self).spec_heap().cap(),
            final(self).spec_heap().spec_size(h) == old(self).spec_heap().spec_size(h),
            final(self).spec_heap().spec_nrefs(h) == 0,
            final(self).spec_heap().spec_rc(h) == 0,
            final(self).spec_heap().spec_flag(h, FLAG_FREE),
            !final(self).spec_heap().spec_flag(h, FLAG_MARK),
            forall|j: int|
                h.0 + 16 <= j < h.0 + old(self).spec_heap().spec_size(h) ==> #[trigger] final(self).spec_heap()@[j] == POISON,
            forall|j: int|
                0 <= j < old(self).spec_heap().cap() && !(h.0 <= j < h.0 + old(self).spec_heap().spec_size(h)) ==> #[trigger] final(self).spec_heap()@[j] == old(self).spec_heap()@[j],
            old(self).walkable() && on_tiles(old(self).spec_heap()@, 0, old(self).spec_bump(), h.0 as int)
                ==> final(self).walkable() && forall|y: int| #[trigger]
                on_tiles(final(self).spec_heap()@, 0, final(self).spec_bump(), y) == on_tiles(
                    old(self).spec_heap()@,
                    0,
                    old(self).spec_bump(),
                    y,
                ),
    {
        let ghost s0 = *self;
        let size = self.heap.size(h);
        let ghost f0 = self.heap.spec_flags(h);
        self.heap.poison(h);
        let ghost f1 = self.heap.spec_flags(h);
        assert(f1 == f0 | FLAG_FREE);
        self.heap.set_nrefs(h, 0);
        self.heap.set_rc(h, 0);
        self.heap.set_marked(h, false);
        proof {
            crate::heap::lemma_flag_bits(f1, FLAG_MARK);
            crate::heap::lemma_flag_bits(f0, FLAG_FREE);
            assert(FLAG_FREE & FLAG_MARK == 0) by (bit_vector);
            assert(self.heap.spec_flags(h) == f1 & !FLAG_MARK);
        }
        self.used = self.used.saturating_sub(size);
        self.free.push(h);
        self.sorted = false;
        proof {
            if s0.walkable() && on_tiles(s0.heap@, 0, s0.bump as int, h.0 as int) {
                lemma_free_keeps_walkable(s0, *self, h);
            }
        }
    }

    /// Put the free list in address order.
    fn sort_free(&mut self)
        requires
            old(self).wf(),
        ensures
            final(self).wf(),
            final(self).is_sorted(),
            sorted_by_addr(final(self).free_list()),
            final(self).free_list().to_multiset() == old(self).free_list().to_multiset(),
            final(self).spec_heap() == old(self).spec_heap(),
            final(self).spec_bump() == old(self).spec_bump(),
            final(self).spec_used() == old(self).spec_used(),
    {
        if self.sorted {
            return;
        }
        let ghost cap = self.heap.cap();
        let mut out: Vec<Handle> = Vec::new();
        proof {
            broadcast use vstd::seq_lib::group_to_multiset_ensures;
            assert(self.free@.subrange(0, 0) =~= Seq::<Handle>::empty());
            assert(out@ =~= Seq::<Handle>::empty());
        }
        let mut k: usize = 0;
        while k < self.free.len()
            invariant
                self.wf(),
                cap == self.heap.cap(),
                k <= self.free@.len(),
                sorted_by_addr(out@),
                out@.to_multiset() == self.free@.subrange(0, k as int).to_multiset(),
                forall|i: int| 0 <= i < out@.len() ==> #[trigger] entry_ok(cap, out@[i]),
            decreases self.free@.len() - k,
        {
            let e = self.free[k];
            let mut p = out.len();
            while p > 0 && out[p - 1].0 > e.0
                invariant
                    p <= out@.len(),
                    sorted_by_addr(out@),
                    forall|i: int| p <= i < out@.len() ==> #[trigger] out@[i].0 > e.0,
                decreases p,
            {
                p = p - 1;
            }
            let ghost before = out@;
            proof {
                vstd::seq_lib::to_multiset_insert(before, p as int, e);
                vstd::seq_lib::to_multiset_build(self.free@.subrange(0, k as int), e);
                assert(self.free@.subrange(0, k + 1) =~= self.free@.subrange(0, k as int).push(e));
            }
            out.insert(p, e);
            assert(out@ == before.insert(p as int, e));
            assert(sorted_by_addr(out@)) by {
                assert forall|i: int, j: int| 0 <= i < j < out@.len() implies out@[i].0 <= out@[j].0 by {
                    if j < p {
                    } else if j == p {
                    } else if i < p {
                        if p < before.len() {
                            assert(before[p as int].0 > e.0);
                        }
                    } else if i == p {
                    } else {
                    }
                }
            }
            k = k + 1;
        }
        assert(self.free@.subrange(0, self.free@.len() as int) =~= self.free@);
        self.free = out;
        self.sorted = true;
    }

    /// Merge adjacent free blocks, so that small holes become usable ones.
    /// Returns the number of merges.
    ///
    /// A free run that reaches the bump pointer is then given back as virgin
    /// memory. On a walkable space, afterwards no listed block ends where the
    /// next begins or at the bump pointer, and the bytes that can still be
    /// handed out (listed plus virgin) are what they were.
    #[verifier::spinoff_prover]
    #[verifier::rlimit(100)]
    pub fn coalesce(&mut self) -> (r: u64)
        requires
            old(self).wf(),
        ensures
            final(self).wf(),
            final(self).is_sorted(),
            final(self).spec_heap().cap() == old(self).spec_heap().cap(),
            final(self).spec_used() == old(self).spec_used(),
            final(self).spec_bump() <= old(self).spec_bump(),
            r <= old(self).free_list().len(),
            old(self).walkable() ==> final(self).walkable(),
            old(self).walkable() ==> forall|i: int|
                0 <= i < final(self).free_list().len() - 1 ==> !adjacent(
                    final(self).spec_heap(),
                    #[trigger] final(self).free_list()[i],
                    final(self).free_list()[i + 1],
                ),
            old(self).walkable() ==> sum_sizes(final(self).spec_heap(), final(self).free_list())
                - final(self).spec_bump() == sum_sizes(old(self).spec_heap(), old(self).free_list())
                - old(self).spec_bump(),
            old(self).walkable() && final(self).free_list().len() > 0 ==> final(self).free_list().last().0
                + final(self).spec_heap().spec_size(final(self).free_list().last()) != final(self).spec_bump(),
            old(self).walkable() && final(self).spec_bump() == old(self).spec_bump() ==> r == old(
                self,
            ).free_list().len() - final(self).free_list().len(),
            old(self).walkable() && final(self).spec_bump() < old(self).spec_bump() ==> r == old(
                self,
            ).free_list().len() - final(self).free_list().len() - 1,
            old(self).walkable() ==> live_blocks_kept(
                old(self).spec_heap(),
                old(self).spec_bump(),
                final(self).spec_heap(),
                final(self).spec_bump(),
            ),
            old(self).walkable() ==> free_blocks_stay_free(
                old(self).spec_heap(),
                old(self).spec_bump(),
                final(self).spec_heap(),
                final(self).spec_bump(),
            ),
    {
        let ghost ok = old(self).walkable();
        let ghost hp0 = self.heap;
        let ghost bump00 = self.bump as int;
        self.sort_free();
        proof {
            lemma_sum_sizes_perm(hp0, self.free@, old(self).free@);
            vstd::seq_lib::to_multiset_len(self.free@);
            vstd::seq_lib::to_multiset_len(old(self).free@);
            if ok {
                lemma_permuted_walkable(*old(self), *self);
                lemma_sorted_distinct_ascends(self.free@);
            }
        }
        let ghost cap = self.heap.cap();
        let ghost n0 = self.free@.len();
        let cap32 = self.heap.capacity();
        let ghost used0 = self.used;
        let ghost bump0 = self.bump;
        let mut merged: Vec<Handle> = Vec::new();
        let mut merges: u64 = 0;
        let mut k: usize = 0;
        proof {
            if ok {
                lemma_coalescing_start(*self);
            }
        }
        while k < self.free.len()
            invariant
                self.heap.wf(),
                cap == self.heap.cap(),
                cap32 == cap,
                n0 == self.free@.len(),
                k <= self.free@.len(),
                self.bump <= cap,
                self.bump % 16 == 0,
                self.used == used0,
                self.bump == bump0,
                forall|i: int| 0 <= i < self.free@.len() ==> #[trigger] entry_ok(cap, self.free@[i]),
                forall|i: int| 0 <= i < merged@.len() ==> #[trigger] entry_ok(cap, merged@[i]),
                forall|i: int, j: int| 0 <= i < j < merged@.len() ==> merged@[i].0 < merged@[j].0,
                merges + merged@.len() <= k,
                ok ==> merges + merged@.len() == k,
                ok ==> coalescing(hp0, bump00, self.heap, merged@, self.free@, k as int),
                ok ==> forall|i: int|
                    0 <= i < merged@.len() - 1 ==> !adjacent(self.heap, #[trigger] merged@[i], merged@[i + 1]),
                ok ==> sum_sizes(self.heap, merged@) == sum_sizes(hp0, self.free@.subrange(0, k as int)),
                ok ==> forall|i: int, j: int| 0 <= i < j < self.free@.len() ==> self.free@[i].0 < self.free@[j].0,
                sum_sizes(hp0, self.free@) == sum_sizes(old(self).heap, old(self).free@),
                ok ==> forall|j: int|
                    k <= j < self.free@.len() ==> self.heap.spec_size(#[trigger] self.free@[j]) == hp0.spec_size(
                        self.free@[j],
                    ),
                bump00 == self.bump,
            decreases self.free@.len() - k,
        {
            let block = self.free[k];
            assert(entry_ok(cap, block));
            if merged.len() > 0 {
                let prev = merged[merged.len() - 1];
                assert(entry_ok(cap, prev));
                proof {
                    if ok {
                        lemma_coalescing_ascends(hp0, bump00, self.heap, merged@, self.free@, k as int);
                    }
                }
                if block.0 <= prev.0 {
                    // A repeated entry: the block is already listed.
                    proof {
                        assert(prev == merged@.last());
                        if ok {
                            lemma_coalescing_skip(hp0, bump00, self.heap, merged@, self.free@, k as int);
                        }
                    }
                    k = k + 1;
                    continue;
                }
                let ps = self.heap.size(prev);
                let bs = self.heap.size(block);
                if ps >= 16 && ps % 16 == 0 && ps <= cap32 - prev.0 && prev.0 + ps == block.0 && bs
                    >= 16 && bs % 16 == 0 && bs <= cap32 - block.0 {
                    let ghost b1 = self.heap;
                    self.heap.emplace_block(prev.0, ps + bs);
                    proof {
                        if ok {
                            lemma_coalescing_merge(hp0, bump00, b1, self.heap, merged@, self.free@, k as int);
                            assert(prev == merged@.last());
                            lemma_merge_keeps_apart(b1, self.heap, merged@, prev);
                            lemma_merge_keeps_sums(hp0, b1, self.heap, merged@, self.free@, k as int);
                        }
                    }
                    merges = merges + 1;
                    k = k + 1;
                    continue;
                }
            }
            proof {
                if ok {
                    lemma_coalescing_keep(hp0, bump00, self.heap, merged@, self.free@, k as int);
                    reveal(coalescing);
                    assert(on_tiles(self.heap@, 0, bump00, block.0 as int));
                    lemma_on_tiles_facts(self.heap@, 0, bump00, block.0 as int);
                    assert(sane(self.heap, block));
                }
            }
            let ghost m0 = merged@;
            merged.push(block);
            proof {
                if ok {
                    lemma_keep_keeps_sums(hp0, self.heap, m0, self.free@, k as int);
                    assert forall|i: int| 0 <= i < merged@.len() - 1 implies !adjacent(
                        self.heap,
                        #[trigger] merged@[i],
                        merged@[i + 1],
                    ) by {
                        if i < m0.len() - 1 {
                            assert(merged@[i] == m0[i] && merged@[i + 1] == m0[i + 1]);
                        } else {
                            assert(merged@[i] == m0.last() && merged@[i + 1] == block);
                        }
                    }
                }
            }
            k = k + 1;
        }
        proof {
            if ok {
                lemma_coalescing_done(hp0, bump00, self.heap, merged@, self.free@);
                assert(self.free@.subrange(0, self.free@.len() as int) =~= self.free@);
            }
        }
        self.free = merged;
        self.sorted = true;
        assert(sorted_by_addr(self.free@));
        let n = self.free.len();
        if n > 0 {
            let last = self.free[n - 1];
            assert(entry_ok(cap, last));
            let ls = self.heap.size(last);
            if ls <= cap32 - last.0 && last.0 + ls == self.bump {
                let ghost f = self.free@;
                let ghost end = self.bump as int;
                self.free.pop();
                self.bump = last.0;
                proof {
                    if ok {
                        assert forall|i: int| 0 <= i < self.free@.len() - 1 implies !adjacent(
                            self.heap,
                            #[trigger] self.free@[i],
                            self.free@[i + 1],
                        ) by {
                            assert(self.free@[i] == f[i] && self.free@[i + 1] == f[i + 1]);
                        }
                        if n >= 2 {
                            let p = f[n - 2];
                            assert(self.free@.last() == p);
                            assert(!adjacent(self.heap, f[n - 2], f[n - 1]));
                            assert(on_tiles(self.heap@, 0, end, p.0 as int));
                            lemma_on_tiles_facts(self.heap@, 0, end, p.0 as int);
                        }
                        assert(on_tiles(self.heap@, 0, end, f[n - 1].0 as int));
                        lemma_tiles_trim(self.heap@, 0, end, last.0 as int);
                        assert forall|x: int|
                            #[trigger] on_tiles(hp0@, 0, bump00, x) && !hp0.spec_flag(Handle(x as u32), FLAG_FREE) implies on_tiles(
                            self.heap@,
                            0,
                            self.bump as int,
                            x,
                        ) && forall|j: int| x <= j < x + le32(hp0@, x) ==> #[trigger] self.heap@[j] == hp0@[j] by {
                            assert(on_tiles(self.heap@, 0, end, x));
                            lemma_on_tiles_facts(hp0@, 0, bump00, x);
                            assert(self.heap@[x + 6] == hp0@[x + 6]);
                            assert(self.heap.spec_flag(f[n - 1], FLAG_FREE));
                            if x == last.0 {
                                assert(Handle(x as u32) == last);
                            }
                        }
                        assert forall|x: int| #[trigger] on_tiles(self.heap@, 0, self.bump as int, x) implies on_tiles(
                            hp0@,
                            0,
                            bump00,
                            x,
                        ) && (hp0.spec_flag(Handle(x as u32), FLAG_FREE) ==> self.heap.spec_flag(Handle(x as u32), FLAG_FREE)) by {
                            assert(on_tiles(self.heap@, 0, end, x));
                        }
                        assert forall|i: int| 0 <= i < self.free@.len() implies on_tiles(
                            self.heap@,
                            0,
                            self.bump as int,
                            #[trigger] self.free@[i].0 as int,
                        ) && self.heap.spec_flag(self.free@[i], FLAG_FREE) by {
                            assert(self.free@[i] == f[i]);
                            assert(on_tiles(self.heap@, 0, end, f[i].0 as int));
                        }
                    }
                }
            }
        }
        proof {
            if ok {
                assert(self.free@.no_duplicates());
            }
        }
        merges
    }

    /// Check that the heap is walkable and the free list agrees with it.
    ///
    /// Succeeds exactly when `[0, bump)` is tiled by well-formed blocks, the
    /// free list (once sorted) lists exactly the blocks flagged free, in
    /// address order, and `used_bytes()` equals the total size of the rest.
    #[verifier::loop_isolation(false)]
    #[verifier::spinoff_prover]
    pub fn validate(&mut self) -> (r: Result<(), String>)
        requires
            old(self).wf(),
        ensures
            final(self).wf(),
            final(self).spec_heap() == old(self).spec_heap(),
            final(self).spec_bump() == old(self).spec_bump(),
            final(self).spec_used() == old(self).spec_used(),
            final(self).free_list().to_multiset() == old(self).free_list().to_multiset(),
            r is Ok <==> {
                let b = old(self).spec_heap()@;
                let w = walk_from(b, 0, old(self).spec_bump());
                &&& tiles(b, 0, old(self).spec_bump())
                &&& final(self).free_list() == free_only(old(self).spec_heap(), w)
                &&& old(self).spec_used() == live_sum(old(self).spec_heap(), w)
            },
    {
        let ghost b = self.heap@;
        let ghost end = self.bump as int;
        let mut walked: Vec<Handle> = Vec::new();
        let mut live: u64 = 0;
        let mut at: u32 = 0;
        let ghost mut prefix: Seq<Handle> = Seq::empty();
        while at < self.bump
            invariant
                *self == *old(self),
                self.wf(),
                b == self.heap@,
                end == self.bump,
                at <= self.bump,
                at % 16 == 0,
                tiles(b, 0, end) == tiles(b, at as int, end),
                walk_from(b, 0, end) == prefix + walk_from(b, at as int, end),
                walked@ == free_only(self.heap, prefix),
                live == live_sum(self.heap, prefix),
                live <= at,
            decreases end - at,
        {
            let h = Handle(at);
            let size = self.heap.size(h);
            if size < HEADER_SIZE || size % 16 != 0 || size > self.bump - at {
                assert(!tiles(b, at as int, end));
                let mut m = String::from_str("block at ");
                push_hex(&mut m, at as u64);
                m.append(" claims size ");
                push_num(&mut m, size as u64);
                m.append("; the walk cannot continue");
                return Err(m);
            }
            let ghost pre = prefix;
            proof {
                prefix = prefix.push(h);
                assert(prefix.drop_last() =~= pre);
                reveal(Seq::filter);
                assert(walk_from(b, at as int, end) == seq![h] + walk_from(b, at + size, end));
                assert(pre + (seq![h] + walk_from(b, at + size, end)) =~= prefix + walk_from(
                    b,
                    at + size,
                    end,
                ));
            }
            if self.heap.flag(h, FLAG_FREE) {
                walked.push(h);
            } else {
                live = live + size as u64;
            }
            at = at + size;
        }
        assert(walk_from(b, end, end) =~= Seq::<Handle>::empty());
        assert(prefix =~= walk_from(b, 0, end));
        self.sort_free();
        if self.free.len() != walked.len() {
            return Err(free_list_mismatch(&self.free, &walked));
        }
        let ghost s1 = *self;
        let mut i: usize = 0;
        while i < walked.len()
            invariant
                *self == s1,
                i <= walked@.len(),
                walked@.len() == self.free@.len(),
                forall|k: int| 0 <= k < i ==> self.free@[k] == walked@[k],
            decreases walked@.len() - i,
        {
            if self.free[i].0 != walked[i].0 {
                return Err(free_list_mismatch(&self.free, &walked));
            }
            i = i + 1;
        }
        assert(self.free@ =~= walked@);
        if self.used as u64 != live {
            let mut m = String::from_str("used_bytes() is ");
            push_num(&mut m, self.used as u64);
            m.append(" but the walk finds ");
            push_num(&mut m, live);
            m.append(" live bytes");
            return Err(m);
        }
        Ok(())
    }

    /// Free blocks, in address order.
    pub fn free_blocks(&mut self) -> (r: &[Handle])
        requires
            old(self).wf(),
        ensures
            final(self).wf(),
            sorted_by_addr(r@),
            r@ == final(self).free_list(),
            final(self).free_list().to_multiset() == old(self).free_list().to_multiset(),
            final(self).spec_heap() == old(self).spec_heap(),
            final(self).spec_bump() == old(self).spec_bump(),
            final(self).spec_used() == old(self).spec_used(),
    {
        self.sort_free();
        self.free.as_slice()
    }

    /// Every block in the heap, live or free, in address order.
    pub fn walk(&self) -> (r: Vec<Handle>)
        requires
            self.wf(),
            walk_ok(self.spec_heap()@, 0, self.spec_bump()),
        ensures
            r@ == walk_from(self.spec_heap()@, 0, self.spec_bump()),
    {
        self.heap.walk(0, self.bump)
    }

    /// Every live block, in address order.
    pub fn live_blocks(&self) -> (r: Vec<Handle>)
        requires
            self.wf(),
            walk_ok(self.spec_heap()@, 0, self.spec_bump()),
        ensures
            r@ == live_only(self.spec_heap(), walk_from(self.spec_heap()@, 0, self.spec_bump())),
    {
        let all = self.heap.walk(0, self.bump);
        let ghost w = all@;
        proof {
            crate::heap::lemma_walk_from_in(self.heap@, 0, self.bump as int);
        }
        let mut out: Vec<Handle> = Vec::new();
        let mut i: usize = 0;
        while i < all.len()
            invariant
                self.wf(),
                w == all@,
                w == walk_from(self.heap@, 0, self.bump as int),
                i <= w.len(),
                out@ == live_only(self.heap, w.subrange(0, i as int)),
                forall|k: int| 0 <= k < w.len() ==> #[trigger] self.heap.hdr_in(w[k]),
            decreases w.len() - i,
        {
            let h = all[i];
            proof {
                reveal(Seq::filter);
                assert(w.subrange(0, i + 1).drop_last() =~= w.subrange(0, i as int));
            }
            if !self.heap.flag(h, FLAG_FREE) {
                out.push(h);
            }
            i = i + 1;
        }
        assert(w.subrange(0, w.len() as int) =~= w);
        out
    }

    /// Total size of every live block, found by walking rather than from the
    /// space's own bookkeeping (pinned at `u32::MAX`).
    pub fn walk_live_bytes(&self) -> (r: u32)
        requires
            self.wf(),
            walk_ok(self.spec_heap()@, 0, self.spec_bump()),
        ensures
            r == if live_sum(self.spec_heap(), walk_from(self.spec_heap()@, 0, self.spec_bump()))
                > u32::MAX {
                u32::MAX as int
            } else {
                live_sum(self.spec_heap(), walk_from(self.spec_heap()@, 0, self.spec_bump()))
            },
    {
        let all = self.heap.walk(0, self.bump);
        let ghost w = all@;
        proof {
            crate::heap::lemma_walk_from_in(self.heap@, 0, self.bump as int);
        }
        let mut total: u64 = 0;
        let mut i: usize = 0;
        while i < all.len()
            invariant
                self.wf(),
                w == all@,
                w == walk_from(self.heap@, 0, self.bump as int),
                i <= w.len(),
                total == if live_sum(self.heap, w.subrange(0, i as int)) > u32::MAX {
                    u32::MAX as int
                } else {
                    live_sum(self.heap, w.subrange(0, i as int))
                },
                forall|k: int| 0 <= k < w.len() ==> #[trigger] self.heap.hdr_in(w[k]),
            decreases w.len() - i,
        {
            let h = all[i];
            assert(w.subrange(0, i + 1).drop_last() =~= w.subrange(0, i as int));
            if !self.heap.flag(h, FLAG_FREE) {
                let sz = self.heap.size(h) as u64;
                total = if total + sz > u32::MAX as u64 {
                    u32::MAX as u64
                } else {
                    total + sz
                };
            }
            i = i + 1;
        }
        assert(w.subrange(0, w.len() as int) =~= w);
        total as u32
    }
}

} // verus!
