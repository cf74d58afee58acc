//! An explicit-free allocator with no garbage collection at all.
//!
//! A **bump pointer** hands out never-used memory; a **free list**, kept in
//! address order, recycles blocks that have been handed back. The free list is
//! tried first, so memory gets reused, and the bump pointer serves anything
//! the free list cannot.
//!
//! Every block in `[0, bump)`, allocated or free, carries its own size in its
//! header, so the region can be walked.

use crate::heap::{same_outside, walk_from, walk_ok, Handle, Heap, FLAG_FREE, HEADER_SIZE, NULL_ADDR, spec_size_for};
use crate::space::{entry_ok, fits, free_only, rest_of, live_only, live_sum, max_size, sat_add32, sat_sub32, sorted_by_addr, sum_sizes, tiles};
use crate::stats::sat_add;
use crate::verify::{push_handle, push_handles, push_hex, push_num};
use vstd::prelude::*;
use vstd::string::StringExecFns;

verus! {

/// How the allocator chooses among free blocks that are big enough.
#[derive(Clone, Copy, PartialEq, Eq, Structural, Debug)]
pub enum FitPolicy {
    /// Take the first block that fits.
    First,
    /// Take the smallest block that fits; ties go to the lowest address.
    Best,
}

#[derive(Clone, Debug)]
pub struct AllocStats {
    pub allocations: u64,
    pub frees: u64,
    pub bytes_allocated: u64,
    pub bytes_freed: u64,
    /// Free blocks split to satisfy a smaller request.
    pub splits: u64,
    /// Adjacent free blocks merged into one.
    pub merges: u64,
    /// Requests that could not be satisfied.
    pub failures: u64,
    /// Blocks taken from the free list rather than from fresh memory.
    pub reused: u64,
}

impl Default for AllocStats {
    fn default() -> (r: AllocStats)
        ensures
            r.allocations == 0 && r.frees == 0 && r.bytes_allocated == 0 && r.bytes_freed == 0,
            r.splits == 0 && r.merges == 0 && r.failures == 0 && r.reused == 0,
    {
        AllocStats {
            allocations: 0,
            frees: 0,
            bytes_allocated: 0,
            bytes_freed: 0,
            splits: 0,
            merges: 0,
            failures: 0,
            reused: 0,
        }
    }
}

/// `after` is the free list `free` once entry `i` is taken out, with what
/// is left of the block, if anything, put back at position `p`.
pub open spec fn taken_at(free: Seq<Handle>, i: int, rest: Option<Handle>, after: Seq<Handle>, p: int) -> bool {
    match rest {
        None => after == free.remove(i),
        Some(h) => 0 <= p < free.len() && after == free.remove(i).insert(p, h),
    }
}

/// `after` is the free list `free` once entry `i` is taken out, with what
/// is left of the block, if anything, put back in address order.
pub open spec fn taken(free: Seq<Handle>, i: int, rest: Option<Handle>, after: Seq<Handle>) -> bool {
    exists|p: int| #[trigger] taken_at(free, i, rest, after, p)
}

/// The free block chosen under `policy` for a request of `need` bytes.
pub open spec fn chosen(heap: Heap, free: Seq<Handle>, need: int, policy: FitPolicy, i: int) -> bool {
    &&& 0 <= i < free.len()
    &&& fits(heap, free[i], need)
    &&& forall|j: int| 0 <= j < i ==> !#[trigger] fits(heap, free[j], need) || (policy == FitPolicy::Best
        && heap.spec_size(free[j]) > heap.spec_size(free[i]))
    &&& (policy == FitPolicy::Best ==> forall|j: int|
        i < j < free.len() && #[trigger] fits(heap, free[j], need) ==> heap.spec_size(free[j])
            >= heap.spec_size(free[i]))
}

/// The header of `a` describes an aligned, in-bounds block of at least a
/// header's size.
pub open spec fn sane(heap: Heap, a: Handle) -> bool {
    &&& heap.spec_size(a) >= 16
    &&& heap.spec_size(a) % 16 == 0
    &&& a.0 + heap.spec_size(a) <= heap.cap()
}

/// `a` is a sane block and `b` starts exactly where it ends.
pub open spec fn adjacent(heap: Heap, a: Handle, b: Handle) -> bool {
    sane(heap, a) && a.0 + heap.spec_size(a) == b.0
}

/// Addresses strictly ascend along `s`.
pub open spec fn strictly_sorted(s: Seq<Handle>) -> bool {
    forall|i: int, j: int| 0 <= i < j < s.len() ==> s[i].0 < s[j].0
}

/// Rewriting the header of the last block of a merged run leaves every
/// earlier pair of the run as far apart as it was.
pub proof fn lemma_merge_keeps_apart(before: Heap, after: Heap, merged: Seq<Handle>, prev: Handle)
    requires
        merged.len() > 0,
        merged.last() == prev,
        after.cap() == before.cap(),
        same_outside(after@, before@, prev.0 as int, prev.0 + 16),
        forall|i: int| 0 <= i < merged.len() ==> #[trigger] entry_ok(before.cap(), merged[i]),
        strictly_sorted(merged),
        forall|i: int|
            0 <= i < merged.len() - 1 ==> !adjacent(before, #[trigger] merged[i], merged[i + 1]),
    ensures
        forall|i: int|
            0 <= i < merged.len() - 1 ==> !adjacent(after, #[trigger] merged[i], merged[i + 1]),
{
    assert(entry_ok(before.cap(), merged[merged.len() - 1]));
    assert forall|i: int| 0 <= i < merged.len() - 1 implies !adjacent(
        after,
        #[trigger] merged[i],
        merged[i + 1],
    ) by {
        assert(entry_ok(before.cap(), merged[i]));
        assert(merged[i].0 < prev.0);
        crate::heap::lemma_align_gap(merged[i].0 as int, prev.0 as int);
        crate::heap::lemma_header_frame(before@, after@, prev.0 as int, merged[i].0 as int);
        if i + 1 < merged.len() - 1 {
            assert(entry_ok(before.cap(), merged[i + 1]));
            assert(merged[i + 1].0 < prev.0);
            crate::heap::lemma_align_gap(merged[i + 1].0 as int, prev.0 as int);
            crate::heap::lemma_header_frame(before@, after@, prev.0 as int, merged[i + 1].0 as int);
        }
    }
}

/// Removing an entry keeps a free list ordered and in bounds.
proof fn lemma_remove_keeps_order(s: Seq<Handle>, k: int, cap: int)
    requires
        0 <= k < s.len(),
        sorted_by_addr(s),
        forall|i: int| 0 <= i < s.len() ==> #[trigger] entry_ok(cap, s[i]),
    ensures
        sorted_by_addr(s.remove(k)),
        forall|i: int| 0 <= i < s.remove(k).len() ==> #[trigger] entry_ok(cap, s.remove(k)[i]),
{
    let rest = s.remove(k);
    assert forall|i: int, j: int| 0 <= i < j < rest.len() implies rest[i].0 <= rest[j].0 by {
        if j < k {
            assert(rest[i] == s[i]);
            assert(rest[j] == s[j]);
        } else if i < k {
            assert(rest[i] == s[i]);
            assert(rest[j] == s[j + 1]);
        } else {
            assert(rest[i] == s[i + 1]);
            assert(rest[j] == s[j + 1]);
        }
    }
    assert forall|i: int| 0 <= i < rest.len() implies #[trigger] entry_ok(cap, rest[i]) by {
        if i < k {
            assert(rest[i] == s[i]);
        } else {
            assert(rest[i] == s[i + 1]);
        }
    }
}

pub struct Allocator {
    heap: Heap,
    /// Free block addresses, kept in address order.
    free_handles: Vec<Handle>,
    /// First address never yet handed out.
    bump: u32,
    used: u32,
    policy: FitPolicy,
    stats: AllocStats,
}

impl Allocator {
    pub closed spec fn spec_heap(&self) -> Heap {
        self.heap
    }

    pub closed spec fn free_list(&self) -> Seq<Handle> {
        self.free_handles@
    }

    pub closed spec fn spec_bump(&self) -> int {
        self.bump as int
    }

    pub closed spec fn spec_used(&self) -> int {
        self.used as int
    }

    pub closed spec fn spec_policy(&self) -> FitPolicy {
        self.policy
    }

    pub closed spec fn spec_stats(&self) -> AllocStats {
        self.stats
    }

    /// The bump pointer and every free-list entry stay inside the arena, and
    /// the free list is in address order.
    pub closed spec fn wf(&self) -> bool {
        &&& self.heap.wf()
        &&& self.bump <= self.heap.cap()
        &&& self.bump % 16 == 0
        &&& forall|i: int|
            0 <= i < self.free_handles@.len() ==> #[trigger] entry_ok(
                self.heap.cap(),
                self.free_handles@[i],
            )
        &&& sorted_by_addr(self.free_handles@)
    }

    pub fn new(capacity: usize) -> (r: Allocator)
        requires
            capacity >= 16,
            capacity < NULL_ADDR,
            capacity % 16 == 0,
        ensures
            r.wf(),
            r.spec_heap()@ == Seq::new(capacity as nat, |i: int| 0u8),
            r.free_list() == Seq::<Handle>::empty(),
            r.spec_bump() == 0,
            r.spec_used() == 0,
            r.spec_policy() == FitPolicy::First,
    {
        Allocator {
            heap: Heap::new(capacity),
            free_handles: Vec::new(),
            bump: 0,
            used: 0,
            policy: FitPolicy::First,
            stats: AllocStats::default(),
        }
    }

    pub fn with_policy(capacity: usize, policy: FitPolicy) -> (r: Allocator)
        requires
            capacity >= 16,
            capacity < NULL_ADDR,
            capacity % 16 == 0,
        ensures
            r.wf(),
            r.spec_heap()@ == Seq::new(capacity as nat, |i: int| 0u8),
            r.free_list() == Seq::<Handle>::empty(),
            r.spec_bump() == 0,
            r.spec_used() == 0,
            r.spec_policy() == policy,
    {
        let mut a = Allocator::new(capacity);
        a.policy = policy;
        a
    }

    pub fn heap(&self) -> (r: &Heap)
        ensures
            *r == self.spec_heap(),
    {
        &self.heap
    }

    pub fn heap_mut(&mut self) -> (r: &mut Heap)
        ensures
            *r == old(self).spec_heap(),
            final(self).spec_heap() == *final(r),
            final(self).free_list() == old(self).free_list(),
            final(self).spec_bump() == old(self).spec_bump(),
            final(self).spec_used() == old(self).spec_used(),
            old(self).wf() && final(r).cap() == r.cap() ==> final(self).wf(),
    {
        &mut self.heap
    }

    pub fn stats(&self) -> (r: &AllocStats)
        ensures
            *r == self.spec_stats(),
    {
        &self.stats
    }

    pub fn policy(&self) -> (r: FitPolicy)
        ensures
            r == self.spec_policy(),
    {
        self.policy
    }

    pub fn capacity(&self) -> (r: u32)
        requires
            self.wf(),
        ensures
            r == self.spec_heap().cap(),
    {
        self.heap.capacity()
    }

    /// First address never yet handed out.
    pub fn bump_pointer(&self) -> (r: u32)
        ensures
            r == self.spec_bump(),
    {
        self.bump
    }

    /// Bytes currently committed to live objects.
    pub fn used_bytes(&self) -> (r: u32)
        ensures
            r == self.spec_used(),
    {
        self.used
    }

    /// Bytes sitting in free blocks, not counting virgin memory.
    pub fn free_bytes(&self) -> (r: u32)
        requires
            self.wf(),
        ensures
            r == if sum_sizes(self.spec_heap(), self.free_list()) > u32::MAX {
                u32::MAX as int
            } else {
                sum_sizes(self.spec_heap(), self.free_list())
            },
    {
        let mut total: u64 = 0;
        let mut i: usize = 0;
        while i < self.free_handles.len()
            invariant
                self.wf(),
                i <= self.free_handles@.len(),
                total == if sum_sizes(self.heap, self.free_handles@.subrange(0, i as int))
                    > u32::MAX {
                    u32::MAX as int
                } else {
                    sum_sizes(self.heap, self.free_handles@.subrange(0, i as int))
                },
            decreases self.free_handles@.len() - i,
        {
            assert(self.free_handles@.subrange(0, i + 1).drop_last() =~= self.free_handles@.subrange(
                0,
                i as int,
            ));
            assert(entry_ok(self.heap.cap(), self.free_handles@[i as int]));
            let sz = self.heap.size(self.free_handles[i]) as u64;
            total = if total + sz > u32::MAX as u64 {
                u32::MAX as u64
            } else {
                total + sz
            };
            i = i + 1;
        }
        assert(self.free_handles@.subrange(0, self.free_handles@.len() as int)
            =~= self.free_handles@);
        total as u32
    }

    /// Bytes past the bump pointer that have never been used.
    pub fn virgin_bytes(&self) -> (r: u32)
        requires
            self.wf(),
        ensures
            r == self.spec_heap().cap() - self.spec_bump(),
    {
        self.capacity() - self.bump
    }

    pub fn free_block_count(&self) -> (r: usize)
        ensures
            r == self.free_list().len(),
    {
        self.free_handles.len()
    }

    /// Size of the largest single free block, ignoring virgin memory.
    pub fn largest_free_block(&self) -> (r: u32)
        requires
            self.wf(),
        ensures
            r == max_size(self.spec_heap(), self.free_list()),
    {
        let mut best: u32 = 0;
        let mut i: usize = 0;
        while i < self.free_handles.len()
            invariant
                self.wf(),
                i <= self.free_handles@.len(),
                best == max_size(self.heap, self.free_handles@.subrange(0, i as int)),
            decreases self.free_handles@.len() - i,
        {
            assert(self.free_handles@.subrange(0, i + 1).drop_last() =~= self.free_handles@.subrange(
                0,
                i as int,
            ));
            assert(entry_ok(self.heap.cap(), self.free_handles@[i as int]));
            let sz = self.heap.size(self.free_handles[i]);
            if sz > best {
                best = sz;
            }
            i = i + 1;
        }
        assert(self.free_handles@.subrange(0, self.free_handles@.len() as int)
            =~= self.free_handles@);
        best
    }

    /// Free block addresses, in address order.
    pub fn free_blocks(&self) -> (r: &[Handle])
        ensures
            r@ == self.free_list(),
    {
        self.free_handles.as_slice()
    }

    /// Whether the free block at `i` can hold `need` bytes.
    fn fits_at(&self, i: usize, need: u32) -> (r: bool)
        requires
            self.wf(),
            i < self.free_list().len(),
        ensures
            r == fits(self.spec_heap(), self.free_list()[i as int], need as int),
    {
        let b = self.free_handles[i];
        assert(entry_ok(self.heap.cap(), b));
        let cap = self.heap.capacity();
        let sz = self.heap.size(b);
        sz >= need && sz % 16 == 0 && sz <= cap - b.0
    }

    /// Index of the first free block with room for `need` bytes.
    fn first_fit(&self, need: u32) -> (r: Option<usize>)
        requires
            self.wf(),
        ensures
            match r {
                Some(i) => chosen(self.spec_heap(), self.free_list(), need as int, FitPolicy::First, i as int),
                None => forall|j: int|
                    0 <= j < self.free_list().len() ==> !#[trigger] fits(self.spec_heap(), self.free_list()[j], need as int),
            },
    {
        let mut i: usize = 0;
        while i < self.free_handles.len()
            invariant
                self.wf(),
                i <= self.free_handles@.len(),
                forall|j: int| 0 <= j < i ==> !#[trigger] fits(self.heap, self.free_handles@[j], need as int),
            decreases self.free_handles@.len() - i,
        {
            if self.fits_at(i, need) {
                return Some(i);
            }
            i = i + 1;
        }
        None
    }

    /// Index of the *smallest* free block with room for `need` bytes, or
    /// `None` if no block is big enough. Ties go to the lowest address.
    fn best_fit(&self, need: u32) -> (r: Option<usize>)
        requires
            self.wf(),
        ensures
            match r {
                Some(i) => chosen(self.spec_heap(), self.free_list(), need as int, FitPolicy::Best, i as int),
                None => forall|j: int|
                    0 <= j < self.free_list().len() ==> !#[trigger] fits(self.spec_heap(), self.free_list()[j], need as int),
            },
    {
        let mut best: Option<usize> = None;
        let mut i: usize = 0;
        while i < self.free_handles.len()
            invariant
                self.wf(),
                i <= self.free_handles@.len(),
                match best {
                    Some(b) => b < i && fits(self.heap, self.free_handles@[b as int], need as int)
                        && (forall|j: int| 0 <= j < b ==> !#[trigger] fits(self.heap, self.free_handles@[j], need as int)
                            || self.heap.spec_size(self.free_handles@[j]) > self.heap.spec_size(self.free_handles@[b as int]))
                        && (forall|j: int| b < j < i && #[trigger] fits(self.heap, self.free_handles@[j], need as int)
                            ==> self.heap.spec_size(self.free_handles@[j]) >= self.heap.spec_size(self.free_handles@[b as int])),
                    None => forall|j: int| 0 <= j < i ==> !#[trigger] fits(self.heap, self.free_handles@[j], need as int),
                },
            decreases self.free_handles@.len() - i,
        {
            if self.fits_at(i, need) {
                assert(entry_ok(self.heap.cap(), self.free_handles@[i as int]));
                let sz = self.heap.size(self.free_handles[i]);
                match best {
                    None => {
                        best = Some(i);
                    },
                    Some(b) => {
                        assert(entry_ok(self.heap.cap(), self.free_handles@[b as int]));
                        if sz < self.heap.size(self.free_handles[b]) {
                            best = Some(i);
                        }
                    },
                }
            }
            i = i + 1;
        }
        best
    }

    /// Put `h` into the free list at its place in address order.
    fn insert_sorted(&mut self, h: Handle) -> (p: usize)
        requires
            old(self).wf(),
            entry_ok(old(self).spec_heap().cap(), h),
        ensures
            final(self).wf(),
            final(self).spec_heap() == old(self).spec_heap(),
            final(self).spec_bump() == old(self).spec_bump(),
            final(self).spec_used() == old(self).spec_used(),
            final(self).spec_stats() == old(self).spec_stats(),
            final(self).spec_policy() == old(self).spec_policy(),
            p <= old(self).free_list().len(),
            final(self).free_list() == old(self).free_list().insert(p as int, h),
    {
        let mut lo: usize = 0;
        let mut hi: usize = self.free_handles.len();
        while lo < hi
            invariant
                *self == *old(self),
                self.wf(),
                lo <= hi <= self.free_handles@.len(),
                forall|j: int| 0 <= j < lo ==> #[trigger] self.free_handles@[j].0 < h.0,
                forall|j: int| hi <= j < self.free_handles@.len() ==> #[trigger] self.free_handles@[j].0 >= h.0,
            decreases hi - lo,
        {
            let mid = lo + (hi - lo) / 2;
            if self.free_handles[mid].0 < h.0 {
                lo = mid + 1;
            } else {
                hi = mid;
            }
        }
        let ghost before = self.free_handles@;
        self.free_handles.insert(lo, h);
        assert(self.free_handles@ == before.insert(lo as int, h));

        assert(sorted_by_addr(self.free_handles@)) by {
            assert forall|i: int, j: int| 0 <= i < j < self.free_handles@.len() implies self.free_handles@[i].0
                <= self.free_handles@[j].0 by {
                if j < lo {
                } else if j == lo {
                } else if i < lo {
                    assert(before[j - 1].0 >= h.0);
                } else if i == lo {
                    assert(before[j - 1].0 >= h.0);
                } else {
                }
            }
        }
        assert forall|i: int| 0 <= i < self.free_handles@.len() implies #[trigger] entry_ok(
            self.heap.cap(),
            self.free_handles@[i],
        ) by {
            if i < lo {
                assert(self.free_handles@[i] == before[i]);
            } else if i > lo {
                assert(self.free_handles@[i] == before[i - 1]);
            }
        }
        lo
    }

    /// Carve `need` bytes off the front of never-used memory.
    fn take_from_virgin(&mut self, need: u32) -> (r: Option<u32>)
        requires
            old(self).wf(),
            need % 16 == 0,
        ensures
            final(self).wf(),
            final(self).spec_heap() == old(self).spec_heap(),
            final(self).free_list() == old(self).free_list(),
            final(self).spec_used() == old(self).spec_used(),
            final(self).spec_stats() == old(self).spec_stats(),
            final(self).spec_policy() == old(self).spec_policy(),
            match r {
                Some(at) => at == old(self).spec_bump() && final(self).spec_bump() == at + need,
                None => final(self).spec_bump() == old(self).spec_bump() && old(self).spec_bump()
                    + need > old(self).spec_heap().cap(),
            },
    {
        let remaining = self.capacity() - self.bump;
        if need <= remaining {
            let at = self.bump;
            self.bump = self.bump + need;
            Some(at)
        } else {
            None
        }
    }

    /// Find a free block big enough, remove it from the list, and split off
    /// whatever is left over.
    fn take_from_free_list(&mut self, need: u32) -> (r: Option<u32>)
        requires
            old(self).wf(),
            need % 16 == 0,
        ensures
            final(self).wf(),
            final(self).spec_bump() == old(self).spec_bump(),
            final(self).spec_used() == old(self).spec_used(),
            final(self).spec_policy() == old(self).spec_policy(),
            final(self).spec_heap().cap() == old(self).spec_heap().cap(),
            final(self).spec_stats().allocations == old(self).spec_stats().allocations,
            final(self).spec_stats().failures == old(self).spec_stats().failures,
            final(self).spec_stats().reused == old(self).spec_stats().reused,
            match r {
                Some(at) => exists|i: int|
                    chosen(old(self).spec_heap(), old(self).free_list(), need as int, old(self).spec_policy(), i)
                        && #[trigger] old(self).free_list()[i].0 == at && at % 16 == 0 && at + need
                        <= old(self).spec_heap().cap() && taken(
                        old(self).free_list(),
                        i,
                        rest_of(old(self).spec_heap(), old(self).free_list()[i], need as int),
                        final(self).free_list(),
                    ),
                None => *final(self) == *old(self) && forall|j: int|
                    0 <= j < old(self).free_list().len() ==> !#[trigger] fits(
                        old(self).spec_heap(),
                        old(self).free_list()[j],
                        need as int,
                    ),
            },
    {
        let found = match self.policy {
            FitPolicy::First => self.first_fit(need),
            FitPolicy::Best => self.best_fit(need),
        };
        let idx = match found {
            Some(i) => i,
            None => return None,
        };
        let ghost i0 = idx as int;
        assert(entry_ok(self.heap.cap(), self.free_handles@[i0]));
        let block = self.free_handles.remove(idx);
        proof {
            lemma_remove_keeps_order(old(self).free_handles@, i0, self.heap.cap());
        }
        let ghost fr = self.free_list();
        assert(fr == old(self).free_list().remove(i0));
        let block_size = self.heap.size(block);
        let remainder = block_size - need;
        if remainder > 0 {
            let split = self.heap.emplace_block(block.0 + need, remainder);
            let p = self.insert_sorted(split);
            assert(self.free_list() == old(self).free_list().remove(i0).insert(p as int, split));
            self.stats.splits = self.stats.splits.saturating_add(1);
            assert(split == Handle((old(self).free_list()[i0].0 + need) as u32));
            assert(old(self).spec_heap().spec_size(old(self).free_list()[i0]) > need);
            assert(rest_of(old(self).spec_heap(), old(self).free_list()[i0], need as int) == Some(split));
            assert(0 <= p < old(self).free_list().len());
            assert(old(self).free_list().remove(i0).insert(p as int, split) == self.free_list());
            assert(taken_at(old(self).free_list(), i0, Some(split), self.free_list(), p as int));
            assert(taken_at(
                old(self).free_list(),
                i0,
                rest_of(old(self).spec_heap(), old(self).free_list()[i0], need as int),
                self.free_list(),
                p as int,
            ));
        } else {
            assert(taken_at(
                old(self).free_list(),
                i0,
                rest_of(old(self).spec_heap(), old(self).free_list()[i0], need as int),
                self.free_list(),
                0,
            ));
        }
        Some(block.0)
    }

    /// Allocate an object with `nrefs` reference slots and `ndata` payload
    /// bytes, or `None` if no room can be found.
    ///
    /// The free list is tried first, under the allocator's fit policy; fresh
    /// memory past the bump pointer is used only when no free block fits.
    pub fn allocate(&mut self, nrefs: u16, ndata: u32) -> (r: Option<Handle>)
        requires
            old(self).wf(),
            16 + 4 * nrefs + ndata + 15 <= u32::MAX,
        ensures
            final(self).wf(),
            final(self).spec_heap().cap() == old(self).spec_heap().cap(),
            final(self).spec_policy() == old(self).spec_policy(),
            match r {
                Some(h) => {
                    &&& final(self).spec_heap().is_fresh(h, nrefs as int, ndata as int)
                    &&& final(self).spec_used() == sat_add32(
                        old(self).spec_used(),
                        spec_size_for(nrefs as int, ndata as int),
                    )
                    &&& ((exists|i: int|
                        chosen(
                            old(self).spec_heap(),
                            old(self).free_list(),
                            spec_size_for(nrefs as int, ndata as int),
                            old(self).spec_policy(),
                            i,
                        ) && #[trigger] old(self).free_list()[i] == h && final(self).spec_bump()
                            == old(self).spec_bump() && taken(
                            old(self).free_list(),
                            i,
                            rest_of(old(self).spec_heap(), h, spec_size_for(nrefs as int, ndata as int)),
                            final(self).free_list(),
                        )) || (h.0 == old(self).spec_bump() && final(self).free_list() == old(self).free_list()
                        && final(self).spec_bump() == old(self).spec_bump() + spec_size_for(
                        nrefs as int,
                        ndata as int,
                    ) && forall|j: int|
                        0 <= j < old(self).free_list().len() ==> !#[trigger] fits(
                            old(self).spec_heap(),
                            old(self).free_list()[j],
                            spec_size_for(nrefs as int, ndata as int),
                        )))
                },
                None => {
                    &&& final(self).spec_heap() == old(self).spec_heap()
                    &&& final(self).free_list() == old(self).free_list()
                    &&& final(self).spec_bump() == old(self).spec_bump()
                    &&& final(self).spec_used() == old(self).spec_used()
                    &&& old(self).spec_bump() + spec_size_for(nrefs as int, ndata as int)
                        > old(self).spec_heap().cap()
                    &&& forall|j: int|
                        0 <= j < old(self).free_list().len() ==> !#[trigger] fits(
                            old(self).spec_heap(),
                            old(self).free_list()[j],
                            spec_size_for(nrefs as int, ndata as int),
                        )
                },
            },
    {
        let need = Heap::size_for(nrefs, ndata);
        let at = match self.take_from_free_list(need) {
            Some(at) => {
                self.stats.reused = self.stats.reused.saturating_add(1);
                at
            },
            None => match self.take_from_virgin(need) {
                Some(at) => at,
                None => {
                    self.stats.failures = self.stats.failures.saturating_add(1);
                    return None;
                },
            },
        };
        let h = self.heap.emplace(at, nrefs, ndata);
        self.used = self.used.saturating_add(need);
        self.stats.allocations = self.stats.allocations.saturating_add(1);
        self.stats.bytes_allocated = self.stats.bytes_allocated.saturating_add(need as u64);
        Some(h)
    }

    /// `h` may be handed to [`Allocator::free`]: an aligned, well-sized,
    /// in-bounds block not already flagged free.
    pub open spec fn freeable(&self, h: Handle) -> bool {
        &&& h.0 % 16 == 0
        &&& self.spec_heap().hdr_in(h)
        &&& self.spec_heap().spec_size(h) >= 16
        &&& h.0 + self.spec_heap().spec_size(h) <= self.spec_heap().cap()
        &&& !self.spec_heap().spec_flag(h, FLAG_FREE)
    }

    /// Whether `h` may be handed to [`Allocator::free`].
    pub fn can_free(&self, h: Handle) -> (r: bool)
        requires
            self.wf(),
        ensures
            r == self.freeable(h),
    {
        let cap = self.heap.capacity();
        if h.0 % 16 != 0 || h.0 > cap - HEADER_SIZE {
            return false;
        }
        let size = self.heap.size(h);
        size >= HEADER_SIZE && size <= cap - h.0 && !self.heap.flag(h, FLAG_FREE)
    }

    /// Hand back an object. Its memory joins the free list, in address order;
    /// its payload is poisoned and its slot count cleared.
    pub fn free(&mut self, h: Handle)
        requires
            old(self).wf(),
            old(self).freeable(h),
        ensures
            final(self).wf(),
            exists|p: int|
                0 <= p <= old(self).free_list().len() && final(self).free_list() == old(self).free_list().insert(p, h),
            final(self).spec_bump() == old(self).spec_bump(),
            final(self).spec_used() == sat_sub32(
                old(self).spec_used(),
                old(self).spec_heap().spec_size(h),
            ),
            final(self).spec_heap().cap() == old(self).spec_heap().cap(),
            final(self).spec_heap().spec_size(h) == old(self).spec_heap().spec_size(h),
            final(self).spec_heap().spec_nrefs(h) == 0,
            final(self).spec_heap().spec_flag(h, FLAG_FREE),
            final(self).spec_heap().is_poisoned_payload(h),
    {
        let size = self.heap.size(h);
        self.heap.poison(h);
        self.heap.set_nrefs(h, 0);
        self.used = self.used.saturating_sub(size);
        self.stats.frees = self.stats.frees.saturating_add(1);
        self.stats.bytes_freed = self.stats.bytes_freed.saturating_add(size as u64);
        proof {
            crate::heap::lemma_flag_bits(old(self).heap.spec_flags(h), FLAG_FREE);
        }
        assert(self.free_handles@ == old(self).free_handles@);
        let p = self.insert_sorted(h);
        assert(0 <= p <= old(self).free_list().len() && self.free_handles@ == old(self).free_list().insert(p as int, h));
    }

    /// Whether the header of `a` describes a sane block.
    fn is_sane(&self, a: Handle) -> (r: bool)
        requires
            self.spec_heap().wf(),
            entry_ok(self.spec_heap().cap(), a),
        ensures
            r == sane(self.spec_heap(), a),
    {
        let cap32 = self.heap.capacity();
        let sz = self.heap.size(a);
        sz >= 16 && sz % 16 == 0 && sz <= cap32 - a.0
    }

    /// Merge every run of adjacent free blocks into a single larger block.
    ///
    /// Afterwards no two free blocks are adjacent. One merge is counted in
    /// [`AllocStats::merges`] for each pair of blocks joined.
    pub fn coalesce_all(&mut self)
        requires
            old(self).wf(),
        ensures
            final(self).wf(),
            strictly_sorted(final(self).free_list()),
            final(self).free_list().len() <= old(self).free_list().len(),
            final(self).spec_heap().cap() == old(self).spec_heap().cap(),
            final(self).spec_used() == old(self).spec_used(),
            final(self).spec_bump() == old(self).spec_bump(),
            final(self).spec_policy() == old(self).spec_policy(),
            forall|k: int|
                0 <= k < final(self).free_list().len() - 1 ==> !adjacent(
                    final(self).spec_heap(),
                    #[trigger] final(self).free_list()[k],
                    final(self).free_list()[k + 1],
                ),
            strictly_sorted(old(self).free_list()) && (forall|i: int|
                0 <= i < old(self).free_list().len() ==> sane(old(self).spec_heap(), #[trigger] old(self).free_list()[i]))
                ==> final(self).spec_stats().merges == sat_add(
                old(self).spec_stats().merges,
                (old(self).free_list().len() - final(self).free_list().len()) as u64,
            ),
    {
        let ghost cap = self.heap.cap();
        let ghost free0 = self.free_handles@;
        let ghost tidy = strictly_sorted(free0) && (forall|i: int|
            0 <= i < free0.len() ==> sane(self.heap, #[trigger] free0[i]));
        let mut merged: Vec<Handle> = Vec::new();
        let mut merges: u64 = 0;
        let mut k: usize = 0;
        let n = self.free_handles.len();
        while k < n
            invariant
                self.heap.wf(),
                cap == self.heap.cap(),
                n == free0.len(),
                k <= n,
                self.free_handles@ == free0,
                self.bump == old(self).bump,
                self.used == old(self).used,
                self.policy == old(self).policy,
                self.bump <= cap,
                self.bump % 16 == 0,
                forall|i: int| 0 <= i < free0.len() ==> #[trigger] entry_ok(cap, free0[i]),
                forall|i: int| 0 <= i < merged@.len() ==> #[trigger] entry_ok(cap, merged@[i]),
                strictly_sorted(merged@),
                merged@.len() <= k,
                merges + merged@.len() <= k,
                self.stats == old(self).stats,
                tidy == (strictly_sorted(free0) && (forall|i: int|
                    0 <= i < free0.len() ==> sane(old(self).heap, #[trigger] free0[i]))),
                tidy ==> merges + merged@.len() == k,
                tidy ==> forall|j: int| k <= j < n ==> sane(self.heap, #[trigger] free0[j]),
                tidy && merged@.len() > 0 ==> 0 < k && merged@.last().0 <= free0[k - 1].0,
                forall|i: int|
                    0 <= i < merged@.len() - 1 ==> !adjacent(self.heap, #[trigger] merged@[i], merged@[i + 1]),
            decreases n - k,
        {
            let block = self.free_handles[k];
            assert(entry_ok(cap, block));
            if merged.len() > 0 {
                let prev = merged[merged.len() - 1];
                assert(entry_ok(cap, prev));
                if block.0 <= prev.0 {
                    proof {
                        if tidy {
                            assert(prev == merged@.last());
                            assert(free0[k - 1].0 < free0[k as int].0);
                        }
                    }
                    k = k + 1;
                    continue;
                }
                if self.is_sane(prev) && prev.0 + self.heap.size(prev) == block.0 {
                    if self.is_sane(block) {
                        let ghost before = self.heap;
                        let ps = self.heap.size(prev);
                        let bs = self.heap.size(block);
                        self.heap.emplace_block(prev.0, ps + bs);
                        proof {
                            lemma_merge_keeps_apart(before, self.heap, merged@, prev);
                            if tidy {
                                assert forall|j: int| k + 1 <= j < n implies sane(self.heap, #[trigger] free0[j]) by {
                                    assert(free0[k as int].0 < free0[j].0);
                                    assert(entry_ok(cap, free0[j]));
                                    let x = free0[j].0 as int;
                                    assert(self.heap@[x] == before@[x] && self.heap@[x + 1] == before@[x + 1]
                                        && self.heap@[x + 2] == before@[x + 2] && self.heap@[x + 3] == before@[x + 3]);
                                    assert(sane(before, free0[j]));
                                }
                            }
                        }
                        merges = merges.saturating_add(1);
                    } else {
                        proof {
                            if tidy {
                                assert(sane(self.heap, free0[k as int]));
                            }
                        }
                    }
                    // A block whose own header is not sane cannot be merged
                    // and is not a usable hole, so it is not kept.
                    k = k + 1;
                    continue;
                }
            }
            merged.push(block);
            k = k + 1;
        }
        let ghost m = merges;
        let ghost kept = merged@.len();
        self.free_handles = merged;
        self.stats.merges = self.stats.merges.saturating_add(merges);
        proof {
            if strictly_sorted(old(self).free_list()) && (forall|i: int|
                0 <= i < old(self).free_list().len() ==> sane(old(self).spec_heap(), #[trigger] old(self).free_list()[i])) {
                assert(old(self).free_list() == free0);
                assert(tidy);
                assert(m + kept == n);
                assert(self.free_list().len() == kept);
                assert(self.spec_stats().merges == sat_add(old(self).spec_stats().merges, m));
            }
        }
    }

    /// Walk the heap and check that it is structurally sound.
    ///
    /// Succeeds exactly when `[0, bump)` is tiled by well-formed blocks and the
    /// free list lists exactly the blocks flagged free, in strictly ascending
    /// address order. It says nothing about the allocator's accounting.
    #[verifier::loop_isolation(false)]
    pub fn validate(&self) -> (r: Result<(), String>)
        requires
            self.wf(),
        ensures
            r is Ok <==> {
                let b = self.spec_heap()@;
                &&& tiles(b, 0, self.spec_bump())
                &&& self.free_list() == free_only(self.spec_heap(), walk_from(b, 0, self.spec_bump()))
                &&& strictly_sorted(self.free_list())
            },
    {
        let ghost b = self.heap@;
        let ghost end = self.bump as int;
        let mut walked: Vec<Handle> = Vec::new();
        let mut at: u32 = 0;
        let mut blocks: u64 = 0;
        let ghost mut prefix: Seq<Handle> = Seq::empty();
        while at < self.bump
            invariant
                self.wf(),
                b == self.heap@,
                end == self.bump,
                at <= self.bump,
                at % 16 == 0,
                tiles(b, 0, end) == tiles(b, at as int, end),
                walk_from(b, 0, end) == prefix + walk_from(b, at as int, end),
                walked@ == free_only(self.heap, prefix),
            decreases end - at,
        {
            let h = Handle(at);
            let size = self.heap.size(h);
            if size < HEADER_SIZE || size % 16 != 0 {
                assert(!tiles(b, at as int, end));
                let mut m = String::from_str("block ");
                push_num(&mut m, blocks);
                m.append(" at ");
                push_hex(&mut m, at as u64);
                m.append(" claims size ");
                push_num(&mut m, size as u64);
                m.append("; the walk cannot continue (sizes must be a non-zero multiple of 16)");
                return Err(m);
            }
            if size > self.bump - at {
                assert(!tiles(b, at as int, end));
                let mut m = String::from_str("block ");
                push_num(&mut m, blocks);
                m.append(" at ");
                push_hex(&mut m, at as u64);
                m.append(" claims size ");
                push_num(&mut m, size as u64);
                m.append(", which runs past the bump pointer at ");
                push_hex(&mut m, self.bump as u64);
                return Err(m);
            }
            let ghost pre = prefix;
            proof {
                prefix = prefix.push(h);
                assert(prefix.drop_last() =~= pre);
                reveal(Seq::filter);
                assert(walk_from(b, at as int, end) == seq![h] + walk_from(b, at + size, end));
                assert(pre + (seq![h] + walk_from(b, at + size, end)) =~= prefix + walk_from(
                    b,
                    at + size,
                    end,
                ));
            }
            if self.heap.flag(h, FLAG_FREE) {
                walked.push(h);
            }
            at = at + size;
            blocks = blocks.saturating_add(1);
        }
        assert(walk_from(b, end, end) =~= Seq::<Handle>::empty());
        assert(prefix =~= walk_from(b, 0, end));
        if self.free_handles.len() != walked.len() {
            return Err(self.free_list_mismatch(&walked));
        }
        let mut i: usize = 0;
        while i < walked.len()
            invariant
                self.wf(),
                i <= walked@.len(),
                walked@.len() == self.free_handles@.len(),
                forall|k: int| 0 <= k < i ==> self.free_handles@[k] == walked@[k],
                forall|a: int, c: int| 0 <= a < c < i ==> self.free_handles@[a].0 < self.free_handles@[c].0,
            decreases walked@.len() - i,
        {
            if self.free_handles[i].0 != walked[i].0 {
                return Err(self.free_list_mismatch(&walked));
            }
            if i > 0 && self.free_handles[i - 1].0 >= self.free_handles[i].0 {
                assert(!strictly_sorted(self.free_handles@));
                let mut m = String::from_str("the free list is not in address order: [");
                push_handle(&mut m, self.free_handles[i - 1]);
                m.append(", ");
                push_handle(&mut m, self.free_handles[i]);
                m.append("]");
                return Err(m);
            }
            assert forall|a: int, c: int| 0 <= a < c < i + 1 implies self.free_handles@[a].0
                < self.free_handles@[c].0 by {
                if c == i && a < i - 1 {
                    assert(self.free_handles@[a].0 <= self.free_handles@[i - 1].0);
                }
            }
            i = i + 1;
        }
        assert(self.free_handles@ =~= walked@);
        Ok(())
    }

    /// How the free list and the free blocks of the walk disagree.
    fn free_list_mismatch(&self, walked: &Vec<Handle>) -> String {
        let mut m = String::from_str("the free list holds ");
        push_num(&mut m, self.free_handles.len() as u64);
        m.append(" block(s) ");
        push_handles(&mut m, &self.free_handles);
        m.append(" but walking the heap finds ");
        push_num(&mut m, walked.len() as u64);
        m.append(" free block(s) ");
        push_handles(&mut m, walked);
        m
    }

    /// Total size of every non-free block found by walking the heap (pinned at
    /// `u32::MAX`).
    pub fn walk_live_bytes(&self) -> (r: u32)
        requires
            self.wf(),
            walk_ok(self.spec_heap()@, 0, self.spec_bump()),
        ensures
            r == if live_sum(self.spec_heap(), walk_from(self.spec_heap()@, 0, self.spec_bump()))
                > u32::MAX {
                u32::MAX as int
            } else {
                live_sum(self.spec_heap(), walk_from(self.spec_heap()@, 0, self.spec_bump()))
            },
    {
        let all = self.heap.walk(0, self.bump);
        let ghost w = all@;
        proof {
            crate::heap::lemma_walk_from_in(self.heap@, 0, self.bump as int);
        }
        let mut total: u64 = 0;
        let mut i: usize = 0;
        while i < all.len()
            invariant
                self.wf(),
                w == all@,
                w == walk_from(self.heap@, 0, self.bump as int),
                i <= w.len(),
                total == if live_sum(self.heap, w.subrange(0, i as int)) > u32::MAX {
                    u32::MAX as int
                } else {
                    live_sum(self.heap, w.subrange(0, i as int))
                },
                forall|k: int| 0 <= k < w.len() ==> #[trigger] self.heap.hdr_in(w[k]),
            decreases w.len() - i,
        {
            let h = all[i];
            assert(w.subrange(0, i + 1).drop_last() =~= w.subrange(0, i as int));
            if !self.heap.flag(h, FLAG_FREE) {
                let sz = self.heap.size(h) as u64;
                total = if total + sz > u32::MAX as u64 {
                    u32::MAX as u64
                } else {
                    total + sz
                };
            }
            i = i + 1;
        }
        assert(w.subrange(0, w.len() as int) =~= w);
        total as u32
    }

    /// Every live block, in address order.
    pub fn live_blocks(&self) -> (r: Vec<Handle>)
        requires
            self.wf(),
            walk_ok(self.spec_heap()@, 0, self.spec_bump()),
        ensures
            r@ == live_only(self.spec_heap(), walk_from(self.spec_heap()@, 0, self.spec_bump())),
    {
        let all = self.heap.walk(0, self.bump);
        let ghost w = all@;
        proof {
            crate::heap::lemma_walk_from_in(self.heap@, 0, self.bump as int);
        }
        let mut out: Vec<Handle> = Vec::new();
        let mut i: usize = 0;
        while i < all.len()
            invariant
                self.wf(),
                w == all@,
                w == walk_from(self.heap@, 0, self.bump as int),
                i <= w.len(),
                out@ == live_only(self.heap, w.subrange(0, i as int)),
                forall|k: int| 0 <= k < w.len() ==> #[trigger] self.heap.hdr_in(w[k]),
            decreases w.len() - i,
        {
            let h = all[i];
            proof {
                reveal(Seq::filter);
                assert(w.subrange(0, i + 1).drop_last() =~= w.subrange(0, i as int));
            }
            if !self.heap.flag(h, FLAG_FREE) {
                out.push(h);
            }
            i = i + 1;
        }
        assert(w.subrange(0, w.len() as int) =~= w);
        out
    }
}

} // verus!
