//! Candidate programs: deterministic mutators that stress a collector in
//! different ways.
//!
//! Every workload is written against [`Mutator`] only, so the same program
//! runs unchanged against every collector. Each returns a checksum computed by
//! reading data back out of the heap, so a collector that corrupts payloads or
//! loses objects fails loudly rather than quietly producing fast garbage.
//!
//! | workload        | what it punishes                                    |
//! |-----------------|-----------------------------------------------------|
//! | `binary_trees`  | high allocation rate, mostly short-lived objects     |
//! | `list_churn`    | steady garbage generation against a stable live set  |
//! | `cyclic_graph`  | anything that reclaims by counting references        |
//! | `fragmentation` | non-moving allocators faced with mixed object sizes  |
//! | `old_to_young`  | generational collectors without a correct barrier    |
//! | `deep_chain`    | recursive tracing, which overflows the native stack  |
//! | `shared_dag`    | copying collectors that duplicate shared subgraphs   |
//!
//! Workloads keep only a bounded number of roots live at a time, using
//! [`Mutator::dup`] and [`Mutator::assign`] to walk long structures the way a
//! compiler would allocate locals. Every workload leaves the shadow stack as
//! it found it, apart from the one slot a builder returns.

use crate::collector::Collector;
use crate::mutator::Mutator;
use crate::roots::RootSlot;
use vstd::prelude::*;

verus! {

/// One step of the xorshift64 state update.
pub open spec fn xorshift(x: u64) -> u64 {
    let a = x ^ (x >> 12u64);
    let b = a ^ (a << 25u64);
    b ^ (b >> 27u64)
}

/// xorshift64*, so every workload is reproducible from its seed.
pub struct Rng(u64);

impl Rng {
    /// The generator's state.
    pub closed spec fn state(&self) -> u64 {
        self.0
    }

    /// A generator seeded with `seed`; the all-zero state, from which
    /// xorshift never leaves, is replaced by a fixed odd constant.
    pub fn new(seed: u64) -> (r: Rng)
        ensures
            r.state() == if seed == 0 {
                0x9E37_79B9_7F4A_7C15u64
            } else {
                seed
            },
    {
        Rng(
            if seed == 0 {
                0x9E37_79B9_7F4A_7C15
            } else {
                seed
            },
        )
    }

    /// Advance the state and return the scrambled output.
    pub fn next_u64(&mut self) -> (r: u64)
        ensures
            final(self).state() == xorshift(old(self).state()),
            r == xorshift(old(self).state()).wrapping_mul(0x2545_F491_4F6C_DD1D),
    {
        let mut x = self.0;
        x ^= x >> 12;
        x ^= x << 25;
        x ^= x >> 27;
        self.0 = x;
        x.wrapping_mul(0x2545_F491_4F6C_DD1D)
    }

    /// Uniform-ish value in `[0, n)`; zero when `n` is zero.
    pub fn below(&mut self, n: u64) -> (r: u64)
        ensures
            n == 0 ==> r == 0 && final(self).state() == old(self).state(),
            n > 0 ==> final(self).state() == xorshift(old(self).state()) && r == xorshift(old(self).state()).wrapping_mul(
                0x2545_F491_4F6C_DD1D,
            ) % n,
            n > 0 ==> r < n,
    {
        if n == 0 {
            0
        } else {
            self.next_u64() % n
        }
    }
}

/// A node with `next`/`other` reference slots and one scalar word.
pub const NODE_REFS: u16 = 2;
/// Scalar payload of a node, in bytes.
pub const NODE_DATA: u32 = 8;

/// The shadow stack of `after` starts with the whole shadow stack of
/// `before`, and the mutator is still consistent.
pub open spec fn extends<C: Collector>(before: &Mutator<C>, after: &Mutator<C>) -> bool {
    &&& after.wf()
    &&& after.depth() >= before.depth()
    &&& after.spec_model().stack().subrange(0, before.depth()) == before.spec_model().stack()
}

/// The mutator is consistent and its shadow stack is back where it was.
pub open spec fn restores<C: Collector>(before: &Mutator<C>, after: &Mutator<C>) -> bool {
    &&& after.wf()
    &&& after.spec_model().stack() == before.spec_model().stack()
}

/// Build a perfectly balanced binary tree of the given depth and root it in
/// one new slot.
pub fn make_tree<C: Collector>(mu: &mut Mutator<C>, depth: u32) -> (r: RootSlot)
    requires
        old(mu).wf(),
    ensures
        extends(old(mu), final(mu)),
        final(mu).depth() == old(mu).depth() + 1,
        r.0 == old(mu).depth(),
    decreases depth,
{
    let ghost s0 = mu.spec_model().stack();
    let node = mu.allocate(NODE_REFS, NODE_DATA);
    mu.write_u64(node, 0, depth as u64 + 1);
    if depth > 0 {
        let top = mu.root_depth();
        let left = make_tree(mu, depth - 1);
        mu.store(node, 0, left);
        let right = make_tree(mu, depth - 1);
        mu.store(node, 1, right);
        assert(mu.spec_model().stack().subrange(0, top as int).subrange(0, node.0 as int)
            =~= mu.spec_model().stack().subrange(0, node.0 as int));
        mu.unwind(top);
    }
    assert(mu.spec_model().stack().subrange(0, node.0 as int) =~= s0);
    node
}

/// Sum the scalar word of every node of the tree in `root`, descending at
/// most `fuel` levels.
fn tree_sum<C: Collector>(mu: &mut Mutator<C>, root: RootSlot, fuel: usize) -> (r: u64)
    requires
        old(mu).wf(),
        root.0 < old(mu).depth(),
    ensures
        restores(old(mu), final(mu)),
    decreases fuel,
{
    let base = mu.root_depth();
    let mut sum = mu.read_u64(root, 0);
    if fuel == 0 {
        return sum;
    }
    let mut i: u16 = 0;
    while i < NODE_REFS
        invariant
            mu.wf(),
            base == old(mu).depth(),
            root.0 < base,
            mu.spec_model().stack() == old(mu).spec_model().stack(),
            fuel > 0,
        decreases NODE_REFS - i,
    {
        let child = mu.load(root, i);
        if !mu.is_null(child) {
            sum = sum.wrapping_add(tree_sum(mu, child, fuel - 1));
        }
        assert(mu.spec_model().stack().subrange(0, base as int) =~= old(mu).spec_model().stack());
        mu.unwind(base);
        i = i + 1;
    }
    sum
}

/// Sum the scalar word of every node in a tree.
///
/// The walk follows the mutator's own record of the graph, and descends no
/// further than that record has objects, which a finite tree never reaches.
pub fn check_tree<C: Collector>(mu: &mut Mutator<C>, root: RootSlot) -> (r: u64)
    requires
        old(mu).wf(),
        root.0 < old(mu).depth(),
    ensures
        restores(old(mu), final(mu)),
{
    let fuel = mu.model().table_size();
    tree_sum(mu, root, fuel)
}

/// The classic GCBench shape: one long-lived tree kept alive for the whole
/// run, plus a storm of short-lived trees at a range of depths.
pub fn binary_trees<C: Collector>(mu: &mut Mutator<C>, max_depth: u32) -> (r: u64)
    requires
        old(mu).wf(),
        max_depth < 32,
    ensures
        restores(old(mu), final(mu)),
{
    let base = mu.root_depth();
    let min_depth: u32 = if max_depth < 4 {
        max_depth
    } else {
        4
    };
    let mut checksum: u64 = 0;

    // Built, measured and dropped at once, to grow the heap before anything
    // long-lived is allocated.
    let stretch_depth = if min_depth + 1 < max_depth {
        min_depth + 1
    } else {
        max_depth
    };
    let stretch = make_tree(mu, stretch_depth);
    checksum = checksum.wrapping_add(check_tree(mu, stretch));
    mu.unwind(base);

    let long_lived = make_tree(mu, max_depth);
    mu.set_global("long_lived_tree", long_lived);
    mu.unwind(base);

    let mut depth = min_depth;
    while depth <= max_depth
        invariant
            mu.wf(),
            base == old(mu).depth(),
            mu.spec_model().stack() == old(mu).spec_model().stack(),
            min_depth <= depth <= max_depth + 2,
            min_depth <= 4,
            max_depth < 32,
        decreases max_depth + 2 - depth,
    {
        let iterations: u32 = 1u32 << (max_depth - depth + min_depth);
        let mut k: u32 = 0;
        while k < iterations
            invariant
                mu.wf(),
                base == old(mu).depth(),
                mu.spec_model().stack() == old(mu).spec_model().stack(),
            decreases iterations - k,
        {
            let t = make_tree(mu, depth);
            checksum = checksum.wrapping_add(check_tree(mu, t));
            mu.unwind(base);
            k = k + 1;
        }
        depth = depth + 2;
    }

    let lived = mu.global("long_lived_tree");
    checksum = checksum.wrapping_add(check_tree(mu, lived));
    assert(mu.spec_model().stack().subrange(0, base as int) =~= old(mu).spec_model().stack());
    mu.unwind(base);
    checksum
}

/// Build a singly linked list of `len` nodes carrying pseudorandom values,
/// rooted in one new slot.
pub fn build_list<C: Collector>(mu: &mut Mutator<C>, len: u32, rng: &mut Rng) -> (r: RootSlot)
    requires
        old(mu).wf(),
        len > 0,
    ensures
        extends(old(mu), final(mu)),
        final(mu).depth() == old(mu).depth() + 1,
        r.0 == old(mu).depth(),
{
    let ghost s0 = mu.spec_model().stack();
    let head = mu.allocate(NODE_REFS, NODE_DATA);
    let v = rng.next_u64();
    mu.write_u64(head, 0, v);
    let tail = mu.dup(head);
    let keep = mu.root_depth();
    let mut k: u32 = 1;
    while k < len
        invariant
            mu.wf(),
            head.0 == old(mu).depth(),
            tail.0 == head.0 + 1,
            keep == head.0 + 2,
            mu.depth() == keep,
            mu.spec_model().stack().subrange(0, head.0 as int) == s0,
        decreases len - k,
    {
        let node = mu.allocate(NODE_REFS, NODE_DATA);
        let v = rng.next_u64();
        mu.write_u64(node, 0, v);
        mu.store(tail, 0, node);
        mu.assign(tail, node);
        assert(mu.spec_model().stack().subrange(0, keep as int).subrange(0, head.0 as int)
            =~= mu.spec_model().stack().subrange(0, head.0 as int));
        mu.unwind(keep);
        k = k + 1;
    }
    assert(mu.spec_model().stack().subrange(0, tail.0 as int).subrange(0, head.0 as int)
        =~= mu.spec_model().stack().subrange(0, head.0 as int));
    mu.unwind(tail.0);
    head
}

/// Sum the scalar word of every node reachable along slot 0, following at
/// most `limit` links so that a cycle terminates.
pub fn walk_list<C: Collector>(mu: &mut Mutator<C>, head: RootSlot, limit: u32) -> (r: u64)
    requires
        old(mu).wf(),
        head.0 < old(mu).depth(),
    ensures
        restores(old(mu), final(mu)),
{
    let base = mu.root_depth();
    let cur = mu.dup(head);
    let keep = mu.root_depth();
    let mut sum: u64 = 0;
    let mut k: u32 = 0;
    while k < limit
        invariant
            mu.wf(),
            base == old(mu).depth(),
            cur.0 == base,
            keep == base + 1,
            mu.depth() == keep,
            mu.spec_model().stack().subrange(0, base as int) == old(mu).spec_model().stack(),
        decreases limit - k,
    {
        if mu.is_null(cur) {
            break;
        }
        sum = sum.wrapping_add(mu.read_u64(cur, 0));
        let next = mu.load(cur, 0);
        mu.assign(cur, next);
        assert(mu.spec_model().stack().subrange(0, keep as int).subrange(0, base as int)
            =~= mu.spec_model().stack().subrange(0, base as int));
        mu.unwind(keep);
        k = k + 1;
    }
    mu.unwind(base);
    sum
}

/// Slots in the long-lived array of [`list_churn`].
pub const CHURN_SLOTS: u16 = 8;

/// Repeatedly build a list, retaining every `keep_every`-th one in a
/// long-lived array. Steady garbage production against a live set of roughly
/// fixed size.
pub fn list_churn<C: Collector>(mu: &mut Mutator<C>, rounds: u32, len: u32, keep_every: u32, seed: u64) -> (r: u64)
    requires
        old(mu).wf(),
        rounds > 0 ==> len > 0,
    ensures
        restores(old(mu), final(mu)),
{
    let base = mu.root_depth();
    let mut rng = Rng::new(seed);

    let keeper = mu.allocate(CHURN_SLOTS, 0);
    mu.set_global("keeper", keeper);
    mu.unwind(base);

    let mut checksum: u64 = 0;
    let mut round: u32 = 0;
    while round < rounds
        invariant
            mu.wf(),
            base == old(mu).depth(),
            mu.spec_model().stack() == old(mu).spec_model().stack(),
            rounds > 0 ==> len > 0,
        decreases rounds - round,
    {
        let head = build_list(mu, len, &mut rng);
        checksum = checksum.wrapping_add(walk_list(mu, head, len));
        if keep_every > 0 && round % keep_every == 0 {
            let k = mu.global("keeper");
            mu.store(k, ((round / keep_every) % (CHURN_SLOTS as u32)) as u16, head);
        }
        assert(mu.spec_model().stack().subrange(0, base as int) =~= old(mu).spec_model().stack());
        mu.unwind(base);
        round = round + 1;
    }

    let k = mu.global("keeper");
    let top = mu.root_depth();
    let mut i: u16 = 0;
    while i < CHURN_SLOTS
        invariant
            mu.wf(),
            base == old(mu).depth(),
            k.0 == base,
            top == base + 1,
            mu.depth() == top,
            mu.spec_model().stack().subrange(0, base as int) == old(mu).spec_model().stack(),
        decreases CHURN_SLOTS - i,
    {
        let head = mu.load(k, i);
        if !mu.is_null(head) {
            checksum = checksum.wrapping_add(walk_list(mu, head, len));
        }
        assert(mu.spec_model().stack().subrange(0, top as int).subrange(0, base as int)
            =~= mu.spec_model().stack().subrange(0, base as int));
        mu.unwind(top);
        i = i + 1;
    }
    mu.unwind(base);
    checksum
}

/// A list long enough that tracing it with native recursion blows the
/// stack, bound to the global `deep_chain`.
pub fn deep_chain<C: Collector>(mu: &mut Mutator<C>, len: u32) -> (r: u64)
    requires
        old(mu).wf(),
        len > 0,
    ensures
        restores(old(mu), final(mu)),
{
    let base = mu.root_depth();
    let mut rng = Rng::new(0xDEE9);
    let head = build_list(mu, len, &mut rng);
    mu.set_global("deep_chain", head);
    mu.unwind(base);
    mu.collect();
    let head = mu.global("deep_chain");
    let sum = walk_list(mu, head, len);
    assert(mu.spec_model().stack().subrange(0, base as int) =~= old(mu).spec_model().stack());
    mu.unwind(base);
    sum
}

/// Build a ring of `n` nodes: each points at the next, the last at the first.
pub fn make_ring<C: Collector>(mu: &mut Mutator<C>, n: u32, rng: &mut Rng) -> (r: RootSlot)
    requires
        old(mu).wf(),
        n > 0,
    ensures
        extends(old(mu), final(mu)),
        final(mu).depth() == old(mu).depth() + 1,
        r.0 == old(mu).depth(),
{
    let ghost s0 = mu.spec_model().stack();
    let head = mu.allocate(NODE_REFS, NODE_DATA);
    let v = rng.next_u64();
    mu.write_u64(head, 0, v);
    let cur = mu.dup(head);
    let keep = mu.root_depth();
    let mut k: u32 = 1;
    while k < n
        invariant
            mu.wf(),
            head.0 == old(mu).depth(),
            cur.0 == head.0 + 1,
            keep == head.0 + 2,
            mu.depth() == keep,
            mu.spec_model().stack().subrange(0, head.0 as int) == s0,
        decreases n - k,
    {
        let node = mu.allocate(NODE_REFS, NODE_DATA);
        let v = rng.next_u64();
        mu.write_u64(node, 0, v);
        mu.store(cur, 0, node);
        mu.assign(cur, node);
        assert(mu.spec_model().stack().subrange(0, keep as int).subrange(0, head.0 as int)
            =~= mu.spec_model().stack().subrange(0, head.0 as int));
        mu.unwind(keep);
        k = k + 1;
    }
    mu.store(cur, 0, head);
    assert(mu.spec_model().stack().subrange(0, cur.0 as int).subrange(0, head.0 as int)
        =~= mu.spec_model().stack().subrange(0, head.0 as int));
    mu.unwind(cur.0);
    head
}

/// Build and immediately abandon rings. Nothing survives, but every node in
/// a ring is pointed at by another node in the same ring.
pub fn cyclic_graph<C: Collector>(mu: &mut Mutator<C>, rounds: u32, ring: u32, seed: u64) -> (r: u64)
    requires
        old(mu).wf(),
        rounds > 0 ==> ring > 0,
    ensures
        restores(old(mu), final(mu)),
{
    let base = mu.root_depth();
    let mut rng = Rng::new(seed);
    let mut checksum: u64 = 0;
    let mut round: u32 = 0;
    while round < rounds
        invariant
            mu.wf(),
            base == old(mu).depth(),
            mu.spec_model().stack() == old(mu).spec_model().stack(),
            rounds > 0 ==> ring > 0,
        decreases rounds - round,
    {
        let head = make_ring(mu, ring, &mut rng);
        checksum = checksum.wrapping_add(walk_list(mu, head, ring));
        assert(mu.spec_model().stack().subrange(0, base as int) =~= old(mu).spec_model().stack());
        mu.unwind(base);
        round = round + 1;
    }
    checksum
}

/// Payload sizes cycled through by [`fragmentation`], in bytes.
pub const FRAG_SIZES: [u32; 6] = [8, 24, 56, 120, 248, 504];

/// Overwrite random slots of a long-lived array with objects of varying
/// size.
///
/// A non-moving allocator ends up with a heap full of holes that are each
/// too small for the next request.
pub fn fragmentation<C: Collector>(mu: &mut Mutator<C>, rounds: u32, live: u16, seed: u64) -> (r: u64)
    requires
        old(mu).wf(),
    ensures
        restores(old(mu), final(mu)),
{
    let base = mu.root_depth();
    let mut rng = Rng::new(seed);

    let arr = mu.allocate(live, 0);
    mu.set_global("frag_array", arr);
    mu.unwind(base);

    let mut round: u32 = 0;
    while round < rounds
        invariant
            mu.wf(),
            base == old(mu).depth(),
            mu.spec_model().stack() == old(mu).spec_model().stack(),
        decreases rounds - round,
    {
        let a = mu.global("frag_array");
        let idx = rng.below(live as u64) as u16;
        let pick = rng.below(6) as usize;
        let extra = FRAG_SIZES[pick];
        let o = mu.allocate(0, extra);
        mu.write_u64(o, 0, round as u64);
        mu.store(a, idx, o);
        assert(mu.spec_model().stack().subrange(0, base as int) =~= old(mu).spec_model().stack());
        mu.unwind(base);
        round = round + 1;
    }

    let a = mu.global("frag_array");
    let top = mu.root_depth();
    let mut checksum: u64 = 0;
    let mut i: u16 = 0;
    while i < live
        invariant
            mu.wf(),
            base == old(mu).depth(),
            a.0 == base,
            top == base + 1,
            mu.depth() == top,
            mu.spec_model().stack().subrange(0, base as int) == old(mu).spec_model().stack(),
        decreases live - i,
    {
        let o = mu.load(a, i);
        if !mu.is_null(o) {
            checksum = checksum.wrapping_add(mu.read_u64(o, 0));
        }
        assert(mu.spec_model().stack().subrange(0, top as int).subrange(0, base as int)
            =~= mu.spec_model().stack().subrange(0, base as int));
        mu.unwind(top);
        i = i + 1;
    }
    mu.unwind(base);
    checksum
}

/// Age an array into the old generation, then repeatedly point its slots at
/// freshly allocated young objects.
///
/// Every one of those stores creates an old-to-young reference, which is
/// exactly the edge a minor collection cannot discover by tracing from roots.
pub fn old_to_young<C: Collector>(mu: &mut Mutator<C>, slots: u16, rounds: u32, seed: u64) -> (r: u64)
    requires
        old(mu).wf(),
        rounds > 0 ==> slots > 0,
    ensures
        restores(old(mu), final(mu)),
{
    let base = mu.root_depth();
    let mut rng = Rng::new(seed);

    let arr = mu.allocate(slots, 0);
    mu.set_global("old_array", arr);
    mu.unwind(base);

    // Give the array time to be promoted before any old-to-young store.
    let mut c: u32 = 0;
    while c < 3
        invariant
            mu.wf(),
            mu.spec_model().stack() == old(mu).spec_model().stack(),
        decreases 3 - c,
    {
        mu.collect();
        c = c + 1;
    }

    let mut round: u32 = 0;
    while round < rounds
        invariant
            mu.wf(),
            base == old(mu).depth(),
            mu.spec_model().stack() == old(mu).spec_model().stack(),
            rounds > 0 ==> slots > 0,
        decreases rounds - round,
    {
        let a = mu.global("old_array");
        let young = mu.allocate(NODE_REFS, NODE_DATA);
        let v = rng.next_u64();
        mu.write_u64(young, 0, v ^ round as u64);
        mu.store(a, (round % slots as u32) as u16, young);
        assert(mu.spec_model().stack().subrange(0, base as int) =~= old(mu).spec_model().stack());
        mu.unwind(base);
        round = round + 1;
    }

    let a = mu.global("old_array");
    let top = mu.root_depth();
    let mut checksum: u64 = 0;
    let mut i: u16 = 0;
    while i < slots
        invariant
            mu.wf(),
            base == old(mu).depth(),
            a.0 == base,
            top == base + 1,
            mu.depth() == top,
            mu.spec_model().stack().subrange(0, base as int) == old(mu).spec_model().stack(),
        decreases slots - i,
    {
        let o = mu.load(a, i);
        if !mu.is_null(o) {
            checksum = checksum.wrapping_add(mu.read_u64(o, 0));
        }
        assert(mu.spec_model().stack().subrange(0, top as int).subrange(0, base as int)
            =~= mu.spec_model().stack().subrange(0, base as int));
        mu.unwind(top);
        i = i + 1;
    }
    mu.unwind(base);
    checksum
}

/// Many parents sharing a small pool of children.
///
/// The graph is a DAG, not a tree: a collector that copies an object every
/// time it finds a reference to it will silently turn shared nodes into
/// independent duplicates.
pub fn shared_dag<C: Collector>(mu: &mut Mutator<C>, parents: u32, children: u16, seed: u64) -> (r: u64)
    requires
        old(mu).wf(),
    ensures
        restores(old(mu), final(mu)),
{
    let base = mu.root_depth();
    let mut rng = Rng::new(seed);

    let pool = mu.allocate(children, 0);
    mu.set_global("pool", pool);
    let mut i: u16 = 0;
    while i < children
        invariant
            mu.wf(),
            base == old(mu).depth(),
            mu.depth() == base + 1 || mu.depth() == base,
            mu.spec_model().stack().subrange(0, base as int) == old(mu).spec_model().stack(),
        decreases children - i,
    {
        let p = mu.global("pool");
        let child = mu.allocate(0, NODE_DATA);
        mu.write_u64(child, 0, i as u64 + 1);
        mu.store(p, i, child);
        assert(mu.spec_model().stack().subrange(0, base as int).subrange(0, base as int)
            =~= mu.spec_model().stack().subrange(0, base as int));
        mu.unwind(base);
        i = i + 1;
    }
    mu.unwind(base);

    let holder = mu.allocate(8, 0);
    mu.set_global("holder", holder);
    mu.unwind(base);

    let mut round: u32 = 0;
    while round < parents
        invariant
            mu.wf(),
            base == old(mu).depth(),
            mu.spec_model().stack() == old(mu).spec_model().stack(),
        decreases parents - round,
    {
        let p = mu.global("pool");
        let parent = mu.allocate(NODE_REFS, NODE_DATA);
        mu.write_u64(parent, 0, round as u64);
        let keep = mu.root_depth();
        let mut k: u16 = 0;
        while k < NODE_REFS
            invariant
                mu.wf(),
                base == old(mu).depth(),
                p.0 == base,
                parent.0 == base + 1,
                keep == base + 2,
                mu.depth() == keep,
                mu.spec_model().stack().subrange(0, base as int) == old(mu).spec_model().stack(),
            decreases NODE_REFS - k,
        {
            let idx = rng.below(children as u64) as u16;
            let child = mu.load(p, idx);
            mu.store(parent, k, child);
            assert(mu.spec_model().stack().subrange(0, keep as int).subrange(0, base as int)
                =~= mu.spec_model().stack().subrange(0, base as int));
            mu.unwind(keep);
            k = k + 1;
        }
        let h = mu.global("holder");
        mu.store(h, (round % 8) as u16, parent);
        assert(mu.spec_model().stack().subrange(0, base as int) =~= old(mu).spec_model().stack());
        mu.unwind(base);
        round = round + 1;
    }

    // Every child must still be a single object shared by its parents.
    let p = mu.global("pool");
    let top = mu.root_depth();
    let mut checksum: u64 = 0;
    let mut i: u16 = 0;
    while i < children
        invariant
            mu.wf(),
            base == old(mu).depth(),
            p.0 == base,
            top == base + 1,
            mu.depth() == top,
            mu.spec_model().stack().subrange(0, base as int) == old(mu).spec_model().stack(),
        decreases children - i,
    {
        let c = mu.load(p, i);
        if !mu.is_null(c) {
            checksum = checksum.wrapping_add(mu.read_u64(c, 0));
        }
        assert(mu.spec_model().stack().subrange(0, top as int).subrange(0, base as int)
            =~= mu.spec_model().stack().subrange(0, base as int));
        mu.unwind(top);
        i = i + 1;
    }
    mu.unwind(base);
    checksum
}

} // verus!
