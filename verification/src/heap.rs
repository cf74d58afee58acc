//! The raw heap: a flat byte arena addressed by 32-bit handles.
//!
//! Every object is laid out as a fixed 16-byte header followed by `nrefs`
//! 32-bit reference slots and then `ndata` bytes of scalar payload, the whole
//! padded up to a 16-byte boundary.
//!
//! ```text
//!  0      4     6     7     8         12        16          16+4*nrefs
//!  +------+-----+-----+-----+---------+---------+-----------+---------+
//!  | size |nrefs|flags|color|   fwd   |   rc    | ref slots |  data   |
//!  +------+-----+-----+-----+---------+---------+-----------+---------+
//! ```
//!
//! All multi-byte fields are little-endian. The heap places and copies
//! objects where a collector tells it to; it never decides where anything
//! goes.

use vstd::prelude::*;

verus! {

/// Bytes of header in front of every object.
pub const HEADER_SIZE: u32 = 16;
/// Every object begins on a multiple of this many bytes.
pub const ALIGN: u32 = 16;
/// Address reserved to mean "no object".
pub const NULL_ADDR: u32 = 0xFFFF_FFFF;

pub const OFF_SIZE: u32 = 0;
pub const OFF_NREFS: u32 = 4;
pub const OFF_FLAGS: u32 = 6;
pub const OFF_COLOR: u32 = 7;
pub const OFF_FWD: u32 = 8;
pub const OFF_RC: u32 = 12;

/// Set while an object is reachable during a tracing collection.
pub const FLAG_MARK: u8 = 1;
/// Set on objects that must not be moved by a relocating collector.
pub const FLAG_PINNED: u8 = 2;
/// General-purpose "already in some worklist" bit.
pub const FLAG_BUFFERED: u8 = 4;
/// Set on blocks that are on a free list rather than holding a live object.
pub const FLAG_FREE: u8 = 8;

pub const GEN_SHIFT: u8 = 4;
pub const GEN_MASK: u8 = 0x30;
pub const AGE_SHIFT: u8 = 6;
pub const AGE_MASK: u8 = 0xC0;

/// Tri-colour marking states.
pub const WHITE: u8 = 0;
pub const GREY: u8 = 1;
pub const BLACK: u8 = 2;

/// Byte pattern written over the payload of a reclaimed object.
pub const POISON: u8 = 0xDE;

/// A reference to a heap object: a byte offset into the arena.
#[derive(Clone, Copy, PartialEq, Eq, Structural, Hash, PartialOrd, Ord, Debug)]
pub struct Handle(pub u32);

impl Handle {
    /// The null handle, naming no object.
    pub fn null() -> (r: Handle)
        ensures
            r.0 == NULL_ADDR,
    {
        Handle(NULL_ADDR)
    }

    pub fn is_null(self) -> (r: bool)
        ensures
            r == (self.0 == NULL_ADDR),
    {
        self.0 == NULL_ADDR
    }

    pub fn addr(self) -> (r: u32)
        ensures
            r == self.0,
    {
        self.0
    }
}

/// `n` rounded up to the next multiple of sixteen.
pub open spec fn spec_align_up(n: int) -> int {
    (n + 15) / 16 * 16
}

/// Total footprint of an object with `nrefs` slots and `ndata` payload bytes.
pub open spec fn spec_size_for(nrefs: int, ndata: int) -> int {
    spec_align_up(16 + 4 * nrefs + ndata)
}

/// Round `n` up to the next multiple of [`ALIGN`].
pub fn align_up(n: u32) -> (r: u32)
    requires
        n + 15 <= u32::MAX,
    ensures
        r == spec_align_up(n as int),
        r >= n,
        r < n + 16,
        r % 16 == 0,
{
    (n + 15) / 16 * 16
}

/// Little-endian 16-bit value at byte offset `o`.
pub open spec fn le16(b: Seq<u8>, o: int) -> int {
    b[o] + 256 * b[o + 1]
}

/// Little-endian 32-bit value at byte offset `o`.
pub open spec fn le32(b: Seq<u8>, o: int) -> int {
    le16(b, o) + 65536 * le16(b, o + 2)
}

/// Little-endian 64-bit value at byte offset `o`.
pub open spec fn le64(b: Seq<u8>, o: int) -> int {
    le32(b, o) + 4294967296 * le32(b, o + 4)
}

/// `a` and `b` have the same length and agree everywhere outside `[lo, hi)`.
pub open spec fn same_outside(a: Seq<u8>, b: Seq<u8>, lo: int, hi: int) -> bool {
    &&& a.len() == b.len()
    &&& forall|i: int| 0 <= i < a.len() && !(lo <= i < hi) ==> #[trigger] a[i] == b[i]
}

/// A block header at `at` whose size is usable for a linear walk.
pub open spec fn block_ok(b: Seq<u8>, at: int) -> bool {
    &&& 0 <= at
    &&& at + 16 <= b.len()
    &&& le32(b, at) >= 16
    &&& le32(b, at) % 16 == 0
}

/// Every block met by a linear walk of `[at, end)` carries a usable size.
pub open spec fn walk_ok(b: Seq<u8>, at: int, end: int) -> bool
    decreases end - at,
{
    if at < 0 || at + 16 > end {
        true
    } else if le32(b, at) < 16 || !block_ok(b, at) || at + le32(b, at) > u32::MAX {
        false
    } else if at + le32(b, at) > end {
        true
    } else {
        walk_ok(b, at + le32(b, at), end)
    }
}

/// The blocks a linear walk of `[at, end)` meets, in address order.
pub open spec fn walk_from(b: Seq<u8>, at: int, end: int) -> Seq<Handle>
    decreases end - at,
{
    if at < 0 || at + 16 > end || le32(b, at) < 16 || !block_ok(b, at) {
        Seq::empty()
    } else if at + le32(b, at) > end {
        seq![Handle(at as u32)]
    } else {
        seq![Handle(at as u32)] + walk_from(b, at + le32(b, at), end)
    }
}

/// Every block a walk of `[at, end)` meets has its header inside `[at, end)`
/// and a usable size.
pub proof fn lemma_walk_from_in(b: Seq<u8>, at: int, end: int)
    requires
        end <= u32::MAX,
    ensures
        forall|k: int|
            0 <= k < walk_from(b, at, end).len() ==> {
                let h = #[trigger] walk_from(b, at, end)[k];
                &&& at <= h.0
                &&& h.0 + 16 <= end
                &&& block_ok(b, h.0 as int)
            },
    decreases end - at,
{
    if at < 0 || at + 16 > end || le32(b, at) < 16 || !block_ok(b, at) {
    } else if at + le32(b, at) > end {
    } else {
        lemma_walk_from_in(b, at + le32(b, at), end);
        let rest = walk_from(b, at + le32(b, at), end);
        assert forall|k: int| 0 <= k < walk_from(b, at, end).len() implies {
            let h = #[trigger] walk_from(b, at, end)[k];
            &&& at <= h.0
            &&& h.0 + 16 <= end
            &&& block_ok(b, h.0 as int)
        } by {
            if k > 0 {
                assert(walk_from(b, at, end)[k] == rest[k - 1]);
            }
        }
    }
}

/// Two distinct multiples of sixteen are at least sixteen apart.
pub proof fn lemma_align_gap(a: int, b: int)
    requires
        a % 16 == 0,
        b % 16 == 0,
        a < b,
    ensures
        a + 16 <= b,
{
}

/// A header outside a rewritten 16-byte header slot reads the same.
pub proof fn lemma_header_frame(b1: Seq<u8>, b2: Seq<u8>, at: int, x: int)
    requires
        same_outside(b2, b1, at, at + 16),
        x + 16 <= at || x >= at + 16,
        0 <= x,
        x + 16 <= b1.len(),
    ensures
        le32(b2, x) == le32(b1, x),
        le16(b2, x + 4) == le16(b1, x + 4),
        b2[x + 6] == b1[x + 6],
        b2[x + 7] == b1[x + 7],
        le32(b2, x + 8) == le32(b1, x + 8),
        le32(b2, x + 12) == le32(b1, x + 12),
{
    assert(b2[x] == b1[x]);
    assert(b2[x + 1] == b1[x + 1]);
    assert(b2[x + 2] == b1[x + 2]);
    assert(b2[x + 3] == b1[x + 3]);
    assert(b2[x + 4] == b1[x + 4]);
    assert(b2[x + 5] == b1[x + 5]);
    assert(b2[x + 6] == b1[x + 6]);
    assert(b2[x + 7] == b1[x + 7]);
    assert(b2[x + 8] == b1[x + 8]);
    assert(b2[x + 9] == b1[x + 9]);
    assert(b2[x + 10] == b1[x + 10]);
    assert(b2[x + 11] == b1[x + 11]);
    assert(b2[x + 12] == b1[x + 12]);
    assert(b2[x + 13] == b1[x + 13]);
    assert(b2[x + 14] == b1[x + 14]);
    assert(b2[x + 15] == b1[x + 15]);
}

proof fn lemma_le16_bytes(v: u16)
    ensures
        v == (v % 256) + 256 * (v / 256),
        v / 256 < 256,
{
}

proof fn lemma_le32_bytes(v: u32)
    ensures
        v == (v % 256) + 256 * ((v / 256) % 256) + 65536 * ((v / 65536) % 256) + 16777216 * (v
            / 16777216),
        v / 16777216 < 256,
{
}

proof fn lemma_le64_halves(v: u64)
    ensures
        v == (v % 4294967296) + 4294967296 * (v / 4294967296),
        v / 4294967296 < 4294967296,
{
}

/// Setting a bit makes it read back set; clearing it makes it read back
/// clear; either way no other bit of the byte changes.
pub proof fn lemma_flag_bits(f: u8, bit: u8)
    ensures
        bit != 0 ==> (f | bit) & bit != 0,
        (f & !bit) & bit == 0,
        forall|c: u8| c & bit == 0 ==> #[trigger] ((f | bit) & c) == f & c,
        forall|c: u8| c & bit == 0 ==> #[trigger] ((f & !bit) & c) == f & c,
{
    assert(bit != 0 ==> (f | bit) & bit != 0) by (bit_vector);
    assert((f & !bit) & bit == 0) by (bit_vector);
    assert forall|c: u8| c & bit == 0 implies #[trigger] ((f | bit) & c) == f & c by {
        assert(c & bit == 0 ==> ((f | bit) & c) == f & c) by (bit_vector);
    }
    assert forall|c: u8| c & bit == 0 implies #[trigger] ((f & !bit) & c) == f & c by {
        assert(c & bit == 0 ==> ((f & !bit) & c) == f & c) by (bit_vector);
    }
}

/// A flat byte arena.
pub struct Heap {
    bytes: Vec<u8>,
}

impl View for Heap {
    type V = Seq<u8>;

    closed spec fn view(&self) -> Seq<u8> {
        self.bytes@
    }
}

impl Heap {
    /// The arena's length is what construction demanded of it; every
    /// operation keeps it.
    pub open spec fn wf(&self) -> bool {
        &&& self.cap() >= 16
        &&& self.cap() < NULL_ADDR
        &&& self.cap() % 16 == 0
    }

    pub open spec fn cap(&self) -> int {
        self@.len() as int
    }

    /// The header of `h` lies inside the arena.
    pub open spec fn hdr_in(&self, h: Handle) -> bool {
        h.0 + 16 <= self.cap()
    }

    pub open spec fn spec_size(&self, h: Handle) -> int {
        le32(self@, h.0 as int)
    }

    pub open spec fn spec_nrefs(&self, h: Handle) -> int {
        le16(self@, h.0 + 4)
    }

    pub open spec fn spec_flags(&self, h: Handle) -> u8 {
        self@[h.0 + 6]
    }

    pub open spec fn spec_color(&self, h: Handle) -> u8 {
        self@[h.0 + 7]
    }

    pub open spec fn spec_fwd(&self, h: Handle) -> int {
        le32(self@, h.0 + 8)
    }

    pub open spec fn spec_rc(&self, h: Handle) -> int {
        le32(self@, h.0 + 12)
    }

    pub open spec fn spec_field(&self, h: Handle, i: int) -> int {
        le32(self@, h.0 + 16 + 4 * i)
    }

    pub open spec fn spec_flag(&self, h: Handle, bit: u8) -> bool {
        self.spec_flags(h) & bit != 0
    }

    /// All reference slots of `h` lie inside the arena.
    pub open spec fn fields_in(&self, h: Handle) -> bool {
        self.hdr_in(h) && h.0 + 16 + 4 * self.spec_nrefs(h) <= self.cap()
    }

    pub open spec fn spec_data_offset(&self, h: Handle) -> int {
        h.0 + 16 + 4 * self.spec_nrefs(h)
    }

    /// The payload of `h`, from the end of its slots to the end of its size,
    /// lies inside the arena.
    pub open spec fn data_in(&self, h: Handle) -> bool {
        &&& self.hdr_in(h)
        &&& self.spec_data_offset(h) <= h.0 + self.spec_size(h)
        &&& h.0 + self.spec_size(h) <= self.cap()
    }

    /// `len` bytes of payload at `off` lie inside the payload of `h`.
    pub open spec fn data_range_in(&self, h: Handle, off: int, len: int) -> bool {
        self.data_in(h) && self.spec_data_offset(h) + off + len <= h.0 + self.spec_size(h)
    }

    pub open spec fn spec_data_u64(&self, h: Handle, off: int) -> int {
        le64(self@, self.spec_data_offset(h) + off)
    }

    pub open spec fn spec_data_u32(&self, h: Handle, off: int) -> int {
        le32(self@, self.spec_data_offset(h) + off)
    }

    /// The non-null values of the reference slots of `h`, in slot order.
    pub open spec fn spec_children(&self, h: Handle) -> Seq<Handle>
        decreases self.spec_nrefs(h),
    {
        self.children_upto(h, self.spec_nrefs(h))
    }

    pub open spec fn children_upto(&self, h: Handle, n: int) -> Seq<Handle>
        decreases n,
    {
        if n <= 0 {
            Seq::empty()
        } else if self.spec_field(h, n - 1) == NULL_ADDR {
            self.children_upto(h, n - 1)
        } else {
            self.children_upto(h, n - 1).push(Handle(self.spec_field(h, n - 1) as u32))
        }
    }

    /// `h` addresses a plausibly-shaped object inside the arena.
    pub open spec fn spec_in_bounds(&self, h: Handle) -> bool {
        &&& h.0 != NULL_ADDR
        &&& h.0 % 16 == 0
        &&& h.0 + 16 <= self.cap()
        &&& self.spec_size(h) >= 16
        &&& self.spec_size(h) % 16 == 0
        &&& h.0 + self.spec_size(h) <= self.cap()
    }

    /// `h` is a newly placed object of the given shape: aligned, with the
    /// right size and slot count, no forwarding address, a zero count, every
    /// slot null and the payload zeroed. Its flags and colour are whatever
    /// the collector that placed it chose.
    pub open spec fn is_blank(&self, h: Handle, nrefs: int, ndata: int) -> bool {
        &&& h.0 % 16 == 0
        &&& h.0 + spec_size_for(nrefs, ndata) <= self.cap()
        &&& self.spec_size(h) == spec_size_for(nrefs, ndata)
        &&& self.spec_nrefs(h) == nrefs
        &&& self.spec_fwd(h) == NULL_ADDR
        &&& self.spec_rc(h) == 0
        &&& forall|k: int| 0 <= k < nrefs ==> #[trigger] self.spec_field(h, k) == NULL_ADDR
        &&& forall|j: int|
            h.0 + 16 + 4 * nrefs <= j < h.0 + spec_size_for(nrefs, ndata) ==> #[trigger] self@[j]
                == 0
    }

    /// Changing the flags or the colour of a blank object leaves it blank.
    pub proof fn lemma_blank_keeps(&self, after: Heap, h: Handle, nrefs: int, ndata: int, at: int, v: u8)
        requires
            self.is_blank(h, nrefs, ndata),
            0 <= nrefs,
            0 <= ndata,
            at == h.0 + 6 || at == h.0 + 7,
            after@ == self@.update(at, v),
        ensures
            after.is_blank(h, nrefs, ndata),
    {
        let n = 16 + 4 * nrefs + ndata;
        assert((n + 15) / 16 * 16 >= n) by (nonlinear_arith)
            requires
                n >= 0,
        ;
        assert(h.0 + 16 + 4 * nrefs <= self.cap());
        assert forall|k: int| 0 <= k < nrefs implies #[trigger] after.spec_field(h, k) == NULL_ADDR by {
            assert(self.spec_field(h, k) == NULL_ADDR);
        }
        assert forall|j: int|
            h.0 + 16 + 4 * nrefs <= j < h.0 + spec_size_for(nrefs, ndata) implies #[trigger] after@[j]
                == 0 by {
            assert(self@[j] == 0);
        }
    }

    /// `h` is a freshly placed object of the given shape: blank, white and
    /// unflagged.
    pub open spec fn is_fresh(&self, h: Handle, nrefs: int, ndata: int) -> bool {
        &&& self.is_blank(h, nrefs, ndata)
        &&& self.spec_flags(h) == 0
        &&& self.spec_color(h) == WHITE
    }

    /// Every payload byte of `h` reads [`POISON`].
    pub open spec fn is_poisoned_payload(&self, h: Handle) -> bool {
        forall|j: int| h.0 + 16 <= j < h.0 + self.spec_size(h) ==> #[trigger] self@[j] == POISON
    }

    /// Create an arena of exactly `capacity` bytes, zero-filled.
    pub fn new(capacity: usize) -> (r: Heap)
        requires
            capacity >= 16,
            capacity < NULL_ADDR,
            capacity % 16 == 0,
        ensures
            r@ == Seq::new(capacity as nat, |i: int| 0u8),
    {
        let bytes = vec![0u8; capacity];
        Heap { bytes }
    }

    /// Total bytes in the arena.
    pub fn capacity(&self) -> (r: u32)
        requires
            self.wf(),
        ensures
            r == self.cap(),
            r % 16 == 0,
            r >= 16,
    {
        self.bytes.len() as u32
    }

    /// Total footprint, in bytes, of an object with this shape.
    pub fn size_for(nrefs: u16, ndata: u32) -> (r: u32)
        requires
            16 + 4 * nrefs + ndata + 15 <= u32::MAX,
        ensures
            r == spec_size_for(nrefs as int, ndata as int),
            r >= 16 + 4 * nrefs + ndata,
            r % 16 == 0,
    {
        align_up(HEADER_SIZE + 4 * nrefs as u32 + ndata)
    }

    // ---- raw little-endian access ----------------------------------------
    fn u16_at(&self, off: u32) -> (r: u16)
        requires
            self.wf(),
            off + 2 <= self.cap(),
        ensures
            r == le16(self@, off as int),
    {
        let o = off as usize;
        let b0 = self.bytes[o] as u16;
        let b1 = self.bytes[o + 1] as u16;
        b0 + b1 * 256
    }

    fn u32_at(&self, off: u32) -> (r: u32)
        requires
            self.wf(),
            off + 4 <= self.cap(),
        ensures
            r == le32(self@, off as int),
    {
        let o = off as usize;
        let b0 = self.bytes[o] as u32;
        let b1 = self.bytes[o + 1] as u32;
        let b2 = self.bytes[o + 2] as u32;
        let b3 = self.bytes[o + 3] as u32;
        b0 + b1 * 256 + b2 * 65536 + b3 * 16777216
    }

    fn set_byte(&mut self, off: u32, v: u8)
        requires
            old(self).wf(),
            off < old(self).cap(),
        ensures
            final(self)@ == old(self)@.update(off as int, v),
    {
        self.bytes.set(off as usize, v);
    }

    fn set_u16(&mut self, off: u32, v: u16)
        requires
            old(self).wf(),
            off + 2 <= old(self).cap(),
        ensures
            same_outside(final(self)@, old(self)@, off as int, off + 2),
            le16(final(self)@, off as int) == v,
    {
        proof {
            lemma_le16_bytes(v);
        }
        self.set_byte(off, (v % 256) as u8);
        self.set_byte(off + 1, (v / 256) as u8);
    }

    fn set_u32(&mut self, off: u32, v: u32)
        requires
            old(self).wf(),
            off + 4 <= old(self).cap(),
        ensures
            same_outside(final(self)@, old(self)@, off as int, off + 4),
            le32(final(self)@, off as int) == v,
    {
        proof {
            lemma_le32_bytes(v);
        }
        self.set_byte(off, (v % 256) as u8);
        self.set_byte(off + 1, ((v / 256) % 256) as u8);
        self.set_byte(off + 2, ((v / 65536) % 256) as u8);
        self.set_byte(off + 3, (v / 16777216) as u8);
    }

    /// Fill `[from, to)` with `v`.
    fn fill(&mut self, from: u32, to: u32, v: u8)
        requires
            old(self).wf(),
            from <= to <= old(self).cap(),
        ensures
            same_outside(final(self)@, old(self)@, from as int, to as int),
            forall|j: int| from <= j < to ==> #[trigger] final(self)@[j] == v,
    {
        let mut i = from;
        while i < to
            invariant
                self.wf(),
                from <= i <= to <= self.cap(),
                same_outside(self@, old(self)@, from as int, to as int),
                forall|j: int| from <= j < i ==> #[trigger] self@[j] == v,
            decreases to - i,
        {
            self.set_byte(i, v);
            i = i + 1;
        }
    }

    /// Write a fresh object header at `at` and null out its reference slots.
    ///
    /// This is placement only: the caller has already decided that the bytes
    /// at `at` are free. Everything in the object's footprint is zeroed first.
    pub fn emplace(&mut self, at: u32, nrefs: u16, ndata: u32) -> (r: Handle)
        requires
            old(self).wf(),
            16 + 4 * nrefs + ndata + 15 <= u32::MAX,
            at % 16 == 0,
            at + spec_size_for(nrefs as int, ndata as int) <= old(self).cap(),
        ensures
            r == Handle(at),
            same_outside(
                final(self)@,
                old(self)@,
                at as int,
                at + spec_size_for(nrefs as int, ndata as int),
            ),
            final(self).spec_size(r) == spec_size_for(nrefs as int, ndata as int),
            final(self).spec_nrefs(r) == nrefs,
            final(self).spec_flags(r) == 0,
            final(self).spec_color(r) == WHITE,
            final(self).spec_fwd(r) == NULL_ADDR,
            final(self).spec_rc(r) == 0,
            forall|k: int| 0 <= k < nrefs ==> #[trigger] final(self).spec_field(r, k) == NULL_ADDR,
            forall|j: int|
                at + 16 + 4 * nrefs <= j < at + spec_size_for(nrefs as int, ndata as int)
                    ==> #[trigger] final(self)@[j] == 0,
            final(self).is_fresh(r, nrefs as int, ndata as int),
    {
        let size = Self::size_for(nrefs, ndata);
        self.fill(at, at + size, 0);
        let ghost zeroed = self@;
        self.set_u32(at + OFF_SIZE, size);
        self.set_u16(at + OFF_NREFS, nrefs);
        self.set_byte(at + OFF_FLAGS, 0);
        self.set_byte(at + OFF_COLOR, WHITE);
        self.set_u32(at + OFF_FWD, NULL_ADDR);
        self.set_u32(at + OFF_RC, 0);
        let ghost headed = self@;
        assert(same_outside(headed, zeroed, at as int, at + 16));
        let mut i: u16 = 0;
        while i < nrefs
            invariant
                self.wf(),
                i <= nrefs,
                at + size <= self.cap(),
                size == spec_size_for(nrefs as int, ndata as int),
                size >= 16 + 4 * nrefs,
                same_outside(self@, headed, at + 16, at + 16 + 4 * i),
                same_outside(headed, old(self)@, at as int, at + size),
                forall|k: int| 0 <= k < i ==> #[trigger] le32(self@, at + 16 + 4 * k) == NULL_ADDR,
            decreases nrefs - i,
        {
            let ghost before = self@;
            self.set_u32(at + HEADER_SIZE + 4 * i as u32, NULL_ADDR);
            assert forall|k: int| 0 <= k < i + 1 implies #[trigger] le32(
                self@,
                at + 16 + 4 * k,
            ) == NULL_ADDR by {
                if k < i {
                    assert(le32(before, at + 16 + 4 * k) == NULL_ADDR);
                }
            }
            i = i + 1;
        }
        Handle(at)
    }

    /// Write a header describing a free block of exactly `size` bytes.
    pub fn emplace_block(&mut self, at: u32, size: u32) -> (r: Handle)
        requires
            old(self).wf(),
            at % 16 == 0,
            size >= 16,
            size % 16 == 0,
            at + size <= old(self).cap(),
        ensures
            r == Handle(at),
            same_outside(final(self)@, old(self)@, at as int, at + 16),
            final(self).spec_size(r) == size,
            final(self).spec_nrefs(r) == 0,
            final(self).spec_flags(r) == FLAG_FREE,
            final(self).spec_color(r) == WHITE,
            final(self).spec_fwd(r) == NULL_ADDR,
            final(self).spec_rc(r) == 0,
    {
        self.set_u32(at + OFF_SIZE, size);
        self.set_u16(at + OFF_NREFS, 0);
        self.set_byte(at + OFF_FLAGS, FLAG_FREE);
        self.set_byte(at + OFF_COLOR, WHITE);
        self.set_u32(at + OFF_FWD, NULL_ADDR);
        self.set_u32(at + OFF_RC, 0);
        Handle(at)
    }

    /// Copy an object's bytes to `to`, returning a handle to the copy.
    ///
    /// Source and destination ranges may overlap, which is the normal case for
    /// a sliding compactor.
    pub fn relocate(&mut self, from: Handle, to: u32) -> (r: Handle)
        requires
            old(self).wf(),
            old(self).hdr_in(from),
            from.0 + old(self).spec_size(from) <= old(self).cap(),
            to % 16 == 0,
            to + old(self).spec_size(from) <= old(self).cap(),
        ensures
            r == Handle(to),
            same_outside(final(self)@, old(self)@, to as int, to + old(self).spec_size(from)),
            forall|j: int|
                0 <= j < old(self).spec_size(from) ==> #[trigger] final(self)@[to + j] == old(self)@[from.0 + j],
    {
        let size = self.size(from);
        let f = from.0;
        if to <= f {
            let mut i: u32 = 0;
            while i < size
                invariant
                    self.wf(),
                    to <= f,
                    f + size <= self.cap(),
                    to + size <= self.cap(),
                    i <= size,
                    same_outside(self@, old(self)@, to as int, to + i),
                    forall|j: int| 0 <= j < i ==> #[trigger] self@[to + j] == old(self)@[f + j],
                decreases size - i,
            {
                let b = self.bytes[(f + i) as usize];
                self.set_byte(to + i, b);
                i = i + 1;
            }
        } else {
            let mut i: u32 = size;
            while i > 0
                invariant
                    self.wf(),
                    to > f,
                    f + size <= self.cap(),
                    to + size <= self.cap(),
                    i <= size,
                    same_outside(self@, old(self)@, to + i, to + size),
                    forall|j: int| i <= j < size ==> #[trigger] self@[to + j] == old(self)@[f + j],
                decreases i,
            {
                let b = self.bytes[(f + i - 1) as usize];
                self.set_byte(to + i - 1, b);
                i = i - 1;
            }
        }
        Handle(to)
    }

    /// Overwrite an object's payload with [`POISON`] and flag it free.
    ///
    /// The header is left intact, apart from the free flag, so that a linear
    /// sweep of the heap can still find the following object.
    pub fn poison(&mut self, h: Handle)
        requires
            old(self).wf(),
            old(self).hdr_in(h),
            old(self).spec_size(h) >= 16,
            h.0 + old(self).spec_size(h) <= old(self).cap(),
        ensures
            same_outside(final(self)@, old(self)@, h.0 + 6, h.0 + old(self).spec_size(h)),
            forall|j: int| h.0 + 6 < j < h.0 + 16 ==> #[trigger] final(self)@[j] == old(self)@[j],
            final(self).spec_flags(h) == old(self).spec_flags(h) | FLAG_FREE,
            forall|j: int|
                h.0 + 16 <= j < h.0 + old(self).spec_size(h) ==> #[trigger] final(self)@[j]
                    == POISON,
    {
        let start = h.0 + HEADER_SIZE;
        let end = h.0 + self.size(h);
        self.fill(start, end, POISON);
        self.set_flag(h, FLAG_FREE, true);
    }

    /// True if the payload of `h` is entirely [`POISON`].
    pub fn is_poisoned(&self, h: Handle) -> (r: bool)
        requires
            self.wf(),
            self.hdr_in(h),
            h.0 + self.spec_size(h) <= self.cap(),
        ensures
            r == (self.spec_size(h) > 16 && forall|j: int|
                h.0 + 16 <= j < h.0 + self.spec_size(h) ==> #[trigger] self@[j] == POISON),
    {
        let start = h.0 + HEADER_SIZE;
        let end = h.0 + self.size(h);
        if end <= start {
            return false;
        }
        let mut i = start;
        while i < end
            invariant
                self.wf(),
                start <= i <= end <= self.cap(),
                start == h.0 + 16,
                end == h.0 + self.spec_size(h),
                forall|j: int| start <= j < i ==> #[trigger] self@[j] == POISON,
            decreases end - i,
        {
            if self.bytes[i as usize] != POISON {
                return false;
            }
            i = i + 1;
        }
        true
    }

    // ---- linear traversal -------------------------------------------------
    /// The objects laid out contiguously in `[from, to)`, in address order.
    ///
    /// Every block met must carry a valid size in its header.
    pub fn walk(&self, from: u32, to: u32) -> (r: Vec<Handle>)
        requires
            self.wf(),
            to <= self.cap(),
            walk_ok(self@, from as int, to as int),
        ensures
            r@ == walk_from(self@, from as int, to as int),
    {
        let mut out: Vec<Handle> = Vec::new();
        let mut at = from;
        while at <= to && to - at >= HEADER_SIZE
            invariant
                self.wf(),
                to <= self.cap(),
                walk_ok(self@, at as int, to as int),
                out@ + walk_from(self@, at as int, to as int) == walk_from(
                    self@,
                    from as int,
                    to as int,
                ),
            decreases u32::MAX - at,
        {
            let h = Handle(at);
            let size = self.size(h);
            let ghost rest = walk_from(self@, at as int, to as int);
            let ghost prev = out@;
            out.push(h);
            at = at + size;
            proof {
                assert(out@ + walk_from(self@, at as int, to as int) =~= prev + rest);
            }
        }
        out
    }

    // ---- header accessors -------------------------------------------------
    /// Total size of the object in bytes, header included.
    pub fn size(&self, h: Handle) -> (r: u32)
        requires
            self.wf(),
            self.hdr_in(h),
        ensures
            r == self.spec_size(h),
    {
        self.u32_at(h.0 + OFF_SIZE)
    }

    pub fn set_size(&mut self, h: Handle, size: u32)
        requires
            old(self).wf(),
            old(self).hdr_in(h),
        ensures
            same_outside(final(self)@, old(self)@, h.0 as int, h.0 + 4),
            final(self).spec_size(h) == size,
    {
        self.set_u32(h.0 + OFF_SIZE, size);
    }

    /// Number of reference slots in the object.
    pub fn nrefs(&self, h: Handle) -> (r: u16)
        requires
            self.wf(),
            self.hdr_in(h),
        ensures
            r == self.spec_nrefs(h),
    {
        self.u16_at(h.0 + OFF_NREFS)
    }

    pub fn set_nrefs(&mut self, h: Handle, n: u16)
        requires
            old(self).wf(),
            old(self).hdr_in(h),
        ensures
            same_outside(final(self)@, old(self)@, h.0 + 4, h.0 + 6),
            final(self).spec_nrefs(h) == n,
    {
        self.set_u16(h.0 + OFF_NREFS, n);
    }

    pub fn flags(&self, h: Handle) -> (r: u8)
        requires
            self.wf(),
            self.hdr_in(h),
        ensures
            r == self.spec_flags(h),
    {
        self.bytes[(h.0 + OFF_FLAGS) as usize]
    }

    pub fn set_flags(&mut self, h: Handle, f: u8)
        requires
            old(self).wf(),
            old(self).hdr_in(h),
        ensures
            final(self)@ == old(self)@.update(h.0 + 6, f),
    {
        self.set_byte(h.0 + OFF_FLAGS, f);
    }

    pub fn flag(&self, h: Handle, bit: u8) -> (r: bool)
        requires
            self.wf(),
            self.hdr_in(h),
        ensures
            r == self.spec_flag(h, bit),
    {
        self.flags(h) & bit != 0
    }

    pub fn set_flag(&mut self, h: Handle, bit: u8, on: bool)
        requires
            old(self).wf(),
            old(self).hdr_in(h),
        ensures
            final(self)@ == old(self)@.update(
                h.0 + 6,
                if on {
                    old(self).spec_flags(h) | bit
                } else {
                    old(self).spec_flags(h) & !bit
                },
            ),
    {
        let f = self.flags(h);
        self.set_flags(
            h,
            if on {
                f | bit
            } else {
                f & !bit
            },
        );
    }

    pub fn is_marked(&self, h: Handle) -> (r: bool)
        requires
            self.wf(),
            self.hdr_in(h),
        ensures
            r == self.spec_flag(h, FLAG_MARK),
    {
        self.flag(h, FLAG_MARK)
    }

    pub fn set_marked(&mut self, h: Handle, on: bool)
        requires
            old(self).wf(),
            old(self).hdr_in(h),
        ensures
            final(self)@ == old(self)@.update(
                h.0 + 6,
                if on {
                    old(self).spec_flags(h) | FLAG_MARK
                } else {
                    old(self).spec_flags(h) & !FLAG_MARK
                },
            ),
            final(self).spec_flag(h, FLAG_MARK) == on,
    {
        proof {
            lemma_flag_bits(self.spec_flags(h), FLAG_MARK);
        }
        self.set_flag(h, FLAG_MARK, on);
    }

    /// Tri-colour state: [`WHITE`], [`GREY`] or [`BLACK`].
    pub fn color(&self, h: Handle) -> (r: u8)
        requires
            self.wf(),
            self.hdr_in(h),
        ensures
            r == self.spec_color(h),
    {
        self.bytes[(h.0 + OFF_COLOR) as usize]
    }

    pub fn set_color(&mut self, h: Handle, c: u8)
        requires
            old(self).wf(),
            old(self).hdr_in(h),
        ensures
            final(self)@ == old(self)@.update(h.0 + 7, c),
    {
        self.set_byte(h.0 + OFF_COLOR, c);
    }

    /// Generation number of `h`, 0..=3.
    pub open spec fn spec_generation(&self, h: Handle) -> u8 {
        (self.spec_flags(h) & GEN_MASK) >> GEN_SHIFT
    }

    /// Generation number, 0..=3.
    pub fn generation(&self, h: Handle) -> (r: u8)
        requires
            self.wf(),
            self.hdr_in(h),
        ensures
            r == self.spec_generation(h),
    {
        (self.flags(h) & GEN_MASK) >> GEN_SHIFT
    }

    pub fn set_generation(&mut self, h: Handle, g: u8)
        requires
            old(self).wf(),
            old(self).hdr_in(h),
        ensures
            final(self)@ == old(self)@.update(
                h.0 + 6,
                (old(self).spec_flags(h) & !GEN_MASK) | ((g << GEN_SHIFT) & GEN_MASK),
            ),
    {
        let f = (self.flags(h) & !GEN_MASK) | ((g << GEN_SHIFT) & GEN_MASK);
        self.set_flags(h, f);
    }

    /// Survival count, 0..=3.
    pub fn age(&self, h: Handle) -> (r: u8)
        requires
            self.wf(),
            self.hdr_in(h),
        ensures
            r == (self.spec_flags(h) & AGE_MASK) >> AGE_SHIFT,
    {
        (self.flags(h) & AGE_MASK) >> AGE_SHIFT
    }

    pub fn set_age(&mut self, h: Handle, a: u8)
        requires
            old(self).wf(),
            old(self).hdr_in(h),
        ensures
            final(self)@ == old(self)@.update(
                h.0 + 6,
                (old(self).spec_flags(h) & !AGE_MASK) | ((a << AGE_SHIFT) & AGE_MASK),
            ),
    {
        let f = (self.flags(h) & !AGE_MASK) | ((a << AGE_SHIFT) & AGE_MASK);
        self.set_flags(h, f);
    }

    /// Forwarding address left behind by a relocating collector, if any.
    pub fn forward(&self, h: Handle) -> (r: Handle)
        requires
            self.wf(),
            self.hdr_in(h),
        ensures
            r.0 == self.spec_fwd(h),
    {
        Handle(self.u32_at(h.0 + OFF_FWD))
    }

    pub fn set_forward(&mut self, h: Handle, to: Handle)
        requires
            old(self).wf(),
            old(self).hdr_in(h),
        ensures
            same_outside(final(self)@, old(self)@, h.0 + 8, h.0 + 12),
            final(self).spec_fwd(h) == to.0,
    {
        self.set_u32(h.0 + OFF_FWD, to.0);
    }

    /// Reference count.
    pub fn rc(&self, h: Handle) -> (r: u32)
        requires
            self.wf(),
            self.hdr_in(h),
        ensures
            r == self.spec_rc(h),
    {
        self.u32_at(h.0 + OFF_RC)
    }

    pub fn set_rc(&mut self, h: Handle, rc: u32)
        requires
            old(self).wf(),
            old(self).hdr_in(h),
        ensures
            same_outside(final(self)@, old(self)@, h.0 + 12, h.0 + 16),
            final(self).spec_rc(h) == rc,
    {
        self.set_u32(h.0 + OFF_RC, rc);
    }

    // ---- payload accessors ------------------------------------------------
    /// Read reference slot `i`.
    pub fn field(&self, h: Handle, i: u16) -> (r: Handle)
        requires
            self.wf(),
            self.hdr_in(h),
            i < self.spec_nrefs(h),
            h.0 + 16 + 4 * i + 4 <= self.cap(),
        ensures
            r.0 == self.spec_field(h, i as int),
    {
        Handle(self.u32_at(h.0 + HEADER_SIZE + 4 * i as u32))
    }

    /// Write reference slot `i`. This is a raw store with no write barrier.
    pub fn set_field(&mut self, h: Handle, i: u16, v: Handle)
        requires
            old(self).wf(),
            old(self).hdr_in(h),
            i < old(self).spec_nrefs(h),
            h.0 + 16 + 4 * i + 4 <= old(self).cap(),
        ensures
            same_outside(final(self)@, old(self)@, h.0 + 16 + 4 * i, h.0 + 16 + 4 * i + 4),
            final(self).spec_field(h, i as int) == v.0,
    {
        self.set_u32(h.0 + HEADER_SIZE + 4 * i as u32, v.0);
    }

    /// Every non-null reference slot of `h`, in slot order.
    pub fn children(&self, h: Handle) -> (r: Vec<Handle>)
        requires
            self.wf(),
            self.fields_in(h),
        ensures
            r@ == self.spec_children(h),
    {
        let n = self.nrefs(h);
        let mut out: Vec<Handle> = Vec::new();
        let mut i: u16 = 0;
        while i < n
            invariant
                self.wf(),
                self.fields_in(h),
                n == self.spec_nrefs(h),
                i <= n,
                out@ == self.children_upto(h, i as int),
            decreases n - i,
        {
            let c = self.field(h, i);
            if !c.is_null() {
                out.push(c);
            }
            i = i + 1;
        }
        out
    }

    /// Byte offset at which the scalar payload of `h` starts.
    pub fn data_offset(&self, h: Handle) -> (r: u32)
        requires
            self.wf(),
            self.hdr_in(h),
            self.spec_data_offset(h) <= u32::MAX,
        ensures
            r == self.spec_data_offset(h),
    {
        h.0 + HEADER_SIZE + 4 * self.nrefs(h) as u32
    }

    /// The scalar payload of `h`, including any trailing alignment padding.
    pub fn data(&self, h: Handle) -> (r: &[u8])
        requires
            self.wf(),
            self.data_in(h),
        ensures
            r@ == self@.subrange(self.spec_data_offset(h), h.0 + self.spec_size(h)),
    {
        let s = self.data_offset(h) as usize;
        let e = (h.0 + self.size(h)) as usize;
        &self.bytes.as_slice()[s..e]
    }

    /// Read 8 payload bytes at `off` as a little-endian `u64`.
    pub fn data_u64(&self, h: Handle, off: u32) -> (r: u64)
        requires
            self.wf(),
            self.data_range_in(h, off as int, 8),
        ensures
            r == self.spec_data_u64(h, off as int),
    {
        let o = self.data_offset(h) + off;
        let lo = self.u32_at(o) as u64;
        let hi = self.u32_at(o + 4) as u64;
        lo + hi * 4294967296
    }

    pub fn set_data_u64(&mut self, h: Handle, off: u32, v: u64)
        requires
            old(self).wf(),
            old(self).data_range_in(h, off as int, 8),
        ensures
            same_outside(
                final(self)@,
                old(self)@,
                old(self).spec_data_offset(h) + off,
                old(self).spec_data_offset(h) + off + 8,
            ),
            final(self).spec_data_u64(h, off as int) == v,
    {
        proof {
            lemma_le64_halves(v);
        }
        let o = self.data_offset(h) + off;
        self.set_u32(o, (v % 4294967296) as u32);
        self.set_u32(o + 4, (v / 4294967296) as u32);
    }

    pub fn data_u32(&self, h: Handle, off: u32) -> (r: u32)
        requires
            self.wf(),
            self.data_range_in(h, off as int, 4),
        ensures
            r == self.spec_data_u32(h, off as int),
    {
        let o = self.data_offset(h) + off;
        self.u32_at(o)
    }

    pub fn set_data_u32(&mut self, h: Handle, off: u32, v: u32)
        requires
            old(self).wf(),
            old(self).data_range_in(h, off as int, 4),
        ensures
            same_outside(
                final(self)@,
                old(self)@,
                old(self).spec_data_offset(h) + off,
                old(self).spec_data_offset(h) + off + 4,
            ),
            final(self).spec_data_u32(h, off as int) == v,
    {
        let o = self.data_offset(h) + off;
        self.set_u32(o, v);
    }

    /// Writing reference slot `i` of `h` changes that slot and nothing else
    /// the object holds: its header, its other slots and its payload read
    /// as they did.
    pub proof fn law_slot_write_is_local(before: Heap, after: Heap, h: Handle, i: int)
        requires
            before.slot_ok(h, i),
            same_outside(after@, before@, h.0 + 16 + 4 * i, h.0 + 16 + 4 * i + 4),
        ensures
            after.spec_size(h) == before.spec_size(h),
            after.spec_nrefs(h) == before.spec_nrefs(h),
            after.spec_flags(h) == before.spec_flags(h),
            after.spec_color(h) == before.spec_color(h),
            after.spec_fwd(h) == before.spec_fwd(h),
            after.spec_rc(h) == before.spec_rc(h),
            forall|j: int|
                #![trigger after.spec_field(h, j)]
                before.slot_ok(h, j) && j != i ==> after.spec_field(h, j) == before.spec_field(h, j),
            forall|off: int|
                #![trigger after.spec_data_u64(h, off)]
                off >= 0 && before.data_range_in(h, off, 8) ==> after.spec_data_u64(h, off)
                    == before.spec_data_u64(h, off),
    {
    }

    /// Writing the payload word at `off` of `h` changes that word and
    /// nothing else the object holds: its header, its slots and every payload
    /// word that does not overlap it read as they did.
    pub proof fn law_data_write_is_local(before: Heap, after: Heap, h: Handle, off: int)
        requires
            off >= 0,
            before.data_range_in(h, off, 8),
            same_outside(
                after@,
                before@,
                before.spec_data_offset(h) + off,
                before.spec_data_offset(h) + off + 8,
            ),
        ensures
            after.spec_size(h) == before.spec_size(h),
            after.spec_nrefs(h) == before.spec_nrefs(h),
            after.spec_flags(h) == before.spec_flags(h),
            after.spec_fwd(h) == before.spec_fwd(h),
            after.spec_rc(h) == before.spec_rc(h),
            forall|j: int|
                #![trigger after.spec_field(h, j)]
                before.slot_ok(h, j) && j < before.spec_nrefs(h) ==> after.spec_field(h, j)
                    == before.spec_field(h, j),
            forall|o: int|
                #![trigger after.spec_data_u64(h, o)]
                o >= 0 && before.data_range_in(h, o, 8) && (o + 8 <= off || off + 8 <= o)
                    ==> after.spec_data_u64(h, o) == before.spec_data_u64(h, o),
    {
    }

    /// Slot `i` of `h` can be read or written: the header is in the arena,
    /// `i` is below the slot count and the slot itself is in the arena.
    pub open spec fn slot_ok(&self, h: Handle, i: int) -> bool {
        &&& self.hdr_in(h)
        &&& 0 <= i < self.spec_nrefs(h)
        &&& h.0 + 16 + 4 * i + 4 <= self.cap()
    }

    /// Whether slot `i` of `h` can be read or written.
    pub fn field_ok(&self, h: Handle, i: u16) -> (r: bool)
        requires
            self.wf(),
        ensures
            r == self.slot_ok(h, i as int),
    {
        let cap = self.capacity();
        if h.0 > cap - HEADER_SIZE {
            return false;
        }
        let n = self.nrefs(h);
        i < n && (4 * i as u32) + 4 <= cap - h.0 - HEADER_SIZE
    }

    /// Whether `len` payload bytes at `off` lie inside the payload of `h`.
    pub fn data_ok(&self, h: Handle, off: u32, len: u32) -> (r: bool)
        requires
            self.wf(),
        ensures
            r == self.data_range_in(h, off as int, len as int),
    {
        let cap = self.capacity();
        if h.0 > cap - HEADER_SIZE {
            return false;
        }
        let size = self.size(h);
        let n = self.nrefs(h) as u32;
        if size > cap - h.0 {
            return false;
        }
        let start = 16u64 + 4 * n as u64;
        start <= size as u64 && start + off as u64 + len as u64 <= size as u64
    }

    /// True if `h` addresses a plausibly-shaped object inside the arena.
    pub fn in_bounds(&self, h: Handle) -> (r: bool)
        requires
            self.wf(),
        ensures
            r == self.spec_in_bounds(h),
    {
        let cap = self.capacity();
        if h.is_null() || h.0 % ALIGN != 0 || h.0 > cap - HEADER_SIZE {
            return false;
        }
        let size = self.u32_at(h.0 + OFF_SIZE);
        size >= HEADER_SIZE && size % ALIGN == 0 && size <= cap - h.0
    }

    /// Raw arena bytes, for tests and heap dumps.
    pub fn raw(&self) -> (r: &[u8])
        ensures
            r@ == self@,
    {
        self.bytes.as_slice()
    }
}

} // verus!
