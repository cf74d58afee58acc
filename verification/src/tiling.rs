//! Facts about a region laid out as blocks end to end.
//!
//! [`tiles`] says that a walk from `at` that steps by each header's size
//! lands exactly on `end`; [`on_tiles`] says that `x` is one of the block
//! starts such a walk visits. The lemmas here say what happens to a tiling
//! when headers are rewritten: a block split in two, two neighbours merged,
//! a block added at the end or dropped from it, or bytes that no block start
//! reads changed under it.

use crate::heap::{block_ok, le32};
use crate::space::tiles;
use vstd::prelude::*;

verus! {

/// `x` is one of the block starts met walking `[at, end)`.
pub open spec fn on_tiles(b: Seq<u8>, at: int, end: int, x: int) -> bool
    decreases end - at,
{
    if at >= end || le32(b, at) < 16 || !block_ok(b, at) || at + le32(b, at) > end {
        false
    } else if x == at {
        true
    } else {
        on_tiles(b, at + le32(b, at), end, x)
    }
}

/// A block start of a tiling lies inside it, carries a usable size, ends
/// inside it, and is aligned when the tiling starts aligned.
pub proof fn lemma_on_tiles_facts(b: Seq<u8>, at: int, end: int, x: int)
    requires
        on_tiles(b, at, end, x),
    ensures
        at <= x,
        block_ok(b, x),
        x + le32(b, x) <= end,
        at % 16 == 0 ==> x % 16 == 0,
    decreases end - at,
{
    if x != at {
        lemma_on_tiles_facts(b, at + le32(b, at), end, x);
    }
}

/// In a tiling, the block after a block start is a block start too, unless
/// the tiling ends there; and what follows a block start is itself a tiling.
pub proof fn lemma_tiles_next(b: Seq<u8>, at: int, end: int, x: int)
    requires
        tiles(b, at, end),
        on_tiles(b, at, end, x),
    ensures
        tiles(b, x, end),
        tiles(b, x + le32(b, x), end),
        x + le32(b, x) < end ==> on_tiles(b, at, end, x + le32(b, x)),
    decreases end - at,
{
    lemma_on_tiles_facts(b, at, end, x);
    if x == at {
        let n = at + le32(b, at);
        assert(tiles(b, n, end));
        if n < end {
            assert(on_tiles(b, n, end, n));
            assert(on_tiles(b, at, end, n));
        }
    } else {
        lemma_tiles_next(b, at + le32(b, at), end, x);
    }
}

/// Two block starts of one tiling do not overlap.
pub proof fn lemma_tiles_apart(b: Seq<u8>, at: int, end: int, x: int, y: int)
    requires
        on_tiles(b, at, end, x),
        on_tiles(b, at, end, y),
        x < y,
    ensures
        x + le32(b, x) <= y,
    decreases end - at,
{
    lemma_on_tiles_facts(b, at, end, x);
    if x == at {
        lemma_on_tiles_facts(b, at + le32(b, at), end, y);
    } else {
        lemma_tiles_apart(b, at + le32(b, at), end, x, y);
    }
}

/// No block start lies strictly inside another block of the same tiling.
pub proof fn lemma_tiles_no_start_inside(b: Seq<u8>, at: int, end: int, x: int, y: int)
    requires
        on_tiles(b, at, end, x),
        x < y < x + le32(b, x),
    ensures
        !on_tiles(b, at, end, y),
{
    if on_tiles(b, at, end, y) {
        lemma_tiles_apart(b, at, end, x, y);
    }
}

/// Rewriting bytes that no block start's size is read from leaves the
/// tiling, and its block starts, as they were.
#[verifier::spinoff_prover]
pub proof fn lemma_tiles_frame(b1: Seq<u8>, b2: Seq<u8>, at: int, end: int)
    requires
        tiles(b1, at, end),
        b2.len() == b1.len(),
        forall|x: int| #[trigger] on_tiles(b1, at, end, x) ==> le32(b2, x) == le32(b1, x),
    ensures
        tiles(b2, at, end),
        forall|x: int| #[trigger] on_tiles(b2, at, end, x) == on_tiles(b1, at, end, x),
    decreases end - at,
{
    if at < end {
        assert(on_tiles(b1, at, end, at));
        let s = le32(b1, at);
        assert forall|x: int| #[trigger] on_tiles(b1, at + s, end, x) implies le32(b2, x) == le32(b1, x) by {
            if x != at {
                assert(on_tiles(b1, at, end, x));
            } else {
                lemma_on_tiles_facts(b1, at + s, end, x);
            }
        }
        lemma_tiles_frame(b1, b2, at + s, end);
        assert forall|x: int| #[trigger] on_tiles(b2, at, end, x) == on_tiles(b1, at, end, x) by {
            if x != at {
                assert(on_tiles(b2, at, end, x) == on_tiles(b2, at + s, end, x));
                assert(on_tiles(b1, at, end, x) == on_tiles(b1, at + s, end, x));
            }
        }
    }
}

/// The second half of a split block, followed by the rest of the tiling,
/// tiles what the whole block did.
#[verifier::spinoff_prover]
proof fn lemma_tiles_split_tail(b1: Seq<u8>, b2: Seq<u8>, x: int, end: int, n: int)
    requires
        end <= b1.len(),
        tiles(b1, x, end),
        on_tiles(b1, x, end, x),
        16 <= n < le32(b1, x),
        n % 16 == 0,
        b2.len() == b1.len(),
        le32(b2, x + n) == le32(b1, x) - n,
        forall|y: int| #[trigger] on_tiles(b1, x, end, y) && y != x ==> le32(b2, y) == le32(b1, y),
    ensures
        tiles(b2, x + n, end),
        forall|y: int| #[trigger] on_tiles(b2, x + n, end, y) <==> on_tiles(b1, x, end, y) && y != x || y == x + n,
{
    let rest = x + le32(b1, x);
    lemma_on_tiles_facts(b1, x, end, x);
    assert(tiles(b1, rest, end));
    assert forall|y: int| #[trigger] on_tiles(b1, rest, end, y) implies le32(b2, y) == le32(b1, y) by {
        lemma_on_tiles_facts(b1, rest, end, y);
        assert(on_tiles(b1, x, end, y));
    }
    lemma_tiles_frame(b1, b2, rest, end);
    assert(block_ok(b2, x + n));
    assert forall|y: int| #[trigger] on_tiles(b2, x + n, end, y) <==> on_tiles(b1, x, end, y) && y != x || y == x + n by {
        if y != x + n {
            assert(on_tiles(b2, x + n, end, y) == on_tiles(b2, rest, end, y));
            if y != x {
                assert(on_tiles(b1, x, end, y) == on_tiles(b1, rest, end, y));
            } else {
                if on_tiles(b2, rest, end, y) {
                    lemma_on_tiles_facts(b2, rest, end, y);
                }
            }
        }
    }
}

/// The split of [`lemma_tiles_split`] where `x` is the first block.
#[verifier::spinoff_prover]
proof fn lemma_tiles_split_here(b1: Seq<u8>, b2: Seq<u8>, x: int, end: int, n: int)
    requires
        end <= b1.len(),
        tiles(b1, x, end),
        on_tiles(b1, x, end, x),
        16 <= n < le32(b1, x),
        n % 16 == 0,
        b2.len() == b1.len(),
        le32(b2, x) == n,
        le32(b2, x + n) == le32(b1, x) - n,
        forall|y: int| #[trigger] on_tiles(b1, x, end, y) && y != x ==> le32(b2, y) == le32(b1, y),
    ensures
        tiles(b2, x, end),
        forall|y: int| #[trigger] on_tiles(b2, x, end, y) <==> on_tiles(b1, x, end, y) || y == x + n,
{
    lemma_on_tiles_facts(b1, x, end, x);
    lemma_tiles_split_tail(b1, b2, x, end, n);
    assert(block_ok(b2, x));
    assert(tiles(b2, x, end));
    assert forall|y: int| #[trigger] on_tiles(b2, x, end, y) <==> on_tiles(b1, x, end, y) || y == x + n by {
        if y != x {
            assert(on_tiles(b2, x, end, y) == on_tiles(b2, x + n, end, y));
        }
    }
}

/// Cutting the block at `x` into one of `n` bytes and one holding the rest
/// keeps the tiling, with one more block start at `x + n`.
#[verifier::spinoff_prover]
pub proof fn lemma_tiles_split(b1: Seq<u8>, b2: Seq<u8>, at: int, end: int, x: int, n: int)
    requires
        end <= b1.len(),
        tiles(b1, at, end),
        on_tiles(b1, at, end, x),
        16 <= n < le32(b1, x),
        n % 16 == 0,
        b2.len() == b1.len(),
        le32(b2, x) == n,
        le32(b2, x + n) == le32(b1, x) - n,
        forall|y: int| #[trigger] on_tiles(b1, at, end, y) && y != x ==> le32(b2, y) == le32(b1, y),
    ensures
        tiles(b2, at, end),
        forall|y: int| #[trigger] on_tiles(b2, at, end, y) <==> on_tiles(b1, at, end, y) || y == x + n,
    decreases end - at,
{
    lemma_on_tiles_facts(b1, at, end, x);
    assert(on_tiles(b1, at, end, at));
    if x == at {
        lemma_tiles_split_here(b1, b2, x, end, n);
    } else {
        let s = le32(b1, at);
        assert(on_tiles(b1, at + s, end, x));
        assert forall|y: int| #[trigger] on_tiles(b1, at + s, end, y) && y != x implies le32(b2, y) == le32(
            b1,
            y,
        ) by {
            lemma_on_tiles_facts(b1, at + s, end, y);
            assert(on_tiles(b1, at, end, y));
        }
        lemma_tiles_split(b1, b2, at + s, end, x, n);
        assert(le32(b2, at) == s);
        assert(tiles(b2, at, end));
        assert forall|y: int| #[trigger] on_tiles(b2, at, end, y) <==> on_tiles(b1, at, end, y) || y == x + n by {
            if y != at {
                assert(on_tiles(b2, at, end, y) == on_tiles(b2, at + s, end, y));
                assert(on_tiles(b1, at, end, y) == on_tiles(b1, at + s, end, y));
            } else {
                lemma_on_tiles_facts(b1, at + s, end, x);
            }
        }
    }
}

/// The merge of [`lemma_tiles_merge`] where `x` is the first block.
#[verifier::spinoff_prover]
proof fn lemma_tiles_merge_here(b1: Seq<u8>, b2: Seq<u8>, x: int, end: int)
    requires
        tiles(b1, x, end),
        on_tiles(b1, x, end, x),
        on_tiles(b1, x, end, x + le32(b1, x)),
        b2.len() == b1.len(),
        le32(b2, x) == le32(b1, x) + le32(b1, x + le32(b1, x)),
        forall|y: int|
            #[trigger] on_tiles(b1, x, end, y) && y != x && y != x + le32(b1, x) ==> le32(b2, y) == le32(b1, y),
    ensures
        tiles(b2, x, end),
        forall|y: int| #[trigger] on_tiles(b2, x, end, y) <==> on_tiles(b1, x, end, y) && y != x + le32(b1, x),
{
    let nx = x + le32(b1, x);
    lemma_on_tiles_facts(b1, x, end, x);
    lemma_on_tiles_facts(b1, x, end, nx);
    assert(tiles(b1, nx, end));
    assert(on_tiles(b1, nx, end, nx));
    let rest = nx + le32(b1, nx);
    assert(tiles(b1, rest, end));
    assert forall|y: int| #[trigger] on_tiles(b1, rest, end, y) implies le32(b2, y) == le32(b1, y) by {
        lemma_on_tiles_facts(b1, rest, end, y);
        assert(on_tiles(b1, nx, end, y));
        assert(on_tiles(b1, x, end, y));
    }
    lemma_tiles_frame(b1, b2, rest, end);
    assert(tiles(b2, x, end));
    assert forall|y: int| #[trigger] on_tiles(b2, x, end, y) <==> on_tiles(b1, x, end, y) && y != nx by {
        if y != x && y != nx {
            assert(on_tiles(b2, x, end, y) == on_tiles(b2, rest, end, y));
            assert(on_tiles(b1, x, end, y) == on_tiles(b1, nx, end, y));
            assert(on_tiles(b1, nx, end, y) == on_tiles(b1, rest, end, y));
        }
        if y == nx {
            if on_tiles(b2, x, end, y) {
                assert(on_tiles(b2, rest, end, y));
                lemma_on_tiles_facts(b2, rest, end, y);
            }
        }
    }
}

/// Merging the block at `x` with the block right after it keeps the tiling,
/// with that second block start gone.
#[verifier::spinoff_prover]
pub proof fn lemma_tiles_merge(b1: Seq<u8>, b2: Seq<u8>, at: int, end: int, x: int)
    requires
        tiles(b1, at, end),
        on_tiles(b1, at, end, x),
        on_tiles(b1, at, end, x + le32(b1, x)),
        b2.len() == b1.len(),
        le32(b2, x) == le32(b1, x) + le32(b1, x + le32(b1, x)),
        forall|y: int|
            #[trigger] on_tiles(b1, at, end, y) && y != x && y != x + le32(b1, x) ==> le32(b2, y) == le32(b1, y),
    ensures
        tiles(b2, at, end),
        forall|y: int| #[trigger] on_tiles(b2, at, end, y) <==> on_tiles(b1, at, end, y) && y != x + le32(b1, x),
    decreases end - at,
{
    let nx = x + le32(b1, x);
    lemma_on_tiles_facts(b1, at, end, x);
    assert(on_tiles(b1, at, end, at));
    if x == at {
        lemma_tiles_merge_here(b1, b2, x, end);
    } else {
        let s = le32(b1, at);
        assert(on_tiles(b1, at + s, end, x));
        lemma_on_tiles_facts(b1, at + s, end, x);
        assert(on_tiles(b1, at + s, end, nx));
        assert forall|y: int|
            #[trigger] on_tiles(b1, at + s, end, y) && y != x && y != nx implies le32(b2, y) == le32(b1, y) by {
            lemma_on_tiles_facts(b1, at + s, end, y);
            assert(on_tiles(b1, at, end, y));
        }
        lemma_tiles_merge(b1, b2, at + s, end, x);
        assert(le32(b2, at) == s);
        assert(tiles(b2, at, end));
        assert forall|y: int| #[trigger] on_tiles(b2, at, end, y) <==> on_tiles(b1, at, end, y) && y != nx by {
            if y != at {
                assert(on_tiles(b2, at, end, y) == on_tiles(b2, at + s, end, y));
                assert(on_tiles(b1, at, end, y) == on_tiles(b1, at + s, end, y));
            }
        }
    }
}

/// A well-formed block placed right at the end of a tiling extends it.
#[verifier::spinoff_prover]
pub proof fn lemma_tiles_append(b1: Seq<u8>, b2: Seq<u8>, at: int, end: int)
    requires
        tiles(b1, at, end),
        b2.len() == b1.len(),
        forall|x: int| #[trigger] on_tiles(b1, at, end, x) ==> le32(b2, x) == le32(b1, x),
        block_ok(b2, end),
    ensures
        tiles(b2, at, end + le32(b2, end)),
        forall|y: int| #[trigger] on_tiles(b2, at, end + le32(b2, end), y) <==> on_tiles(b1, at, end, y) || y == end,
    decreases end - at,
{
    let e2 = end + le32(b2, end);
    if at >= end {
        assert(at == end);
        assert(tiles(b2, e2, e2));
        assert(tiles(b2, at, e2));
        assert forall|y: int| #[trigger] on_tiles(b2, at, e2, y) <==> on_tiles(b1, at, end, y) || y == end by {
            if y != at {
                assert(!on_tiles(b2, e2, e2, y));
            }
        }
    } else {
        assert(on_tiles(b1, at, end, at));
        let s = le32(b1, at);
        assert forall|x: int| #[trigger] on_tiles(b1, at + s, end, x) implies le32(b2, x) == le32(b1, x) by {
            lemma_on_tiles_facts(b1, at + s, end, x);
            assert(on_tiles(b1, at, end, x));
        }
        lemma_tiles_append(b1, b2, at + s, end);
        assert(tiles(b2, at, e2));
        assert forall|y: int| #[trigger] on_tiles(b2, at, e2, y) <==> on_tiles(b1, at, end, y) || y == end by {
            if y != at {
                assert(on_tiles(b2, at, e2, y) == on_tiles(b2, at + s, e2, y));
                assert(on_tiles(b1, at, end, y) == on_tiles(b1, at + s, end, y));
            }
        }
    }
}

/// Dropping the last block of a tiling leaves a tiling of what precedes it.
#[verifier::spinoff_prover]
pub proof fn lemma_tiles_trim(b: Seq<u8>, at: int, end: int, x: int)
    requires
        tiles(b, at, end),
        on_tiles(b, at, end, x),
        x + le32(b, x) == end,
    ensures
        tiles(b, at, x),
        forall|y: int| #[trigger] on_tiles(b, at, x, y) <==> on_tiles(b, at, end, y) && y != x,
    decreases end - at,
{
    lemma_on_tiles_facts(b, at, end, x);
    if x == at {
        assert forall|y: int| #[trigger] on_tiles(b, at, x, y) <==> on_tiles(b, at, end, y) && y != x by {
            if y != at {
                assert(on_tiles(b, at, end, y) == on_tiles(b, at + le32(b, at), end, y));
                if on_tiles(b, at + le32(b, at), end, y) {
                    lemma_on_tiles_facts(b, at + le32(b, at), end, y);
                }
            }
        }
    } else {
        let s = le32(b, at);
        assert(on_tiles(b, at, end, at));
        assert(on_tiles(b, at + s, end, x));
        lemma_on_tiles_facts(b, at + s, end, x);
        lemma_tiles_trim(b, at + s, end, x);
        assert(tiles(b, at, x));
        assert forall|y: int| #[trigger] on_tiles(b, at, x, y) <==> on_tiles(b, at, end, y) && y != x by {
            if y != at {
                assert(on_tiles(b, at, x, y) == on_tiles(b, at + s, x, y));
                assert(on_tiles(b, at, end, y) == on_tiles(b, at + s, end, y));
            }
        }
    }
}

} // verus!
