//! Edge flags handed to the 8x8 directional filter.
use vstd::prelude::*;

verus! {

/// A left neighbour column is available.
pub const HAVE_LEFT: u8 = 1;

/// A right neighbour column is available.
pub const HAVE_RIGHT: u8 = 2;

/// A top neighbour row is available.
pub const HAVE_TOP: u8 = 4;

/// A bottom neighbour row is available.
pub const HAVE_BOTTOM: u8 = 8;

/// Whether every bit of `flag` is set in `edges`.
pub open spec fn has_edge(edges: u8, flag: u8) -> bool {
    edges & flag == flag
}

/// The edge flags of the 8x8 block pair at block column `bx` and block row
/// `by` (both in 4-pixel units) of a frame `bw` by `bh` blocks.
pub open spec fn edge_flags_at(bx: int, by: int, bw: int, bh: int) -> u8 {
    (if bx > 0 { HAVE_LEFT } else { 0u8 })
        | (if bx + 2 < bw { HAVE_RIGHT } else { 0u8 })
        | (if by > 0 { HAVE_TOP } else { 0u8 })
        | (if by + 2 < bh { HAVE_BOTTOM } else { 0u8 })
}

/// Reads the four flags of an edge set back.
pub proof fn lemma_edge_flags_bits(l: bool, r: bool, t: bool, b: bool)
    ensures
        ({
            let e = (if l { HAVE_LEFT } else { 0u8 }) | (if r { HAVE_RIGHT } else { 0u8 }) | (
            if t { HAVE_TOP } else { 0u8 }) | (if b { HAVE_BOTTOM } else { 0u8 });
            &&& has_edge(e, HAVE_LEFT) == l
            &&& has_edge(e, HAVE_RIGHT) == r
            &&& has_edge(e, HAVE_TOP) == t
            &&& has_edge(e, HAVE_BOTTOM) == b
            &&& e < 16
        }),
{
    let lv: u8 = if l { 1 } else { 0 };
    let rv: u8 = if r { 2 } else { 0 };
    let tv: u8 = if t { 4 } else { 0 };
    let bv: u8 = if b { 8 } else { 0 };
    assert(((lv | rv | tv | bv) & 1 == 1) == (lv == 1) && ((lv | rv | tv | bv) & 2 == 2) == (rv
        == 2) && ((lv | rv | tv | bv) & 4 == 4) == (tv == 4) && ((lv | rv | tv | bv) & 8 == 8) == (
    bv == 8) && (lv | rv | tv | bv) < 16) by (bit_vector)
        requires
            lv == 0 || lv == 1,
            rv == 0 || rv == 2,
            tv == 0 || tv == 4,
            bv == 0 || bv == 8,
    ;
}

/// The last block column of the frame has no right neighbour, the last
/// block row no bottom neighbour, and the first block column of every row no
/// left neighbour.
pub proof fn lemma_frame_borders(bx: int, by: int, bw: int, bh: int)
    ensures
        bx + 2 >= bw ==> !has_edge(edge_flags_at(bx, by, bw, bh), HAVE_RIGHT),
        by + 2 >= bh ==> !has_edge(edge_flags_at(bx, by, bw, bh), HAVE_BOTTOM),
        bx == 0 ==> !has_edge(edge_flags_at(bx, by, bw, bh), HAVE_LEFT),
{
    lemma_edge_flags_bits(bx > 0, bx + 2 < bw, by > 0, by + 2 < bh);
}

/// Builds an edge set from its four flags.
pub fn make_edges(l: bool, r: bool, t: bool, b: bool) -> (e: u8)
    ensures
        e == (if l { HAVE_LEFT } else { 0u8 }) | (if r { HAVE_RIGHT } else { 0u8 }) | (if t {
            HAVE_TOP
        } else { 0u8 }) | (if b { HAVE_BOTTOM } else { 0u8 }),
        has_edge(e, HAVE_LEFT) == l,
        has_edge(e, HAVE_RIGHT) == r,
        has_edge(e, HAVE_TOP) == t,
        has_edge(e, HAVE_BOTTOM) == b,
{
    proof {
        lemma_edge_flags_bits(l, r, t, b);
    }
    (if l { HAVE_LEFT } else { 0u8 }) | (if r { HAVE_RIGHT } else { 0u8 }) | (if t {
        HAVE_TOP
    } else { 0u8 }) | (if b { HAVE_BOTTOM } else { 0u8 })
}

} // verus!
