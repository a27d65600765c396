//! Points, regions and the squared-distance arithmetic the index relies on.

use vstd::prelude::*;

verus! {

/// A point on the integer plane, `(x, y)`; `y` grows downwards, so the
/// top-left corner of a region has the smaller coordinates.
pub type Pos = (i32, i32);

/// Whether `p` lies in the closed rectangle spanned by `tl` and `br`.
pub open spec fn in_rect(tl: Pos, br: Pos, p: Pos) -> bool {
    tl.0 <= p.0 && p.0 <= br.0 && tl.1 <= p.1 && p.1 <= br.1
}

/// The midpoint of `lo..=hi`, rounded towards `lo`.
pub open spec fn mid(lo: i32, hi: i32) -> int {
    lo + (hi - lo) / 2
}

/// Squared Euclidean distance between two points.
pub open spec fn dist2(a: Pos, b: Pos) -> int {
    (a.0 - b.0) * (a.0 - b.0) + (a.1 - b.1) * (a.1 - b.1)
}

/// `v` moved into `lo..=hi`.
pub open spec fn clamp(v: int, lo: int, hi: int) -> int {
    if v < lo {
        lo
    } else if v > hi {
        hi
    } else {
        v
    }
}

/// Squared distance from `c` to the nearest point of the rectangle.
pub open spec fn rect_dist2(tl: Pos, br: Pos, c: Pos) -> int {
    let dx = clamp(c.0 as int, tl.0 as int, br.0 as int) - c.0;
    let dy = clamp(c.1 as int, tl.1 as int, br.1 as int) - c.1;
    dx * dx + dy * dy
}

pub fn mid_exec(lo: i32, hi: i32) -> (r: i32)
    requires
        lo <= hi,
    ensures
        r == mid(lo, hi),
        lo <= r <= hi,
{
    let d: i64 = hi as i64 - lo as i64;
    (lo as i64 + d / 2) as i32
}

/// Squared distance, computed without overflow.
pub fn dist2_exec(a: Pos, b: Pos) -> (r: i128)
    ensures
        r == dist2(a, b),
{
    let dx: i128 = a.0 as i128 - b.0 as i128;
    let dy: i128 = a.1 as i128 - b.1 as i128;
    assert(-0x1_0000_0000 < dx < 0x1_0000_0000);
    assert(-0x1_0000_0000 < dy < 0x1_0000_0000);
    assert(0 <= dx * dx < 0x1_0000_0000_0000_0000) by (nonlinear_arith)
        requires -0x1_0000_0000 < dx < 0x1_0000_0000;
    assert(0 <= dy * dy < 0x1_0000_0000_0000_0000) by (nonlinear_arith)
        requires -0x1_0000_0000 < dy < 0x1_0000_0000;
    dx * dx + dy * dy
}

/// Whether a point lies within distance `r` of `c` (boundary included).
pub fn within(p: Pos, c: Pos, r: u32) -> (b: bool)
    ensures
        b == (dist2(p, c) <= r * r),
{
    let rr: i128 = r as i128;
    assert(0 <= rr * rr < 0x1_0000_0000_0000_0000) by (nonlinear_arith)
        requires 0 <= rr < 0x1_0000_0000;
    let r2: i128 = rr * rr;
    dist2_exec(p, c) <= r2
}

/// Nearest point of a region: each coordinate is at least as close to `c`
/// as that of any point of the region.
pub proof fn lemma_rect_dist_le(tl: Pos, br: Pos, c: Pos, p: Pos)
    requires
        in_rect(tl, br, p),
    ensures
        rect_dist2(tl, br, c) <= dist2(p, c),
{
    let dx = clamp(c.0 as int, tl.0 as int, br.0 as int) - c.0;
    let dy = clamp(c.1 as int, tl.1 as int, br.1 as int) - c.1;
    let ex = p.0 - c.0;
    let ey = p.1 - c.1;
    assert(dx * dx <= ex * ex) by (nonlinear_arith)
        requires
            (0 <= dx <= ex) || (ex <= dx <= 0);
    assert(dy * dy <= ey * ey) by (nonlinear_arith)
        requires
            (0 <= dy <= ey) || (ey <= dy <= 0);
}

} // verus!
