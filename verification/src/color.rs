use vstd::prelude::*;

verus! {

/// One cell color: a triplet of three independent 8-bit channels.
#[derive(Clone, Copy, PartialEq, Eq, Structural, Debug)]
pub struct Color {
    pub r: u8,
    pub g: u8,
    pub b: u8,
}

/// The starting value of the bisection search: all channels zero.
pub open spec fn black() -> Color {
    Color { r: 0, g: 0, b: 0 }
}

/// The distance between two channel values: the plain absolute
/// difference.
pub open spec fn chan_dist(a: int, b: int) -> int {
    if a >= b {
        a - b
    } else {
        b - a
    }
}

/// |a - b|, the per-channel color distance.
pub fn dist(a: u8, b: u8) -> (d: u8)
    ensures
        d == chan_dist(a as int, b as int),
{
    if a >= b {
        a - b
    } else {
        b - a
    }
}

/// Squared per-channel difference between two colors, summed over the
/// three channels; the numerator of one neighbor's scoring term.
pub open spec fn color_dist_sq(c: Color, o: Color) -> int {
    chan_dist(c.r as int, o.r as int) * chan_dist(c.r as int, o.r as int) + chan_dist(
        c.g as int,
        o.g as int,
    ) * chan_dist(c.g as int, o.g as int) + chan_dist(c.b as int, o.b as int) * chan_dist(
        c.b as int,
        o.b as int,
    )
}

pub proof fn lemma_color_dist_sq_bound(c: Color, o: Color)
    ensures
        0 <= color_dist_sq(c, o) <= 195075,
{
    assert(0 <= chan_dist(c.r as int, o.r as int) <= 255);
    assert(0 <= chan_dist(c.g as int, o.g as int) <= 255);
    assert(0 <= chan_dist(c.b as int, o.b as int) <= 255);
    assert forall|x: int| 0 <= x <= 255 implies 0 <= #[trigger] (x * x) <= 65025 by {
        vstd::arithmetic::mul::lemma_mul_upper_bound(x, 255, x, 255);
        vstd::arithmetic::mul::lemma_mul_nonnegative(x, x);
    }
}

/// Exact squared color distance, as scored against one neighbor.
pub fn color_dist_sq_exec(c: Color, o: Color) -> (s: u64)
    ensures
        s == color_dist_sq(c, o),
        s <= 195075,
{
    proof {
        lemma_color_dist_sq_bound(c, o);
    }
    let dr = dist(c.r, o.r) as u64;
    let dg = dist(c.g, o.g) as u64;
    let db = dist(c.b, o.b) as u64;
    dr * dr + dg * dg + db * db
}

} // verus!
