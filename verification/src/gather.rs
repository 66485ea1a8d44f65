use vstd::prelude::*;

use crate::canvas::{cell_index, lemma_cell_index_bound, Canvas};
use crate::color::Color;

verus! {

/// A colored cell found in the search window: its wrapped position, its
/// squared spatial offset from the window center (never a color
/// distance), and the color stored there.
#[derive(Clone, Copy, PartialEq, Eq, Structural, Debug)]
pub struct Neighbor {
    pub x: usize,
    pub y: usize,
    pub d2: u64,
    pub color: Color,
}

/// Toroidal wrap of a coordinate that is off the grid by less than one
/// full side: position arithmetic is modulo n.
pub open spec fn wrap(v: int, n: int) -> int
    recommends
        -n <= v < 2 * n,
{
    if v < 0 {
        v + n
    } else if v >= n {
        v - n
    } else {
        v
    }
}

/// The window side for radius r.
pub open spec fn window_side(r: nat) -> int {
    2 * (r as int) + 1
}

/// The wrapped x offset index of flat window slot t (row of the window).
pub open spec fn slot_ox(r: nat, t: int) -> int {
    t / window_side(r) - r
}

/// The wrapped y offset index of flat window slot t (column of the window).
pub open spec fn slot_oy(r: nat, t: int) -> int {
    t % window_side(r) - r
}

/// The cell the canvas holds at window slot t around center (x, y).
pub open spec fn slot_cell(cv: Seq<Option<Color>>, n: nat, x: int, y: int, r: nat, t: int) -> Option<
    Color,
> {
    cv[cell_index(n, wrap(x + slot_ox(r, t), n as int), wrap(y + slot_oy(r, t), n as int))]
}

/// The neighbor record emitted for window slot t, when its cell is Filled.
pub open spec fn slot_record(cv: Seq<Option<Color>>, n: nat, x: int, y: int, r: nat, t: int) -> Neighbor {
    let ox = slot_ox(r, t);
    let oy = slot_oy(r, t);
    Neighbor {
        x: wrap(x + ox, n as int) as usize,
        y: wrap(y + oy, n as int) as usize,
        d2: (ox * ox + oy * oy) as u64,
        color: slot_cell(cv, n, x, y, r, t)->Some_0,
    }
}

/// The records of the first t window slots, in window scan order.
pub open spec fn gather_upto(
    cv: Seq<Option<Color>>,
    n: nat,
    x: int,
    y: int,
    r: nat,
    t: nat,
) -> Seq<Neighbor>
    decreases t,
{
    if t == 0 {
        Seq::empty()
    } else {
        let prev = gather_upto(cv, n, x, y, r, (t - 1) as nat);
        if slot_cell(cv, n, x, y, r, t - 1) is Some {
            prev.push(slot_record(cv, n, x, y, r, t - 1))
        } else {
            prev
        }
    }
}

/// Every already-colored cell of the whole (2r+1) x (2r+1) wrapped
/// window around (x, y), with its squared offset.
pub open spec fn gather_spec(cv: Seq<Option<Color>>, n: nat, x: int, y: int, r: nat) -> Seq<
    Neighbor,
> {
    gather_upto(cv, n, x, y, r, (window_side(r) * window_side(r)) as nat)
}

/// A record whose slot holds a Filled cell is in the gathered sequence.
pub proof fn lemma_gather_upto_contains(
    cv: Seq<Option<Color>>,
    n: nat,
    x: int,
    y: int,
    r: nat,
    t: nat,
    t0: int,
)
    requires
        0 <= t0 < t,
        slot_cell(cv, n, x, y, r, t0) is Some,
    ensures
        gather_upto(cv, n, x, y, r, t).contains(slot_record(cv, n, x, y, r, t0)),
    decreases t,
{
    if t0 == t - 1 {
        let prev = gather_upto(cv, n, x, y, r, (t - 1) as nat);
        assert(gather_upto(cv, n, x, y, r, t) == prev.push(slot_record(cv, n, x, y, r, t0)));
        assert(gather_upto(cv, n, x, y, r, t).last() == slot_record(cv, n, x, y, r, t0));
    } else {
        lemma_gather_upto_contains(cv, n, x, y, r, (t - 1) as nat, t0);
        let prev = gather_upto(cv, n, x, y, r, (t - 1) as nat);
        let i = choose|i: int| 0 <= i < prev.len() && prev[i] == slot_record(cv, n, x, y, r, t0);
        assert(gather_upto(cv, n, x, y, r, t)[i] == slot_record(cv, n, x, y, r, t0));
    }
}

/// Window offsets stay within the radius.
pub proof fn lemma_slot_off_bounds(r: nat, t: int)
    requires
        0 <= t < window_side(r) * window_side(r),
    ensures
        -(r as int) <= slot_ox(r, t) <= r,
        -(r as int) <= slot_oy(r, t) <= r,
{
    let side = window_side(r);
    assert(0 <= t / side <= side - 1 && 0 <= t % side <= side - 1) by (nonlinear_arith)
        requires
            side >= 1,
            0 <= t < side * side,
    ;
}

/// While the window's own center cell is still Empty, every emitted
/// record has a positive squared offset: the center is never its own
/// neighbor, so no scoring term divides by zero.
pub proof fn lemma_gather_d2_pos(cv: Seq<Option<Color>>, n: nat, x: int, y: int, r: nat, t: nat)
    requires
        0 <= x < n,
        0 <= y < n,
        r < n,
        r <= 255,
        cv[cell_index(n, x, y)] is None,
        t <= window_side(r) * window_side(r),
    ensures
        forall|i: int| 0 <= i < gather_upto(cv, n, x, y, r, t).len() ==> (#[trigger] gather_upto(
            cv,
            n,
            x,
            y,
            r,
            t,
        )[i]).d2 >= 1,
    decreases t,
{
    if t > 0 {
        lemma_gather_d2_pos(cv, n, x, y, r, (t - 1) as nat);
        let prev = gather_upto(cv, n, x, y, r, (t - 1) as nat);
        let cur = gather_upto(cv, n, x, y, r, t);
        if slot_cell(cv, n, x, y, r, t - 1) is Some {
            let ox = slot_ox(r, t - 1);
            let oy = slot_oy(r, t - 1);
            lemma_slot_off_bounds(r, t - 1);
            if ox == 0 && oy == 0 {
                assert(wrap(x + 0, n as int) == x);
                assert(wrap(y + 0, n as int) == y);
                assert(slot_cell(cv, n, x, y, r, t - 1) == cv[cell_index(n, x, y)]);
                assert(false);
            }
            assert(ox * ox + oy * oy >= 1 && ox * ox + oy * oy <= 130050) by (nonlinear_arith)
                requires
                    -255 <= ox <= 255,
                    -255 <= oy <= 255,
                    !(ox == 0 && oy == 0),
            ;
            assert(slot_record(cv, n, x, y, r, t - 1).d2 >= 1);
            assert forall|i: int| 0 <= i < cur.len() implies (#[trigger] cur[i]).d2 >= 1 by {
                if i < prev.len() {
                    assert(cur[i] == prev[i]);
                } else {
                    assert(cur[i] == slot_record(cv, n, x, y, r, t - 1));
                }
            }
        }
    }
}

/// Wrap adjacency: on a grid of side at least 2, the window of radius
/// at least 1 around the corner (0, 0) reaches the opposite corner
/// (n-1, n-1), at squared offset 2 -- adjacency wraps at both edges.
pub proof fn lemma_wrap_adjacency(cv: Seq<Option<Color>>, n: nat, r: nat, c: Color)
    requires
        n >= 2,
        1 <= r < n,
        cv.len() == n * n,
        cv[cell_index(n, n - 1, n - 1)] == Some(c),
    ensures
        gather_spec(cv, n, 0, 0, r).contains(
            Neighbor { x: (n - 1) as usize, y: (n - 1) as usize, d2: 2, color: c },
        ),
{
    let side = window_side(r);
    let t0 = (r - 1) * side + (r - 1);
    assert(t0 / side == r - 1 && t0 % side == r - 1) by (nonlinear_arith)
        requires
            side == 2 * r + 1,
            r >= 1,
            t0 == (r - 1) * side + (r - 1),
    ;
    assert(slot_ox(r, t0) == -1);
    assert(slot_oy(r, t0) == -1);
    assert(wrap(0 + -1, n as int) == n - 1);
    assert(slot_cell(cv, n, 0, 0, r, t0) == Some(c));
    assert(slot_record(cv, n, 0, 0, r, t0) == (Neighbor {
        x: (n - 1) as usize,
        y: (n - 1) as usize,
        d2: 2,
        color: c,
    }));
    assert(0 <= t0 < side * side) by (nonlinear_arith)
        requires
            side == 2 * r + 1,
            r >= 1,
            t0 == (r - 1) * side + (r - 1),
    ;
    lemma_gather_upto_contains(cv, n, 0, 0, r, (side * side) as nat, t0);
}

/// Scan the wrapped square window of radius r around (x, y) and collect
/// every already-colored cell, with its squared spatial offset, in scan
/// order.  The center cell itself is still Empty while its color is
/// being chosen, so it is never emitted.
pub fn gather(canvas: &Canvas, x: usize, y: usize, r: u8) -> (out: Vec<Neighbor>)
    requires
        canvas.wf(),
        x < canvas.side(),
        y < canvas.side(),
        r < canvas.side(),
    ensures
        out@ == gather_spec(canvas@, canvas.side(), x as int, y as int, r as nat),
        out@.len() <= (2 * r + 1) * (2 * r + 1),
{
    let side: u64 = 2 * (r as u64) + 1;
    proof {
        assert(side * side <= 511 * 511) by (nonlinear_arith)
            requires
                1 <= side <= 511,
        ;
    }
    let side2: u64 = side * side;
    let mut out: Vec<Neighbor> = Vec::new();
    let mut t: u64 = 0;
    let ghost cv = canvas@;
    let ghost n = canvas.side();
    while t < side2
        invariant
            canvas.wf(),
            canvas@ == cv,
            canvas.side() == n,
            x < n,
            y < n,
            r < n,
            side == 2 * r + 1,
            side2 == side * side,
            t <= side2,
            out@ == gather_upto(cv, n, x as int, y as int, r as nat, t as nat),
            out@.len() <= t,
        decreases side2 - t,
    {
        let dxi = (t / side) as u64;
        let dyi = (t % side) as u64;
        proof {
            assert(dxi < side && dyi < side) by (nonlinear_arith)
                requires
                    side >= 1,
                    t < side2,
                    side2 == side * side,
                    dxi == t / side,
                    dyi == t % side,
            ;
        }
        let wx = wrap_coord(x, dxi, r, canvas.side_len());
        let wy = wrap_coord(y, dyi, r, canvas.side_len());
        proof {
            assert(wx == wrap(x + slot_ox(r as nat, t as int), n as int));
            assert(wy == wrap(y + slot_oy(r as nat, t as int), n as int));
        }
        let cell = canvas.get(wx, wy);
        match cell {
            Some(c) => {
                let oxa: u64 = if dxi >= r as u64 {
                    dxi - r as u64
                } else {
                    r as u64 - dxi
                };
                let oya: u64 = if dyi >= r as u64 {
                    dyi - r as u64
                } else {
                    r as u64 - dyi
                };
                proof {
                    let ox = slot_ox(r as nat, t as int);
                    let oy = slot_oy(r as nat, t as int);
                    assert(oxa * oxa == ox * ox && oya * oya == oy * oy && oxa * oxa <= 65025
                        && oya * oya <= 65025) by (nonlinear_arith)
                        requires
                            0 <= oxa <= 255,
                            0 <= oya <= 255,
                            oxa == if ox >= 0 {
                                ox
                            } else {
                                -ox
                            },
                            oya == if oy >= 0 {
                                oy
                            } else {
                                -oy
                            },
                    ;
                }
                let d2: u64 = oxa * oxa + oya * oya;
                out.push(
                    Neighbor { x: wx, y: wy, d2, color: c },
                );
            },
            None => {},
        }
        t = t + 1;
    }
    out
}

/// One wrapped window coordinate: center c, window row/column index i
/// (so the true offset is i - r), on an n-sided grid.
fn wrap_coord(c: usize, i: u64, r: u8, n: usize) -> (w: usize)
    requires
        c < n,
        n * n <= usize::MAX,
        i <= 2 * r,
        r < n,
    ensures
        w < n,
        w == wrap(c + i - r, n as int),
{
    proof {
        assert(n < 0x1_0000_0000) by (nonlinear_arith)
            requires
                n * n <= usize::MAX,
                usize::MAX <= u64::MAX,
        ;
    }
    let c64 = c as u64;
    let n64 = n as u64;
    let r64 = r as u64;
    let s = c64 + i;
    let w64: u64 = if s < r64 {
        s + n64 - r64
    } else {
        let v = s - r64;
        if v >= n64 {
            v - n64
        } else {
            v
        }
    };
    w64 as usize
}

} // verus!
