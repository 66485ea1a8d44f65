use vstd::prelude::*;

use crate::canvas::{cell_index, lemma_cell_index_bound, Canvas};
use crate::color::Color;
use crate::gather::{gather, gather_spec, lemma_gather_d2_pos, window_side};
use crate::refine::{refine_cell, refine_cell_with, refine_spec, NEIGHBORS_MAX};
use crate::rng::shuffle;
use crate::sched::{lemma_radius_lt_n, radius_at, radius_for};

verus! {

/// The position visited at flat step t of the row-major enumeration.
pub open spec fn pos_at(n: nat, t: int) -> (usize, usize) {
    ((t / (n as int)) as usize, (t % (n as int)) as usize)
}

/// All n * n grid positions, row-major.
pub open spec fn all_positions(n: nat) -> Seq<(usize, usize)> {
    Seq::new(n * n, |t: int| pos_at(n, t))
}

/// Positions and their row-major indices determine each other.
pub proof fn lemma_cell_index_inj(n: nat, x1: int, y1: int, x2: int, y2: int)
    requires
        0 <= x1 < n,
        0 <= y1 < n,
        0 <= x2 < n,
        0 <= y2 < n,
        cell_index(n, x1, y1) == cell_index(n, x2, y2),
    ensures
        x1 == x2 && y1 == y2,
{
    vstd::arithmetic::div_mod::lemma_fundamental_div_mod_converse(
        x1 * n + y1,
        n as int,
        x1,
        y1,
    );
    vstd::arithmetic::div_mod::lemma_fundamental_div_mod_converse(
        x2 * n + y2,
        n as int,
        x2,
        y2,
    );
}

/// The row-major enumeration is a permutation: every position of the
/// grid appears, and none appears twice.
pub proof fn lemma_all_positions(n: nat)
    requires
        n * n <= usize::MAX,
    ensures
        all_positions(n).len() == n * n,
        forall|t: int| 0 <= t < n * n ==> (#[trigger] all_positions(n)[t]).0 < n
            && all_positions(n)[t].1 < n,
        all_positions(n).no_duplicates(),
        forall|x: int, y: int| 0 <= x < n && 0 <= y < n ==> #[trigger] all_positions(n).contains(
            (x as usize, y as usize),
        ),
{
    assert forall|t: int| 0 <= t < n * n implies (#[trigger] all_positions(n)[t]).0 < n
        && all_positions(n)[t].1 < n by {
        assert(0 <= t / (n as int) < n && 0 <= t % (n as int) < n) by (nonlinear_arith)
            requires
                n >= 1,
                0 <= t < n * n,
        ;
    }
    assert forall|t1: int, t2: int|
        0 <= t1 < n * n && 0 <= t2 < n * n && t1 != t2 implies all_positions(n)[t1]
        != all_positions(n)[t2] by {
        vstd::arithmetic::div_mod::lemma_fundamental_div_mod(t1, n as int);
        vstd::arithmetic::div_mod::lemma_fundamental_div_mod(t2, n as int);
        assert(0 <= t1 / (n as int) < n && 0 <= t1 % (n as int) < n && 0 <= t2 / (n as int) < n
            && 0 <= t2 % (n as int) < n) by (nonlinear_arith)
            requires
                n >= 1,
                0 <= t1 < n * n,
                0 <= t2 < n * n,
        ;
    }
    assert forall|x: int, y: int| 0 <= x < n && 0 <= y < n implies #[trigger] all_positions(
        n,
    ).contains((x as usize, y as usize)) by {
        let t = x * (n as int) + y;
        lemma_cell_index_bound(n, x, y);
        vstd::arithmetic::div_mod::lemma_fundamental_div_mod_converse(t, n as int, x, y);
        assert(all_positions(n)[t] == (x as usize, y as usize));
    }
}

/// A visitation order the painting pass accepts: one step per cell,
/// every step on the grid, no step twice.
pub open spec fn valid_order(order: Seq<(usize, usize)>, n: nat) -> bool {
    order.len() == n * n && (forall|i: int|
        0 <= i < order.len() ==> (#[trigger] order[i]).0 < n && order[i].1 < n)
        && order.no_duplicates()
}

/// Coverage: a visitation order with the same multiset of entries as
/// the row-major enumeration is a permutation of all n * n positions --
/// no duplicates, no omissions.
pub proof fn lemma_permutation(order: Seq<(usize, usize)>, n: nat)
    requires
        n * n <= usize::MAX,
        order.to_multiset() == all_positions(n).to_multiset(),
    ensures
        valid_order(order, n),
        forall|x: int, y: int| 0 <= x < n && 0 <= y < n ==> #[trigger] order.contains((x as usize, y as usize)),
{
    broadcast use vstd::seq_lib::group_to_multiset_ensures;

    lemma_all_positions(n);
    all_positions(n).lemma_multiset_has_no_duplicates();
    order.lemma_multiset_has_no_duplicates_conv();
    assert(order.len() == order.to_multiset().len());
    assert(all_positions(n).len() == all_positions(n).to_multiset().len());
    assert forall|i: int| 0 <= i < order.len() implies (#[trigger] order[i]).0 < n && order[i].1
        < n by {
        let p = order[i];
        assert(order.contains(p));
        assert(order.to_multiset().count(p) > 0);
        assert(all_positions(n).contains(p));
        let t = choose|t: int| 0 <= t < all_positions(n).len() && all_positions(n)[t] == p;
        assert(all_positions(n)[t].0 < n && all_positions(n)[t].1 < n);
    }
    assert forall|x: int, y: int| 0 <= x < n && 0 <= y < n implies #[trigger] order.contains(
        (x as usize, y as usize),
    ) by {
        let p = (x as usize, y as usize);
        assert(all_positions(n).contains(p));
        assert(all_positions(n).to_multiset().count(p) > 0);
        assert(order.to_multiset().count(p) > 0);
    }
}

/// A uniformly random visitation order: every grid position exactly
/// once, shuffled by the random source.
pub fn shuffled_positions(n: usize) -> (v: Vec<(usize, usize)>)
    requires
        n * n <= usize::MAX,
    ensures
        v@.to_multiset() == all_positions(n as nat).to_multiset(),
        valid_order(v@, n as nat),
        forall|x: int, y: int| 0 <= x < n && 0 <= y < n ==> #[trigger] v@.contains((x as usize, y as usize)),
{
    proof {
        assert(n * n >= 0) by (nonlinear_arith);
    }
    let total = n * n;
    let mut v: Vec<(usize, usize)> = Vec::new();
    let mut t: usize = 0;
    while t < total
        invariant
            total == n * n,
            t <= total,
            v@.len() == t,
            forall|i: int| 0 <= i < t ==> v@[i] == pos_at(n as nat, i),
        decreases total - t,
    {
        proof {
            assert(n >= 1) by (nonlinear_arith)
                requires
                    n * n >= 1,
            ;
        }
        v.push((t / n, t % n));
        t = t + 1;
    }
    proof {
        assert(v@ =~= all_positions(n as nat));
    }
    shuffle(&mut v);
    proof {
        lemma_permutation(v@, n as nat);
    }
    v
}

/// The canvas contents after the first i visitation steps of the pass:
/// each step gathers the colored neighbors of its position within the
/// step's radius, refines a color under the step's seven tie-break
/// choices, and commits it.
pub open spec fn paint_upto(
    n: nat,
    order: Seq<(usize, usize)>,
    picks: Seq<usize>,
    i: nat,
) -> Seq<Option<Color>>
    decreases i,
{
    if i == 0 {
        Seq::new(n * n, |t: int| None::<Color>)
    } else {
        let prev = paint_upto(n, order, picks, (i - 1) as nat);
        let x = order[i - 1].0 as int;
        let y = order[i - 1].1 as int;
        let r = radius_at((i - 1) as nat, n * n, n);
        let nbrs = gather_spec(prev, n, x, y, r);
        let c = refine_spec(nbrs, picks.subrange(7 * (i - 1), 7 * (i - 1) + 7));
        prev.update(cell_index(n, x, y), Some(c))
    }
}

/// The finished canvas of a whole pass.
pub open spec fn paint_spec(n: nat, order: Seq<(usize, usize)>, picks: Seq<usize>) -> Seq<
    Option<Color>,
> {
    paint_upto(n, order, picks, n * n)
}

pub proof fn lemma_paint_upto_len(n: nat, order: Seq<(usize, usize)>, picks: Seq<usize>, i: nat)
    requires
        i <= order.len(),
        forall|j: int| 0 <= j < order.len() ==> (#[trigger] order[j]).0 < n && order[j].1 < n,
    ensures
        paint_upto(n, order, picks, i).len() == n * n,
    decreases i,
{
    if i == 0 {
        assert(paint_upto(n, order, picks, 0) == Seq::new(n * n, |t: int| None::<Color>));
    } else {
        lemma_paint_upto_len(n, order, picks, (i - 1) as nat);
        let prev = paint_upto(n, order, picks, (i - 1) as nat);
        let x = order[i - 1].0 as int;
        let y = order[i - 1].1 as int;
        let r = radius_at((i - 1) as nat, n * n, n);
        let nbrs = gather_spec(prev, n, x, y, r);
        let c = refine_spec(nbrs, picks.subrange(7 * (i - 1), 7 * (i - 1) + 7));
        lemma_cell_index_bound(n, x, y);
        assert(paint_upto(n, order, picks, i) == prev.update(cell_index(n, x, y), Some(c)));
    }
}

/// The pass depends only on the tie-break choices it has read: two
/// traces that agree on the first 7 * i entries paint the same first i
/// steps.
pub proof fn lemma_paint_upto_picks(
    n: nat,
    order: Seq<(usize, usize)>,
    p1: Seq<usize>,
    p2: Seq<usize>,
    i: nat,
)
    requires
        7 * i <= p1.len(),
        7 * i <= p2.len(),
        forall|m: int| 0 <= m < 7 * i ==> p1[m] == p2[m],
    ensures
        paint_upto(n, order, p1, i) == paint_upto(n, order, p2, i),
    decreases i,
{
    if i > 0 {
        lemma_paint_upto_picks(n, order, p1, p2, (i - 1) as nat);
        assert(p1.subrange(7 * (i - 1), 7 * (i - 1) + 7) =~= p2.subrange(
            7 * (i - 1),
            7 * (i - 1) + 7,
        ));
    }
}

/// A cell is Filled after i steps exactly when its position was one of
/// the first i visited: the pass writes where it is told, and nowhere
/// else.
pub proof fn lemma_paint_upto_filled(
    n: nat,
    order: Seq<(usize, usize)>,
    picks: Seq<usize>,
    i: nat,
)
    requires
        i <= order.len(),
        forall|j: int| 0 <= j < order.len() ==> (#[trigger] order[j]).0 < n && order[j].1 < n,
    ensures
        forall|idx: int| 0 <= idx < n * n ==> ((paint_upto(n, order, picks, i)[idx] is Some)
            <==> exists|j: int| 0 <= j < i && cell_index(
                n,
                (#[trigger] order[j]).0 as int,
                order[j].1 as int,
            ) == idx),
    decreases i,
{
    lemma_paint_upto_len(n, order, picks, i);
    if i > 0 {
        lemma_paint_upto_filled(n, order, picks, (i - 1) as nat);
        lemma_paint_upto_len(n, order, picks, (i - 1) as nat);
        let prev = paint_upto(n, order, picks, (i - 1) as nat);
        let cur = paint_upto(n, order, picks, i);
        let ci = cell_index(n, order[i - 1].0 as int, order[i - 1].1 as int);
        lemma_cell_index_bound(n, order[i - 1].0 as int, order[i - 1].1 as int);
        assert forall|idx: int| 0 <= idx < n * n implies ((cur[idx] is Some) <==> exists|j: int|
            0 <= j < i && cell_index(n, (#[trigger] order[j]).0 as int, order[j].1 as int)
                == idx) by {
            if idx == ci {
                assert(cur[idx] is Some);
                assert(cell_index(n, order[i - 1].0 as int, order[i - 1].1 as int) == idx);
            } else {
                assert(cur[idx] == prev[idx]);
                if cur[idx] is Some {
                    let j = choose|j: int|
                        0 <= j < i - 1 && cell_index(
                            n,
                            (#[trigger] order[j]).0 as int,
                            order[j].1 as int,
                        ) == idx;
                    assert(0 <= j < i && cell_index(n, order[j].0 as int, order[j].1 as int)
                        == idx);
                } else {
                    if exists|j: int|
                        0 <= j < i && cell_index(
                            n,
                            (#[trigger] order[j]).0 as int,
                            order[j].1 as int,
                        ) == idx {
                        let j = choose|j: int|
                            0 <= j < i && cell_index(
                                n,
                                (#[trigger] order[j]).0 as int,
                                order[j].1 as int,
                            ) == idx;
                        assert(j != i - 1);
                        assert(0 <= j < i - 1 && cell_index(
                            n,
                            order[j].0 as int,
                            order[j].1 as int,
                        ) == idx);
                        assert(prev[idx] is Some);
                        assert(false);
                    }
                }
            }
        }
    }
}

/// Before its own step, a position's cell is still Empty: no position
/// is visited twice.
pub proof fn lemma_cell_none_before(
    n: nat,
    order: Seq<(usize, usize)>,
    picks: Seq<usize>,
    m: nat,
)
    requires
        valid_order(order, n),
        m < n * n,
    ensures
        paint_upto(n, order, picks, m)[cell_index(
            n,
            order[m as int].0 as int,
            order[m as int].1 as int,
        )] is None,
{
    lemma_paint_upto_filled(n, order, picks, m);
    lemma_paint_upto_len(n, order, picks, m);
    let ci = cell_index(n, order[m as int].0 as int, order[m as int].1 as int);
    lemma_cell_index_bound(n, order[m as int].0 as int, order[m as int].1 as int);
    if paint_upto(n, order, picks, m)[ci] is Some {
        let j = choose|j: int|
            0 <= j < m && cell_index(n, (#[trigger] order[j]).0 as int, order[j].1 as int) == ci;
        lemma_cell_index_inj(
            n,
            order[j].0 as int,
            order[j].1 as int,
            order[m as int].0 as int,
            order[m as int].1 as int,
        );
        assert(order[j] == order[m as int]);
        assert(false);
    }
}

/// Write-once: once a cell is Filled, the stored color never changes
/// for the remainder of the pass.
pub proof fn lemma_write_once(
    n: nat,
    order: Seq<(usize, usize)>,
    picks: Seq<usize>,
    i: nat,
    j: nat,
    idx: int,
)
    requires
        valid_order(order, n),
        i <= j <= n * n,
        0 <= idx < n * n,
        paint_upto(n, order, picks, i)[idx] is Some,
    ensures
        paint_upto(n, order, picks, j)[idx] == paint_upto(n, order, picks, i)[idx],
    decreases j,
{
    if j > i {
        lemma_write_once(n, order, picks, i, (j - 1) as nat, idx);
        lemma_paint_upto_len(n, order, picks, (j - 1) as nat);
        let prev = paint_upto(n, order, picks, (j - 1) as nat);
        let ci = cell_index(n, order[j - 1].0 as int, order[j - 1].1 as int);
        lemma_cell_none_before(n, order, picks, (j - 1) as nat);
        assert(prev[ci] is None);
        assert(ci != idx);
        let x = order[j - 1].0 as int;
        let y = order[j - 1].1 as int;
        let r = radius_at((j - 1) as nat, n * n, n);
        let nbrs = gather_spec(prev, n, x, y, r);
        let c = refine_spec(nbrs, picks.subrange(7 * (j - 1), 7 * (j - 1) + 7));
        lemma_cell_index_bound(n, x, y);
        assert(paint_upto(n, order, picks, j) == prev.update(ci, Some(c)));
        assert(paint_upto(n, order, picks, j)[idx] == prev[idx]);
    }
}

/// Range: every Filled cell of a pass holds a color whose channels lie
/// within [0, 255] -- as 8-bit values they must -- and in fact at most
/// 254, the sum of the seven bisection widths.
pub proof fn lemma_channel_range(n: nat, order: Seq<(usize, usize)>, picks: Seq<usize>, i: nat)
    requires
        i <= order.len(),
        forall|j: int| 0 <= j < order.len() ==> (#[trigger] order[j]).0 < n && order[j].1 < n,
    ensures
        forall|idx: int|
            0 <= idx < n * n && (#[trigger] paint_upto(n, order, picks, i)[idx]) is Some ==> {
                let c = paint_upto(n, order, picks, i)[idx]->Some_0;
                c.r <= 254 && c.g <= 254 && c.b <= 254
            },
    decreases i,
{
    lemma_paint_upto_len(n, order, picks, i);
    if i > 0 {
        lemma_channel_range(n, order, picks, (i - 1) as nat);
        lemma_paint_upto_len(n, order, picks, (i - 1) as nat);
        let prev = paint_upto(n, order, picks, (i - 1) as nat);
        let x = order[i - 1].0 as int;
        let y = order[i - 1].1 as int;
        let r = radius_at((i - 1) as nat, n * n, n);
        let nbrs = gather_spec(prev, n, x, y, r);
        let pk = picks.subrange(7 * (i - 1), 7 * (i - 1) + 7);
        crate::refine::lemma_run_rounds_range(nbrs, pk, 7);
        lemma_cell_index_bound(n, x, y);
        assert(paint_upto(n, order, picks, i) == prev.update(
            cell_index(n, x, y),
            Some(refine_spec(nbrs, pk)),
        ));
        assert forall|idx: int|
            0 <= idx < n * n && (#[trigger] paint_upto(n, order, picks, i)[idx]) is Some implies {
            let c = paint_upto(n, order, picks, i)[idx]->Some_0;
            c.r <= 254 && c.g <= 254 && c.b <= 254
        } by {
            if idx != cell_index(n, x, y) {
                assert(paint_upto(n, order, picks, i)[idx] == prev[idx]);
            }
        }
    }
}

/// After a covering pass no cell is left Empty: the internal invariant
/// that conversion to the output grid relies on.
pub proof fn lemma_paint_covered(n: nat, order: Seq<(usize, usize)>, picks: Seq<usize>)
    requires
        n * n <= usize::MAX,
        valid_order(order, n),
        forall|x: int, y: int| 0 <= x < n && 0 <= y < n ==> #[trigger] order.contains((x as usize, y as usize)),
    ensures
        forall|idx: int| 0 <= idx < n * n ==> paint_spec(n, order, picks)[idx] is Some,
{
    lemma_paint_upto_filled(n, order, picks, n * n);
    assert forall|idx: int| 0 <= idx < n * n implies paint_spec(n, order, picks)[idx] is Some by {
        let x = idx / (n as int);
        let y = idx % (n as int);
        assert(0 <= x < n && 0 <= y < n && x * n + y == idx) by (nonlinear_arith)
            requires
                n >= 1,
                0 <= idx < n * n,
                x == idx / (n as int),
                y == idx % (n as int),
        ;
        assert(n <= n * n) by (nonlinear_arith)
            requires
                n >= 1,
        ;
        assert(order.contains((x as usize, y as usize)));
        let j = choose|j: int| 0 <= j < order.len() && order[j] == (x as usize, y as usize);
        assert(cell_index(n, (#[trigger] order[j]).0 as int, order[j].1 as int) == idx);
    }
}

/// One full pass under a given visitation order and a given tie-break
/// trace (seven choices per cell).  The result is exactly the
/// specified pass: with the order and the trace fixed, repeated runs
/// rebuild the identical grid.
pub fn paint_with_choices(n: usize, order: &Vec<(usize, usize)>, picks: &Vec<usize>) -> (g: Canvas)
    requires
        n * n <= usize::MAX,
        valid_order(order@, n as nat),
        picks@.len() == 7 * (n * n),
    ensures
        g.wf(),
        g.side() == n,
        g@ == paint_spec(n as nat, order@, picks@),
{
    let mut g = Canvas::new(n);
    let total = order.len();
    let plen = picks.len();
    let mut i: usize = 0;
    proof {
        lemma_paint_upto_len(n as nat, order@, picks@, 0);
        assert(g@ =~= paint_upto(n as nat, order@, picks@, 0));
    }
    while i < total
        invariant
            g.wf(),
            g.side() == n,
            n * n <= usize::MAX,
            total == n * n,
            plen == picks@.len() == 7 * (n * n),
            valid_order(order@, n as nat),
            i <= total,
            g@ == paint_upto(n as nat, order@, picks@, i as nat),
        decreases total - i,
    {
        let x = order[i].0;
        let y = order[i].1;
        proof {
            lemma_paint_upto_len(n as nat, order@, picks@, i as nat);
            lemma_cell_none_before(n as nat, order@, picks@, i as nat);
            assert(7 * i + 7 <= 7 * (n * n)) by (nonlinear_arith)
                requires
                    i + 1 <= n * (n as int),
            ;
        }
        let step = step_cell(&g, x, y, i);
        let c = refine_cell_with(&step.1, picks, 7 * i);
        g.fill(x, y, c);
        i = i + 1;
    }
    g
}

/// The shared step head: the radius of step i and the neighbors
/// gathered around the position (x, y) it visits, which must still be
/// Empty -- the current cell never scores against itself.
fn step_cell(g: &Canvas, x: usize, y: usize, i: usize) -> (res: (u8, Vec<
    crate::gather::Neighbor,
>))
    requires
        g.wf(),
        x < g.side(),
        y < g.side(),
        i < g.side() * g.side(),
        g@[cell_index(g.side(), x as int, y as int)] is None,
    ensures
        res.0 == radius_at(i as nat, g.side() * g.side(), g.side()),
        res.1@ == gather_spec(g@, g.side(), x as int, y as int, res.0 as nat),
        crate::refine::nbrs_ok(res.1@),
{
    let n = g.side_len();
    let total = n * n;
    let r = radius_for(i, total, n);
    proof {
        assert(n >= 1) by (nonlinear_arith)
            requires
                n * n >= 1,
        ;
        lemma_radius_lt_n(i as nat, total as nat, n as nat);
    }
    let nbrs = gather(g, x, y, r);
    proof {
        lemma_gather_d2_pos(
            g@,
            g.side(),
            x as int,
            y as int,
            r as nat,
            (window_side(r as nat) * window_side(r as nat)) as nat,
        );
        assert((2 * r + 1) * (2 * r + 1) <= NEIGHBORS_MAX) by (nonlinear_arith)
            requires
                0 <= r <= 255,
        ;
    }
    (r, nbrs)
}

/// One full pass over a uniformly random visitation order with
/// uniformly random tie-breaks.  Beside the finished canvas it returns
/// the order and the trace of tie-break choices actually used: the
/// canvas is exactly the specified pass under them (so a replay through
/// paint_with_choices rebuilds it), the order is a permutation of all
/// n * n positions, and no cell is left Empty.
pub fn paint(n: usize) -> (res: (Canvas, Vec<(usize, usize)>, Vec<usize>))
    requires
        n * n <= usize::MAX,
    ensures
        res.0.wf(),
        res.0.side() == n,
        res.1@.to_multiset() == all_positions(n as nat).to_multiset(),
        valid_order(res.1@, n as nat),
        res.2@.len() == 7 * (n * n),
        res.0@ == paint_spec(n as nat, res.1@, res.2@),
        forall|idx: int| 0 <= idx < n * n ==> res.0@[idx] is Some,
{
    let order = shuffled_positions(n);
    let mut g = Canvas::new(n);
    let mut picks: Vec<usize> = Vec::new();
    let total = order.len();
    let mut i: usize = 0;
    proof {
        lemma_paint_upto_len(n as nat, order@, picks@, 0);
        assert(g@ =~= paint_upto(n as nat, order@, picks@, 0));
    }
    while i < total
        invariant
            g.wf(),
            g.side() == n,
            n * n <= usize::MAX,
            total == n * n,
            valid_order(order@, n as nat),
            i <= total,
            picks@.len() == 7 * (i as int),
            g@ == paint_upto(n as nat, order@, picks@, i as nat),
        decreases total - i,
    {
        let x = order[i].0;
        let y = order[i].1;
        proof {
            lemma_paint_upto_len(n as nat, order@, picks@, i as nat);
            lemma_cell_none_before(n as nat, order@, picks@, i as nat);
        }
        let step = step_cell(&g, x, y, i);
        let rr = refine_cell(&step.1);
        let c = rr.0;
        let mut tr = rr.1;
        proof {
            let newpicks = picks@ + tr@;
            lemma_paint_upto_picks(n as nat, order@, picks@, newpicks, i as nat);
            assert(newpicks.subrange(7 * (i as int), 7 * (i as int) + 7) =~= tr@);
        }
        picks.append(&mut tr);
        g.fill(x, y, c);
        i = i + 1;
    }
    proof {
        lemma_paint_covered(n as nat, order@, picks@);
    }
    (g, order, picks)
}

} // verus!
