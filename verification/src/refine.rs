use vstd::prelude::*;

use crate::color::{color_dist_sq, color_dist_sq_exec, Color};
use crate::gather::Neighbor;
use crate::rng::rand_below;

verus! {

/// Fixed-point scale of the scoring terms: each neighbor's squared
/// color difference is scaled by this before the integer division by
/// its squared spatial offset, so that far neighbors still contribute
/// with fine granularity.
pub const SCALE: u64 = 1048576;

/// An upper bound on one scoring term: 195075 (the largest squared
/// color difference, 3 * 255 * 255) times SCALE.
pub const TERM_MAX: u64 = 204550963200;

/// The most neighbor records one window can emit: (2 * 255 + 1) squared.
pub const NEIGHBORS_MAX: u64 = 261121;

/// Bit c (0, 1 or 2, one per color channel) of candidate index p.
pub open spec fn octant_bit(p: int, c: int) -> int {
    if c == 0 {
        p % 2
    } else if c == 1 {
        (p / 2) % 2
    } else {
        (p / 4) % 2
    }
}

/// The color probed for candidate p in a round of the given width: each
/// channel moves by the candidate's bit times the width, plus the
/// half-width bisection midpoint offset used only for scoring.
pub open spec fn probe_color(cur: Color, w: u8, p: int) -> Color {
    Color {
        r: (cur.r + octant_bit(p, 0) * w + w / 2) as u8,
        g: (cur.g + octant_bit(p, 1) * w + w / 2) as u8,
        b: (cur.b + octant_bit(p, 2) * w + w / 2) as u8,
    }
}

/// The color committed for the winning candidate p: each channel moves
/// by the bit times the width, without the probing midpoint offset.
pub open spec fn commit_color(cur: Color, w: u8, p: int) -> Color {
    Color {
        r: (cur.r + octant_bit(p, 0) * w) as u8,
        g: (cur.g + octant_bit(p, 1) * w) as u8,
        b: (cur.b + octant_bit(p, 2) * w) as u8,
    }
}

/// The distance-weighted disagreement of a candidate color with the
/// gathered neighbors: the sum over all records of the squared color
/// difference, scaled by SCALE and divided by the squared spatial
/// offset, so nearer neighbors weigh more.  A candidate of maximal
/// score is one of minimal penalty.
pub open spec fn penalty_spec(cand: Color, nbrs: Seq<Neighbor>) -> int
    decreases nbrs.len(),
{
    if nbrs.len() == 0 {
        0
    } else {
        let nb = nbrs.last();
        let term = if nb.d2 == 0 {
            0
        } else {
            color_dist_sq(cand, nb.color) * (SCALE as int) / (nb.d2 as int)
        };
        penalty_spec(cand, nbrs.drop_last()) + term
    }
}

/// The eight candidate penalties of one round.
pub open spec fn penalties_spec(cur: Color, w: u8, nbrs: Seq<Neighbor>) -> Seq<int> {
    Seq::new(8, |p: int| penalty_spec(probe_color(cur, w, p), nbrs))
}

/// The least value of a nonempty sequence.
pub open spec fn seq_min(s: Seq<int>) -> int
    recommends
        s.len() >= 1,
    decreases s.len(),
{
    if s.len() <= 1 {
        s[0]
    } else {
        let m = seq_min(s.drop_last());
        if s.last() < m {
            s.last()
        } else {
            m
        }
    }
}

/// The indices below k whose value ties for the least of the whole
/// sequence, in increasing order.
pub open spec fn tied_upto(s: Seq<int>, k: nat) -> Seq<usize>
    decreases k,
{
    if k == 0 {
        Seq::empty()
    } else {
        let prev = tied_upto(s, (k - 1) as nat);
        if s[k - 1] == seq_min(s) {
            prev.push((k - 1) as usize)
        } else {
            prev
        }
    }
}

/// All indices tying for the least value, in increasing order.
pub open spec fn tied(s: Seq<int>) -> Seq<usize> {
    tied_upto(s, s.len())
}

/// The index selected by one tie-break choice: the pick is reduced
/// modulo the number of tied indices, so every choice value selects a
/// tied index of least penalty.
pub open spec fn chosen(s: Seq<int>, pick: usize) -> usize
    recommends
        s.len() >= 1,
{
    let t = tied(s);
    t[(pick as int) % (t.len() as int)]
}

/// One refinement round: score the eight candidates against the
/// neighbors, keep a least-penalty candidate selected by the tie-break
/// pick, and commit its per-channel moves.
pub open spec fn round_spec(cur: Color, nbrs: Seq<Neighbor>, w: u8, pick: usize) -> Color {
    commit_color(cur, w, chosen(penalties_spec(cur, w, nbrs), pick) as int)
}

/// The search width of round k: 128, 64, 32, 16, 8, 4, 2.
pub open spec fn width_at(k: int) -> u8 {
    if k == 0 {
        128
    } else if k == 1 {
        64
    } else if k == 2 {
        32
    } else if k == 3 {
        16
    } else if k == 4 {
        8
    } else if k == 5 {
        4
    } else {
        2
    }
}

/// The color reached after the first k refinement rounds, starting from
/// black, with picks[0..k] as the tie-break choices.
pub open spec fn run_rounds(nbrs: Seq<Neighbor>, picks: Seq<usize>, k: nat) -> Color
    decreases k,
{
    if k == 0 {
        crate::color::black()
    } else {
        round_spec(run_rounds(nbrs, picks, (k - 1) as nat), nbrs, width_at(k - 1), picks[k - 1])
    }
}

/// The final color of a cell with the given gathered neighbors, under
/// the seven tie-break choices picks[0..7].
pub open spec fn refine_spec(nbrs: Seq<Neighbor>, picks: Seq<usize>) -> Color {
    run_rounds(nbrs, picks, 7)
}

/// What a channel can have accumulated when round k starts: the widths
/// already committed sum to 256 minus twice the coming width, and to
/// 254 once all seven rounds have run.
pub open spec fn channel_budget(k: int) -> int {
    if k >= 7 {
        254
    } else {
        256 - 2 * width_at(k)
    }
}

/// Range: whatever the neighbors and whatever the tie-break choices,
/// each channel stays within its width budget -- after the whole
/// refinement, at most 254, and in particular within the 8-bit range.
pub proof fn lemma_run_rounds_range(nbrs: Seq<Neighbor>, picks: Seq<usize>, k: nat)
    requires
        k <= 7,
    ensures
        run_rounds(nbrs, picks, k).r <= channel_budget(k as int),
        run_rounds(nbrs, picks, k).g <= channel_budget(k as int),
        run_rounds(nbrs, picks, k).b <= channel_budget(k as int),
    decreases k,
{
    if k > 0 {
        lemma_run_rounds_range(nbrs, picks, (k - 1) as nat);
        let prev = run_rounds(nbrs, picks, (k - 1) as nat);
        let w = width_at(k - 1);
        let p = chosen(penalties_spec(prev, w, nbrs), picks[k - 1]) as int;
        assert(0 <= octant_bit(p, 0) <= 1);
        assert(0 <= octant_bit(p, 1) <= 1);
        assert(0 <= octant_bit(p, 2) <= 1);
        assert(run_rounds(nbrs, picks, k) == commit_color(prev, w, p));
    }
}

/// run_rounds reads only the first k picks.
pub proof fn lemma_run_rounds_prefix(nbrs: Seq<Neighbor>, p1: Seq<usize>, p2: Seq<usize>, k: nat)
    requires
        forall|i: int| 0 <= i < k ==> p1[i] == p2[i],
    ensures
        run_rounds(nbrs, p1, k) == run_rounds(nbrs, p2, k),
    decreases k,
{
    if k > 0 {
        lemma_run_rounds_prefix(nbrs, p1, p2, (k - 1) as nat);
    }
}

/// Every well-formed neighbor set admits a scoring pass: the penalty of
/// a candidate color, exactly as specified, with no overflow.
pub fn penalty(cand: Color, nbrs: &Vec<Neighbor>) -> (s: u64)
    requires
        nbrs@.len() <= NEIGHBORS_MAX,
        forall|i: int| 0 <= i < nbrs@.len() ==> (#[trigger] nbrs@[i]).d2 >= 1,
    ensures
        s == penalty_spec(cand, nbrs@),
        s <= nbrs@.len() * TERM_MAX,
{
    let len = nbrs.len();
    let mut acc: u64 = 0;
    let mut i: usize = 0;
    while i < len
        invariant
            len == nbrs@.len() <= NEIGHBORS_MAX,
            forall|j: int| 0 <= j < nbrs@.len() ==> (#[trigger] nbrs@[j]).d2 >= 1,
            i <= len,
            acc == penalty_spec(cand, nbrs@.take(i as int)),
            acc <= i * TERM_MAX,
        decreases len - i,
    {
        let nb = nbrs[i];
        let cds = color_dist_sq_exec(cand, nb.color);
        proof {
            assert(cds * SCALE <= 195075 * (SCALE as int)) by (nonlinear_arith)
                requires
                    0 <= cds <= 195075,
            ;
            assert((cds as int) * (SCALE as int) / (nb.d2 as int) <= (cds as int) * (
            SCALE as int)) by (nonlinear_arith)
                requires
                    nb.d2 >= 1,
                    0 <= (cds as int) * (SCALE as int),
            ;
            assert((cds as int) * (SCALE as int) / (nb.d2 as int) >= 0) by (nonlinear_arith)
                requires
                    nb.d2 >= 1,
                    0 <= (cds as int) * (SCALE as int),
            ;
            assert(acc + TERM_MAX <= (i + 1) * TERM_MAX) by (nonlinear_arith)
                requires
                    acc <= i * (TERM_MAX as int),
            ;
            assert((i + 1) * (TERM_MAX as int) <= (NEIGHBORS_MAX as int) * (TERM_MAX as int))
                by (nonlinear_arith)
                requires
                    0 <= i,
                    i + 1 <= NEIGHBORS_MAX,
            ;
            assert(nbrs@.take(i + 1).drop_last() =~= nbrs@.take(i as int));
            assert(nbrs@.take(i + 1).last() == nbrs@[i as int]);
        }
        let term = cds * SCALE / nb.d2;
        acc = acc + term;
        i = i + 1;
    }
    proof {
        assert(nbrs@.take(len as int) =~= nbrs@);
    }
    acc
}

/// The eight candidate penalties of one round, in candidate order.
fn penalties8(cur: Color, w: u8, nbrs: &Vec<Neighbor>) -> (pen: Vec<u64>)
    requires
        nbrs@.len() <= NEIGHBORS_MAX,
        forall|i: int| 0 <= i < nbrs@.len() ==> (#[trigger] nbrs@[i]).d2 >= 1,
        round_ok(cur, w),
    ensures
        pen@.len() == 8,
        forall|p: int| 0 <= p < 8 ==> pen@[p] == penalties_spec(cur, w, nbrs@)[p],
{
    let mut pen: Vec<u64> = Vec::new();
    let mut p: usize = 0;
    while p < 8
        invariant
            nbrs@.len() <= NEIGHBORS_MAX,
            forall|i: int| 0 <= i < nbrs@.len() ==> (#[trigger] nbrs@[i]).d2 >= 1,
            round_ok(cur, w),
            p <= 8,
            pen@.len() == p,
            forall|q: int| 0 <= q < p ==> pen@[q] == penalties_spec(cur, w, nbrs@)[q],
        decreases 8 - p,
    {
        let cand = probe(cur, w, p);
        let s = penalty(cand, nbrs);
        pen.push(s);
        p = p + 1;
    }
    pen
}

/// Both probing and committing stay in channel range while each channel
/// is at most 256 minus twice the width: the widths already committed
/// sum to at most that, and the probe offset adds at most w + w/2.
pub open spec fn round_ok(cur: Color, w: u8) -> bool {
    2 <= w <= 128 && cur.r + 2 * w <= 256 && cur.g + 2 * w <= 256 && cur.b + 2 * w <= 256
}

/// The probed candidate color of one octant index.
fn probe(cur: Color, w: u8, p: usize) -> (c: Color)
    requires
        p < 8,
        round_ok(cur, w),
    ensures
        c == probe_color(cur, w, p as int),
{
    let b0: u8 = (p % 2) as u8;
    let b1: u8 = ((p / 2) % 2) as u8;
    let b2: u8 = ((p / 4) % 2) as u8;
    proof {
        lemma_bit_mul_le(b0 as int, w as int);
        lemma_bit_mul_le(b1 as int, w as int);
        lemma_bit_mul_le(b2 as int, w as int);
    }
    Color {
        r: cur.r + b0 * w + w / 2,
        g: cur.g + b1 * w + w / 2,
        b: cur.b + b2 * w + w / 2,
    }
}

/// A zero-or-one bit times the width is at most the width.
proof fn lemma_bit_mul_le(b: int, w: int)
    requires
        0 <= b <= 1,
        0 <= w,
    ensures
        0 <= b * w <= w,
{
    assert(0 <= b * w <= w) by (nonlinear_arith)
        requires
            0 <= b <= 1,
            0 <= w,
    ;
}

/// The committed color of the winning octant index: the probing
/// midpoint offset is left out, narrowing the live interval.
fn commit(cur: Color, w: u8, p: usize) -> (c: Color)
    requires
        p < 8,
        round_ok(cur, w),
    ensures
        c == commit_color(cur, w, p as int),
        c.r <= cur.r + w,
        c.g <= cur.g + w,
        c.b <= cur.b + w,
{
    let b0: u8 = (p % 2) as u8;
    let b1: u8 = ((p / 2) % 2) as u8;
    let b2: u8 = ((p / 4) % 2) as u8;
    proof {
        lemma_bit_mul_le(b0 as int, w as int);
        lemma_bit_mul_le(b1 as int, w as int);
        lemma_bit_mul_le(b2 as int, w as int);
    }
    Color { r: cur.r + b0 * w, g: cur.g + b1 * w, b: cur.b + b2 * w }
}

/// The least value is attained at some index.
proof fn lemma_seq_min_attained(s: Seq<int>)
    requires
        s.len() >= 1,
    ensures
        exists|i: int| 0 <= i < s.len() && s[i] == seq_min(s),
    decreases s.len(),
{
    if s.len() == 1 {
        assert(s[0] == seq_min(s));
    } else {
        lemma_seq_min_attained(s.drop_last());
        if s.last() < seq_min(s.drop_last()) {
            assert(s[s.len() - 1] == seq_min(s));
        } else {
            let i = choose|i: int|
                0 <= i < s.drop_last().len() && s.drop_last()[i] == seq_min(s.drop_last());
            assert(s[i] == seq_min(s));
        }
    }
}

/// The least value is a lower bound.
proof fn lemma_seq_min_le(s: Seq<int>, i: int)
    requires
        0 <= i < s.len(),
    ensures
        seq_min(s) <= s[i],
    decreases s.len(),
{
    if s.len() > 1 && i < s.len() - 1 {
        lemma_seq_min_le(s.drop_last(), i);
    }
}

/// Tied indices are in range, carry the least value, and every index
/// with the least value below the cutoff is among them.
proof fn lemma_tied_upto_props(s: Seq<int>, k: nat)
    requires
        k <= s.len() <= usize::MAX,
    ensures
        forall|j: int| 0 <= j < tied_upto(s, k).len() ==> (#[trigger] tied_upto(s, k)[j]) < k
            && s[tied_upto(s, k)[j] as int] == seq_min(s),
        forall|i: int| 0 <= i < k && s[i] == seq_min(s) ==> tied_upto(s, k).contains(i as usize),
    decreases k,
{
    if k > 0 {
        lemma_tied_upto_props(s, (k - 1) as nat);
        let prev = tied_upto(s, (k - 1) as nat);
        assert forall|j: int| 0 <= j < tied_upto(s, k).len() implies (#[trigger] tied_upto(s, k)[j])
            < k && s[tied_upto(s, k)[j] as int] == seq_min(s) by {
            if j < prev.len() {
                assert(tied_upto(s, k)[j] == prev[j]);
            }
        }
        if s[k - 1] == seq_min(s) {
            assert forall|i: int| 0 <= i < k && s[i] == seq_min(s) implies tied_upto(
                s,
                k,
            ).contains(i as usize) by {
                if i < k - 1 {
                    let j = choose|j: int| 0 <= j < prev.len() && prev[j] == i as usize;
                    assert(tied_upto(s, k)[j] == i as usize);
                } else {
                    assert(tied_upto(s, k).last() == i as usize);
                }
            }
        } else {
            assert forall|i: int| 0 <= i < k && s[i] == seq_min(s) implies tied_upto(
                s,
                k,
            ).contains(i as usize) by {
                let j = choose|j: int| 0 <= j < prev.len() && prev[j] == i as usize;
                assert(tied_upto(s, k)[j] == i as usize);
            }
        }
    }
}

/// At least one index ties for the least value.
pub proof fn lemma_tied_nonempty(s: Seq<int>)
    requires
        1 <= s.len() <= usize::MAX,
    ensures
        tied(s).len() >= 1,
        forall|j: int| 0 <= j < tied(s).len() ==> (#[trigger] tied(s)[j]) < s.len()
            && s[tied(s)[j] as int] == seq_min(s),
{
    lemma_seq_min_attained(s);
    lemma_tied_upto_props(s, s.len());
    let i = choose|i: int| 0 <= i < s.len() && s[i] == seq_min(s);
    assert(tied(s).contains(i as usize));
}

/// View of an exec penalty vector as the mathematical sequence the
/// specifications speak of.
pub open spec fn ints(s: Seq<u64>) -> Seq<int> {
    s.map_values(|x: u64| x as int)
}

/// The indices of the penalty vector tying for its least value, in
/// increasing order.
fn tied_indices(pen: &Vec<u64>) -> (t: Vec<usize>)
    requires
        pen@.len() >= 1,
    ensures
        t@ == tied(ints(pen@)),
        t@.len() >= 1,
        pen@.len() <= usize::MAX,
        forall|j: int| 0 <= j < t@.len() ==> (#[trigger] t@[j]) < pen@.len(),
{
    let ghost s = ints(pen@);
    let len = pen.len();
    let mut m: u64 = pen[0];
    let mut i: usize = 1;
    proof {
        assert(s.take(1).len() == 1);
        assert(s.take(1)[0] == s[0]);
    }
    while i < len
        invariant
            s == ints(pen@),
            len == pen@.len(),
            1 <= i <= len,
            m == seq_min(s.take(i as int)),
        decreases len - i,
    {
        proof {
            assert(s.take(i + 1).drop_last() =~= s.take(i as int));
            assert(s.take(i + 1).last() == s[i as int]);
        }
        if pen[i] < m {
            m = pen[i];
        }
        i = i + 1;
    }
    proof {
        assert(s.take(len as int) =~= s);
    }
    let mut t: Vec<usize> = Vec::new();
    let mut k: usize = 0;
    while k < len
        invariant
            s == ints(pen@),
            len == pen@.len(),
            k <= len,
            m == seq_min(s),
            t@ == tied_upto(s, k as nat),
        decreases len - k,
    {
        if pen[k] == m {
            t.push(k);
        }
        k = k + 1;
    }
    proof {
        lemma_seq_min_attained(s);
        lemma_tied_upto_props(s, s.len());
        let i0 = choose|i0: int| 0 <= i0 < s.len() && s[i0] == seq_min(s);
        assert(tied(s).contains(i0 as usize));
    }
    t
}

/// The general uniform-tie-break argmax of the round's scores (equally:
/// argmin of the penalties), for any number of candidates: collect
/// every index achieving the best score, then pick uniformly at random
/// among them.  Whatever the random choice, the returned index carries
/// a least penalty.
pub fn best(pen: &Vec<u64>) -> (p: usize)
    requires
        pen@.len() >= 1,
    ensures
        p < pen@.len(),
        forall|i: int| 0 <= i < pen@.len() ==> pen@[p as int] <= pen@[i],
{
    let t = tied_indices(pen);
    let j = rand_below(t.len());
    let p = t[j];
    proof {
        lemma_tied_nonempty(ints(pen@));
        assert(ints(pen@)[p as int] == seq_min(ints(pen@)));
        assert forall|i: int| 0 <= i < pen@.len() implies pen@[p as int] <= pen@[i] by {
            lemma_seq_min_le(ints(pen@), i);
        }
    }
    p
}

/// The same selection under an explicit tie-break choice: pick is
/// reduced modulo the number of tied indices, so any fixed choice trace
/// replays to the same, least-penalty index.
pub fn best_with_pick(pen: &Vec<u64>, pick: usize) -> (p: usize)
    requires
        pen@.len() >= 1,
    ensures
        p == chosen(ints(pen@), pick),
        p < pen@.len(),
        forall|i: int| 0 <= i < pen@.len() ==> pen@[p as int] <= pen@[i],
{
    let t = tied_indices(pen);
    let j = pick % t.len();
    let p = t[j];
    proof {
        lemma_tied_nonempty(ints(pen@));
        assert(ints(pen@)[p as int] == seq_min(ints(pen@)));
        assert forall|i: int| 0 <= i < pen@.len() implies pen@[p as int] <= pen@[i] by {
            lemma_seq_min_le(ints(pen@), i);
        }
    }
    p
}

/// A neighbor set the refiner accepts: few enough records for the
/// scoring sums to fit, and no record at the center itself (the center
/// is still Empty while its color is chosen, so its squared offset is
/// never zero).
pub open spec fn nbrs_ok(nbrs: Seq<Neighbor>) -> bool {
    nbrs.len() <= NEIGHBORS_MAX && forall|i: int|
        0 <= i < nbrs.len() ==> (#[trigger] nbrs[i]).d2 >= 1
}

/// Run the seven refinement rounds under an explicit tie-break trace:
/// picks[off..off+7] are the seven choices.  The result is exactly the
/// specified refinement -- replaying the same neighbors and the same
/// choices always rebuilds the same color -- and each channel stays at
/// most 254, the sum of all seven widths.
pub fn refine_cell_with(nbrs: &Vec<Neighbor>, picks: &Vec<usize>, off: usize) -> (c: Color)
    requires
        nbrs_ok(nbrs@),
        off + 7 <= picks@.len(),
    ensures
        c == refine_spec(nbrs@, picks@.subrange(off as int, off as int + 7)),
        c.r <= 254 && c.g <= 254 && c.b <= 254,
{
    let plen = picks.len();
    let ghost pk = picks@.subrange(off as int, off as int + 7);
    let mut cur = Color { r: 0, g: 0, b: 0 };
    let mut w: u8 = 128;
    let mut k: usize = 0;
    while k < 7
        invariant
            nbrs_ok(nbrs@),
            off + 7 <= plen == picks@.len(),
            pk == picks@.subrange(off as int, off as int + 7),
            k <= 7,
            k < 7 ==> w == width_at(k as int),
            k < 7 ==> round_ok(cur, w),
            k == 7 ==> cur.r <= 254 && cur.g <= 254 && cur.b <= 254,
            cur == run_rounds(nbrs@, pk, k as nat),
        decreases 7 - k,
    {
        let pen = penalties8(cur, w, nbrs);
        let p = best_with_pick(&pen, picks[off + k]);
        proof {
            assert(ints(pen@) =~= penalties_spec(cur, w, nbrs@));
            assert(pk[k as int] == picks@[off + k]);
        }
        cur = commit(cur, w, p);
        w = w / 2;
        k = k + 1;
    }
    cur
}

/// Run the seven refinement rounds with uniformly random tie-breaks,
/// and return beside the color the trace of the seven choices made:
/// the color is exactly the specified refinement under that trace, so
/// a replay through refine_cell_with rebuilds it.
pub fn refine_cell(nbrs: &Vec<Neighbor>) -> (res: (Color, Vec<usize>))
    requires
        nbrs_ok(nbrs@),
    ensures
        res.1@.len() == 7,
        res.0 == refine_spec(nbrs@, res.1@),
        res.0.r <= 254 && res.0.g <= 254 && res.0.b <= 254,
{
    let mut trace: Vec<usize> = Vec::new();
    let mut cur = Color { r: 0, g: 0, b: 0 };
    let mut w: u8 = 128;
    let mut k: usize = 0;
    while k < 7
        invariant
            nbrs_ok(nbrs@),
            k <= 7,
            trace@.len() == k,
            k < 7 ==> w == width_at(k as int),
            k < 7 ==> round_ok(cur, w),
            k == 7 ==> cur.r <= 254 && cur.g <= 254 && cur.b <= 254,
            cur == run_rounds(nbrs@, trace@, k as nat),
        decreases 7 - k,
    {
        let pen = penalties8(cur, w, nbrs);
        let t = tied_indices(&pen);
        let j = rand_below(t.len());
        let p = t[j];
        proof {
            assert(ints(pen@) =~= penalties_spec(cur, w, nbrs@));
            vstd::arithmetic::div_mod::lemma_small_mod(j as nat, t@.len() as nat);
            assert((j as int) % (t@.len() as int) == j as int);
            assert(p == chosen(penalties_spec(cur, w, nbrs@), j));
            lemma_tied_nonempty(ints(pen@));
            lemma_run_rounds_prefix(nbrs@, trace@.push(j), trace@, k as nat);
        }
        cur = commit(cur, w, p);
        trace.push(j);
        w = w / 2;
        k = k + 1;
    }
    (cur, trace)
}

} // verus!
