use vstd::prelude::*;

verus! {

/// How many already-filled cells a search window should be able to hold;
/// the numerator of the density-adaptive window sizing rule.
pub const NEEDED_NONZERO: u64 = 5;

/// Least m in [m0, 255] with m * m * b >= a, saturating at 255 when no
/// such m exists (and in particular when b == 0, the first-step case
/// where the fill fraction is zero and the window must be widest).
pub open spec fn least_side(a: nat, b: nat, m0: nat) -> nat
    decreases 256 - m0,
{
    if m0 >= 255 {
        255
    } else if m0 * m0 * b >= a {
        m0
    } else {
        least_side(a, b, m0 + 1)
    }
}

proof fn lemma_least_side_range(a: nat, b: nat, m0: nat)
    ensures
        m0 <= least_side(a, b, m0) || least_side(a, b, m0) == 255,
        least_side(a, b, m0) <= 255,
    decreases 256 - m0,
{
    if m0 >= 255 || m0 * m0 * b >= a {
    } else {
        lemma_least_side_range(a, b, m0 + 1);
    }
}

/// Minimality: any m in [m0, 255] whose square times b reaches a is an
/// upper bound on the least one.
proof fn lemma_least_side_min(a: nat, b: nat, m0: nat, k: nat)
    requires
        m0 <= k <= 255,
        k * k * b >= a,
    ensures
        least_side(a, b, m0) <= k,
    decreases 256 - m0,
{
    if m0 >= 255 || m0 * m0 * b >= a {
    } else {
        lemma_least_side_min(a, b, m0 + 1, k);
    }
}

/// The side of the search window wanted at visitation step i of t:
/// ceil(sqrt(NEEDED_NONZERO * t / i)), saturated to 255, and 255 at the
/// zero-fraction first step.
pub open spec fn min_side_at(i: nat, t: nat) -> nat {
    if i == 0 {
        255
    } else {
        least_side((NEEDED_NONZERO as nat) * t, i, 0)
    }
}

/// The cap on every radius: ceil(sqrt(n / 2)), saturated to 255.
pub open spec fn max_radius_of(n: nat) -> nat {
    least_side(n / 2, 1, 0)
}

/// The search radius at visitation step i of t on an n-sided grid.
pub open spec fn radius_at(i: nat, t: nat, n: nat) -> nat {
    let ms = min_side_at(i, t) / 2;
    let mr = max_radius_of(n);
    if ms <= mr {
        ms
    } else {
        mr
    }
}

/// The window-side test of the saturating square-root search.
fn side_reaches(m: u8, a: u128, b: u128) -> (r: bool)
    requires
        b <= u64::MAX,
    ensures
        r == ((m as nat) * (m as nat) * (b as nat) >= a as nat),
{
    proof {
        assert((m as int) * (m as int) <= 65025) by (nonlinear_arith)
            requires
                m <= 255,
        ;
        assert((m as int) * (m as int) * (b as int) <= 65025 * (u64::MAX as int))
            by (nonlinear_arith)
            requires
                0 <= (m as int) * (m as int) <= 65025,
                0 <= b <= u64::MAX,
        ;
    }
    (m as u128) * (m as u128) * b >= a
}

/// Exec search for the least side, shared by both saturating square
/// roots of the radius rule.
fn least_side_exec(a: u128, b: u128) -> (m: u8)
    requires
        b <= u64::MAX,
    ensures
        m == least_side(a as nat, b as nat, 0),
{
    let mut m: u8 = 0;
    while m < 255 && !side_reaches(m, a, b)
        invariant
            m <= 255,
            b <= u64::MAX,
            least_side(a as nat, b as nat, 0) == least_side(a as nat, b as nat, m as nat),
        decreases 255 - m,
    {
        m = m + 1;
    }
    m
}

/// The radius of the neighbor-search window at visitation step i out of
/// t total positions on an n-sided grid: half the wanted window side,
/// capped by the grid-derived maximum.  The first step (i == 0) uses the
/// saturated maximal side rather than failing on the zero fill fraction.
pub fn radius_for(i: usize, t: usize, n: usize) -> (r: u8)
    ensures
        r == radius_at(i as nat, t as nat, n as nat),
{
    let min_side: u8 = if i == 0 {
        255
    } else {
        least_side_exec((NEEDED_NONZERO as u128) * (t as u128), i as u128)
    };
    let max_radius: u8 = least_side_exec((n / 2) as u128, 1);
    let ms = min_side / 2;
    if ms <= max_radius {
        ms
    } else {
        max_radius
    }
}

/// The radius never grows as the canvas fills: later visitation steps
/// search a window no wider than earlier ones (zero-fraction first step
/// included).
pub proof fn lemma_radius_antitone(i1: nat, i2: nat, t: nat, n: nat)
    requires
        i1 <= i2,
    ensures
        radius_at(i2, t, n) <= radius_at(i1, t, n),
{
    lemma_least_side_range((NEEDED_NONZERO as nat) * t, i1, 0);
    lemma_least_side_range((NEEDED_NONZERO as nat) * t, i2, 0);
    if i1 == 0 {
        // min_side_at(i1, t) is the saturated maximum 255.
    } else {
        let m1 = least_side((NEEDED_NONZERO as nat) * t, i1, 0);
        if m1 == 255 {
        } else {
            assert(m1 * m1 * i1 >= (NEEDED_NONZERO as nat) * t) by {
                lemma_least_side_holds((NEEDED_NONZERO as nat) * t, i1, 0);
            }
            assert(m1 * m1 * i2 >= m1 * m1 * i1) by {
                vstd::arithmetic::mul::lemma_mul_inequality(i1 as int, i2 as int, (m1 * m1) as int);
                vstd::arithmetic::mul::lemma_mul_is_commutative((m1 * m1) as int, i1 as int);
                vstd::arithmetic::mul::lemma_mul_is_commutative((m1 * m1) as int, i2 as int);
            }
            lemma_least_side_min((NEEDED_NONZERO as nat) * t, i2, 0, m1);
        }
    }
}

/// When the search stops below the cap, the test indeed holds there.
proof fn lemma_least_side_holds(a: nat, b: nat, m0: nat)
    requires
        least_side(a, b, m0) < 255,
    ensures
        least_side(a, b, m0) * least_side(a, b, m0) * b >= a,
    decreases 256 - m0,
{
    if m0 >= 255 || m0 * m0 * b >= a {
    } else {
        lemma_least_side_holds(a, b, m0 + 1);
    }
}

/// The radius cap stays inside the grid: for n >= 1 the radius is at
/// most n - 1, so a window offset never wraps more than once in the
/// shift by n used for toroidal indexing.
pub proof fn lemma_radius_lt_n(i: nat, t: nat, n: nat)
    requires
        n >= 1,
    ensures
        radius_at(i, t, n) < n,
{
    lemma_least_side_range(n / 2, 1, 0);
    if n >= 256 {
        // capped at 255 < n
    } else {
        assert((n - 1) * (n - 1) * 1 >= n / 2) by {
            if n >= 2 {
                vstd::arithmetic::mul::lemma_mul_increases(n - 1, n - 1);
            }
        }
        lemma_least_side_min(n / 2, 1, 0, (n - 1) as nat);
    }
}

} // verus!
