//! Colours, fixed-point Lab values and the perceptual distance between them.

use vstd::prelude::*;

verus! {

/// Number of fixed-point steps in one Lab unit.
pub const LAB_SCALE: i32 = 1000;

/// An sRGB colour with 8-bit channels.
#[derive(Clone, Copy, Debug, PartialEq, Eq, Structural, Hash)]
pub struct Color {
    pub r: u8,
    pub g: u8,
    pub b: u8,
}

/// A CIE Lab colour in fixed point: each component is stored in thousandths
/// of a Lab unit (`l == 20000` is a lightness of 20).
#[derive(Clone, Copy, Debug, PartialEq, Eq, Structural, Hash)]
pub struct LabColor {
    pub l: i32,
    pub a: i32,
    pub b: i32,
}

impl Color {
    pub fn new(r: u8, g: u8, b: u8) -> (c: Color)
        ensures
            c.r == r,
            c.g == g,
            c.b == b,
    {
        Color { r, g, b }
    }
}

impl LabColor {
    pub fn new(l: i32, a: i32, b: i32) -> (c: LabColor)
        ensures
            c.l == l,
            c.a == a,
            c.b == b,
    {
        LabColor { l, a, b }
    }
}

/// Squared Euclidean distance between two Lab values, in squared fixed-point steps.
pub open spec fn dist_sq(x: LabColor, y: LabColor) -> nat {
    let dl = x.l - y.l;
    let da = x.a - y.a;
    let db = x.b - y.b;
    (dl * dl + da * da + db * db) as nat
}

/// The largest `r` with `r * r <= x`.
pub open spec fn floor_sqrt(x: nat) -> nat
    decreases x,
{
    if x == 0 {
        0
    } else {
        let r = floor_sqrt((x - 1) as nat);
        if (r + 1) * (r + 1) <= x {
            r + 1
        } else {
            r
        }
    }
}

/// Euclidean (CIE76) distance between two Lab values, rounded down to a
/// whole fixed-point step.
pub open spec fn delta(x: LabColor, y: LabColor) -> nat {
    floor_sqrt(dist_sq(x, y))
}

pub proof fn lemma_floor_sqrt_bounds(x: nat)
    ensures
        floor_sqrt(x) * floor_sqrt(x) <= x,
        x < (floor_sqrt(x) + 1) * (floor_sqrt(x) + 1),
    decreases x,
{
    if x == 0 {
        assert(floor_sqrt(x) == 0);
        assert((0 + 1) * (0 + 1) == 1) by (nonlinear_arith);
    } else {
        lemma_floor_sqrt_bounds((x - 1) as nat);
        let r = floor_sqrt((x - 1) as nat);
        if (r + 1) * (r + 1) > x {
            assert(floor_sqrt(x) == r);
            assert(r * r <= x);
        } else {
            assert(floor_sqrt(x) == r + 1);
            assert((r + 1) * (r + 1) == x) by (nonlinear_arith)
                requires
                    (r + 1) * (r + 1) <= x,
                    (x - 1) < (r + 1) * (r + 1),
            ;
            assert(x < (r + 2) * (r + 2)) by (nonlinear_arith)
                requires
                    (r + 1) * (r + 1) == x,
            ;
            assert((r + 2) == floor_sqrt(x) + 1);
        }
    }
}

pub proof fn lemma_floor_sqrt_unique(x: nat, r: nat)
    requires
        r * r <= x,
        x < (r + 1) * (r + 1),
    ensures
        floor_sqrt(x) == r,
{
    lemma_floor_sqrt_bounds(x);
    let s = floor_sqrt(x);
    if s < r {
        assert((s + 1) * (s + 1) <= r * r) by (nonlinear_arith)
            requires
                s + 1 <= r,
        ;
    } else if r < s {
        assert((r + 1) * (r + 1) <= s * s) by (nonlinear_arith)
            requires
                r + 1 <= s,
        ;
    }
}

/// Distance is zero exactly between equal colours, and does not depend on
/// the order of its arguments.
pub proof fn lemma_delta_zero_and_symmetric(x: LabColor, y: LabColor)
    ensures
        delta(x, x) == 0,
        delta(x, y) == delta(y, x),
        delta(x, y) == 0 <==> x == y,
{
    assert(dist_sq(x, x) == 0);
    assert(floor_sqrt(0) == 0);
    let dl = x.l - y.l;
    let da = x.a - y.a;
    let db = x.b - y.b;
    assert(dist_sq(x, y) == dist_sq(y, x)) by (nonlinear_arith)
        requires
            dl == x.l - y.l,
            da == x.a - y.a,
            db == x.b - y.b,
    ;
    if x != y {
        assert(dl * dl + da * da + db * db >= 1) by (nonlinear_arith)
            requires
                dl != 0 || da != 0 || db != 0,
        ;
        lemma_floor_sqrt_bounds(dist_sq(x, y));
        assert(floor_sqrt(dist_sq(x, y)) >= 1) by (nonlinear_arith)
            requires
                dist_sq(x, y) >= 1,
                dist_sq(x, y) < (floor_sqrt(dist_sq(x, y)) + 1) * (floor_sqrt(dist_sq(x, y)) + 1),
        ;
    }
}

/// Largest distance between any two Lab values with `i32` components.
pub open spec fn delta_bound() -> nat {
    0x4_0000_0000
}

pub proof fn lemma_delta_bounded(x: LabColor, y: LabColor)
    ensures
        delta(x, y) < delta_bound(),
{
    let d = dist_sq(x, y);
    let dl = x.l - y.l;
    let da = x.a - y.a;
    let db = x.b - y.b;
    assert(dl * dl >= 0 && da * da >= 0 && db * db >= 0) by (nonlinear_arith);
    assert(d < 0x4_0000_0000 * 0x4_0000_0000) by (nonlinear_arith)
        requires
            -0x1_0000_0000 < dl < 0x1_0000_0000,
            -0x1_0000_0000 < da < 0x1_0000_0000,
            -0x1_0000_0000 < db < 0x1_0000_0000,
            d == dl * dl + da * da + db * db,
    ;
    lemma_floor_sqrt_bounds(d);
    let s = floor_sqrt(d);
    if s >= 0x4_0000_0000 {
        assert(s * s >= 0x4_0000_0000 * 0x4_0000_0000) by (nonlinear_arith)
            requires
                s >= 0x4_0000_0000,
        ;
    }
}

/// The largest `r` with `r * r <= x`, for `x < 2^68`.
fn isqrt(x: u128) -> (r: u64)
    requires
        x < 0x4_0000_0000 * 0x4_0000_0000,
    ensures
        r as nat == floor_sqrt(x as nat),
{
    let mut lo: u64 = 0;
    let mut hi: u64 = 0x4_0000_0000;
    while hi - lo > 1
        invariant
            lo < hi <= 0x4_0000_0000,
            (lo as nat) * (lo as nat) <= x,
            x < (hi as nat) * (hi as nat),
        decreases hi - lo,
    {
        let mid: u64 = lo + (hi - lo) / 2;
        assert((mid as nat) * (mid as nat) < 0x4_0000_0000 * 0x4_0000_0000) by (nonlinear_arith)
            requires
                mid < 0x4_0000_0000,
        ;
        let sq: u128 = (mid as u128) * (mid as u128);
        if sq <= x {
            lo = mid;
        } else {
            hi = mid;
        }
    }
    proof {
        lemma_floor_sqrt_unique(x as nat, lo as nat);
    }
    lo
}

/// CIE76 distance between two Lab values, in fixed-point steps (rounded down).
pub fn delta_e(x: LabColor, y: LabColor) -> (d: u64)
    ensures
        d == delta(x, y),
{
    let dl: i64 = x.l as i64 - y.l as i64;
    let da: i64 = x.a as i64 - y.a as i64;
    let db: i64 = x.b as i64 - y.b as i64;
    proof {
        assert(dl * dl < 0x1_0000_0000 * 0x1_0000_0000) by (nonlinear_arith)
            requires
                -0x1_0000_0000 < dl < 0x1_0000_0000,
        ;
        assert(da * da < 0x1_0000_0000 * 0x1_0000_0000) by (nonlinear_arith)
            requires
                -0x1_0000_0000 < da < 0x1_0000_0000,
        ;
        assert(db * db < 0x1_0000_0000 * 0x1_0000_0000) by (nonlinear_arith)
            requires
                -0x1_0000_0000 < db < 0x1_0000_0000,
        ;
        assert(dl * dl >= 0) by (nonlinear_arith);
        assert(da * da >= 0) by (nonlinear_arith);
        assert(db * db >= 0) by (nonlinear_arith);
    }
    let sl: u128 = (dl as i128 * dl as i128) as u128;
    let sa: u128 = (da as i128 * da as i128) as u128;
    let sb: u128 = (db as i128 * db as i128) as u128;
    let r = isqrt(sl + sa + sb);
    proof {
        lemma_delta_bounded(x, y);
    }
    r
}

/// Lowest Lab lightness kept in the candidate pool (20, in fixed point).
pub const LIGHTNESS_MIN: i32 = 20000;

/// Highest Lab lightness kept in the candidate pool (90, in fixed point).
pub const LIGHTNESS_MAX: i32 = 90000;

/// Number of levels per channel in the candidate grid.
pub const GRID_LEVELS: usize = 6;

/// The channel value of grid level `k`.
pub open spec fn level(k: int) -> u8 {
    if k == 0 {
        16
    } else if k == 1 {
        64
    } else if k == 2 {
        112
    } else if k == 3 {
        160
    } else if k == 4 {
        208
    } else {
        255
    }
}

/// The grid colour with red level `r`, green level `g` and blue level `b`.
pub open spec fn grid_color(r: int, g: int, b: int) -> Color {
    Color { r: level(r), g: level(g), b: level(b) }
}

fn grid_level(k: usize) -> (v: u8)
    requires
        k < GRID_LEVELS,
    ensures
        v == level(k as int),
{
    if k == 0 {
        16
    } else if k == 1 {
        64
    } else if k == 2 {
        112
    } else if k == 3 {
        160
    } else if k == 4 {
        208
    } else {
        255
    }
}

/// The 216 candidate colours: six levels per channel, red outermost, then
/// green, then blue innermost.
pub fn candidate_srgb_grid() -> (v: Vec<Color>)
    ensures
        v@.len() == 216,
        forall|r: int, g: int, b: int|
            0 <= r < 6 && 0 <= g < 6 && 0 <= b < 6 ==> #[trigger] v@[36 * r + 6 * g + b]
                == grid_color(r, g, b),
{
    let mut v: Vec<Color> = Vec::new();
    let mut ri: usize = 0;
    while ri < GRID_LEVELS
        invariant
            ri <= 6,
            v@.len() == 36 * ri,
            forall|r: int, g: int, b: int|
                0 <= r < ri && 0 <= g < 6 && 0 <= b < 6 ==> #[trigger] v@[36 * r + 6 * g + b]
                    == grid_color(r, g, b),
        decreases 6 - ri,
    {
        let mut gi: usize = 0;
        while gi < GRID_LEVELS
            invariant
                ri < 6,
                gi <= 6,
                v@.len() == 36 * ri + 6 * gi,
                forall|r: int, g: int, b: int|
                    0 <= r < ri && 0 <= g < 6 && 0 <= b < 6 ==> #[trigger] v@[36 * r + 6 * g + b]
                        == grid_color(r, g, b),
                forall|g: int, b: int|
                    0 <= g < gi && 0 <= b < 6 ==> #[trigger] v@[36 * ri + 6 * g + b]
                        == grid_color(ri as int, g, b),
            decreases 6 - gi,
        {
            let mut bi: usize = 0;
            while bi < GRID_LEVELS
                invariant
                    ri < 6,
                    gi < 6,
                    bi <= 6,
                    v@.len() == 36 * ri + 6 * gi + bi,
                    forall|r: int, g: int, b: int|
                        0 <= r < ri && 0 <= g < 6 && 0 <= b < 6 ==> #[trigger] v@[36 * r + 6 * g
                            + b] == grid_color(r, g, b),
                    forall|g: int, b: int|
                        0 <= g < gi && 0 <= b < 6 ==> #[trigger] v@[36 * ri + 6 * g + b]
                            == grid_color(ri as int, g, b),
                    forall|b: int|
                        0 <= b < bi ==> #[trigger] v@[36 * ri + 6 * gi + b] == grid_color(
                            ri as int,
                            gi as int,
                            b,
                        ),
                decreases 6 - bi,
            {
                v.push(Color { r: grid_level(ri), g: grid_level(gi), b: grid_level(bi) });
                bi += 1;
            }
            gi += 1;
        }
        ri += 1;
    }
    v
}

/// The colours of `pool` paired with their Lab values.
pub open spec fn paired(pool: Seq<Color>, labs: Seq<LabColor>) -> Seq<(Color, LabColor)> {
    Seq::new(pool.len(), |i: int| (pool[i], labs[i]))
}

/// Whether a Lab value has lightness in `[lo, hi]`.
pub open spec fn lightness_within(p: (Color, LabColor), lo: int, hi: int) -> bool {
    lo <= p.1.l <= hi
}

/// The filter that keeps pairs with lightness in `[lo, hi]`.
pub open spec fn lightness_filter(lo: int, hi: int) -> spec_fn((Color, LabColor)) -> bool {
    |p: (Color, LabColor)| lightness_within(p, lo, hi)
}

/// Keeps the colours whose Lab lightness lies in the closed interval
/// `[lo, hi]`, in the order of the pool, together with their Lab values.
/// `labs[i]` is the Lab value of `pool[i]`.
pub fn filter_by_lightness(pool: &Vec<Color>, labs: &Vec<LabColor>, lo: i32, hi: i32) -> (r: (
    Vec<Color>,
    Vec<LabColor>,
))
    requires
        pool@.len() == labs@.len(),
    ensures
        r.0@.len() == r.1@.len(),
        paired(r.0@, r.1@) == paired(pool@, labs@).filter(lightness_filter(lo as int, hi as int)),
        forall|k: int| 0 <= k < r.1@.len() ==> lo <= #[trigger] r.1@[k].l <= hi,
{
    let ghost pred = lightness_filter(lo as int, hi as int);
    let mut kept: Vec<Color> = Vec::new();
    let mut kept_labs: Vec<LabColor> = Vec::new();
    let mut i: usize = 0;
    while i < pool.len()
        invariant
            pool@.len() == labs@.len(),
            i <= pool@.len(),
            kept@.len() == kept_labs@.len(),
            pred == lightness_filter(lo as int, hi as int),
            paired(kept@, kept_labs@) == paired(pool@, labs@).take(i as int).filter(pred),
            forall|k: int| 0 <= k < kept_labs@.len() ==> lo <= #[trigger] kept_labs@[k].l <= hi,
        decreases pool@.len() - i,
    {
        let ghost all = paired(pool@, labs@);
        proof {
            assert(all.take(i + 1) =~= all.take(i as int).push(all[i as int]));
            assert(all[i as int] == (pool@[i as int], labs@[i as int]));
            all.take(i as int).lemma_filter_push(all[i as int], pred);
        }
        let ghost old_kept = kept@;
        let ghost old_kept_labs = kept_labs@;
        if lo <= labs[i].l && labs[i].l <= hi {
            kept.push(pool[i]);
            kept_labs.push(labs[i]);
            assert(pred(all[i as int]));
            assert(paired(kept@, kept_labs@) =~= paired(old_kept, old_kept_labs).push(all[i as int]));
        } else {
            assert(!pred(all[i as int]));
        }
        assert(paired(kept@, kept_labs@) == all.take(i + 1).filter(pred));
        i += 1;
    }
    assert(paired(pool@, labs@).take(pool@.len() as int) == paired(pool@, labs@));
    (kept, kept_labs)
}

/// `v` is the smallest distance between two entries of `labs`.
pub open spec fn is_min_delta(labs: Seq<LabColor>, v: u64) -> bool {
    &&& exists|a: int, b: int| 0 <= a < b < labs.len() && v == delta(#[trigger] labs[a], #[trigger] labs[b])
    &&& forall|a: int, b: int| 0 <= a < b < labs.len() ==> v <= delta(#[trigger] labs[a], #[trigger] labs[b])
}

/// The smallest distance between two colours of a group, or `u64::MAX`
/// when the group has fewer than two colours.
pub fn min_pairwise_delta(labs: &Vec<LabColor>) -> (r: u64)
    ensures
        labs@.len() < 2 ==> r == u64::MAX,
        labs@.len() >= 2 ==> is_min_delta(labs@, r),
{
    let n = labs.len();
    let mut min_d: u64 = u64::MAX;
    let ghost mut wa: int = 0;
    let ghost mut wb: int = 0;
    let mut i: usize = 0;
    while i < n
        invariant
            n == labs@.len(),
            i <= n,
            n < 2 ==> min_d == u64::MAX,
            forall|a: int, b: int| 0 <= a < i && a < b < n ==> min_d <= delta(#[trigger] labs@[a], #[trigger] labs@[b]),
            i >= 1 && n >= 2 ==> 0 <= wa < wb < n && min_d == delta(labs@[wa], labs@[wb]),
        decreases n - i,
    {
        let mut j: usize = i + 1;
        while j < n
            invariant
                n == labs@.len(),
                i < n,
                i + 1 <= j <= n,
                n < 2 ==> min_d == u64::MAX,
                forall|a: int, b: int| 0 <= a < i && a < b < n ==> min_d <= delta(#[trigger] labs@[a], #[trigger] labs@[b]),
                forall|b: int| i < b < j ==> min_d <= delta(labs@[i as int], #[trigger] labs@[b]),
                (i >= 1 || j > i + 1) ==> 0 <= wa < wb < n && min_d == delta(labs@[wa], labs@[wb]),
            decreases n - j,
        {
            let d = delta_e(labs[i], labs[j]);
            if d < min_d || (i == 0 && j == 1) {
                min_d = d;
                proof {
                    wa = i as int;
                    wb = j as int;
                }
            }
            j += 1;
        }
        i += 1;
    }
    min_d
}

} // verus!
