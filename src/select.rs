//! Choosing colours from the candidate pool with the largest pairwise
//! separation that a bounded greedy search can reach.

use vstd::prelude::*;
use rand::rngs::StdRng;
use crate::color::{delta, delta_e, lemma_delta_zero_and_symmetric, Color, LabColor};
use crate::random::{random_index, shuffled_range};

verus! {

/// Number of random index pairs sampled to bound the search from above.
pub const UPPER_BOUND_SAMPLES: usize = 512;

/// Number of halvings of the threshold interval.
pub const SEARCH_STEPS: usize = 14;

/// Shuffled traversal orders tried at each threshold.
pub const ORDERS_PER_STEP: usize = 4;

/// Whether candidate `c` is at least `t` away from every colour already picked.
pub open spec fn accepts(labs: Seq<LabColor>, picked: Seq<usize>, c: usize, t: int) -> bool {
    forall|j: int| 0 <= j < picked.len() ==> delta(labs[picked[j] as int], labs[c as int]) >= t
}

/// Whether the greedy pass has reached its limit (it stops after the push
/// that reaches `limit`, so it always takes at least one colour).
pub open spec fn stopped(picked: Seq<usize>, limit: int) -> bool {
    picked.len() > 0 && picked.len() >= limit
}

/// The greedy pass over `order`: each index is taken when it is at least `t`
/// away from all indices taken before it, until the limit is reached.
pub open spec fn greedy_pick(labs: Seq<LabColor>, order: Seq<usize>, t: int, limit: int) -> Seq<
    usize,
>
    decreases order.len(),
{
    if order.len() == 0 {
        Seq::empty()
    } else {
        let prev = greedy_pick(labs, order.drop_last(), t, limit);
        let c = order.last();
        if !stopped(prev, limit) && accepts(labs, prev, c, t) {
            prev.push(c)
        } else {
            prev
        }
    }
}

/// All pairs of distinct positions of `idx` are at least `t` apart.
pub open spec fn separated(labs: Seq<LabColor>, idx: Seq<usize>, t: int) -> bool {
    forall|a: int, b: int|
        0 <= a < idx.len() && 0 <= b < idx.len() && a != b ==> delta(
            labs[#[trigger] idx[a] as int],
            labs[#[trigger] idx[b] as int],
        ) >= t
}

/// Greedy pick limit: at least one colour is always taken.
pub open spec fn pick_cap(limit: int) -> int {
    if limit == 0 {
        1
    } else {
        limit
    }
}

/// Greedily picks indices of `labs` in the order given, keeping each one
/// whose distance to every index already kept is at least `threshold`, and
/// stopping once `limit` are kept.
pub fn pick_distinct_strict(labs: &Vec<LabColor>, order: &Vec<usize>, threshold: u64, limit: usize) -> (r: Vec<usize>)
    requires
        forall|k: int| 0 <= k < order@.len() ==> #[trigger] order@[k] < labs@.len(),
    ensures
        r@ == greedy_pick(labs@, order@, threshold as int, limit as int),
        r@.len() <= order@.len(),
        r@.len() <= pick_cap(limit as int),
        separated(labs@, r@, threshold as int),
        forall|a: int| 0 <= a < r@.len() ==> order@.contains(#[trigger] r@[a]),
        order@.no_duplicates() ==> r@.no_duplicates(),
        threshold == 0 ==> r@.len() == if order@.len() < pick_cap(limit as int) {
            order@.len() as int
        } else {
            pick_cap(limit as int)
        },
{
    let mut picked: Vec<usize> = Vec::new();
    let ghost mut pos: Seq<int> = Seq::empty();
    let mut done = false;
    let mut i: usize = 0;
    while i < order.len() && !done
        invariant
            forall|k: int| 0 <= k < order@.len() ==> #[trigger] order@[k] < labs@.len(),
            i <= order@.len(),
            picked@ == greedy_pick(labs@, order@.take(i as int), threshold as int, limit as int),
            done == stopped(picked@, limit as int),
            picked@.len() <= i,
            picked@.len() <= pick_cap(limit as int),
            forall|a: int, b: int|
                0 <= a < b < picked@.len() ==> delta(
                    labs@[#[trigger] picked@[a] as int],
                    labs@[#[trigger] picked@[b] as int],
                ) >= threshold,
            pos.len() == picked@.len(),
            forall|a: int| 0 <= a < pos.len() ==> 0 <= #[trigger] pos[a] < i,
            forall|a: int| 0 <= a < pos.len() ==> #[trigger] picked@[a] == order@[pos[a]],
            forall|a: int, b: int| 0 <= a < b < pos.len() ==> #[trigger] pos[a] < #[trigger] pos[b],
            threshold == 0 ==> picked@.len() == if (i as int) < pick_cap(limit as int) {
                i as int
            } else {
                pick_cap(limit as int)
            },
        decreases order@.len() - i,
    {
        let c = order[i];
        let mut ok = true;
        let mut j: usize = 0;
        while j < picked.len()
            invariant
                c < labs@.len(),
                j <= picked@.len(),
                forall|k: int| 0 <= k < picked@.len() ==> #[trigger] picked@[k] < labs@.len(),
                ok == (forall|k: int|
                    0 <= k < j ==> delta(labs@[#[trigger] picked@[k] as int], labs@[c as int])
                        >= threshold),
            decreases picked@.len() - j,
        {
            let d = delta_e(labs[picked[j]], labs[c]);
            if d < threshold {
                ok = false;
            }
            j += 1;
        }
        proof {
            let t = order@.take(i + 1);
            assert(t.drop_last() =~= order@.take(i as int));
            assert(t.last() == c);
        }
        if ok {
            picked.push(c);
            proof {
                pos = pos.push(i as int);
            }
            if picked.len() >= limit {
                done = true;
            }
        }
        i += 1;
    }
    proof {
        if !done {
            assert(order@.take(order@.len() as int) =~= order@);
        } else {
            lemma_greedy_stays(labs@, order@, i as int, threshold as int, limit as int);
        }
        assert forall|a: int, b: int|
            0 <= a < picked@.len() && 0 <= b < picked@.len() && a != b implies delta(
            labs@[#[trigger] picked@[a] as int],
            labs@[#[trigger] picked@[b] as int],
        ) >= threshold by {
            if b < a {
                lemma_delta_zero_and_symmetric(labs@[picked@[a] as int], labs@[picked@[b] as int]);
            }
        }
        assert forall|a: int| 0 <= a < picked@.len() implies order@.contains(#[trigger] picked@[a]) by {
            assert(order@[pos[a]] == picked@[a]);
        }
        if order@.no_duplicates() {
            assert forall|a: int, b: int| 0 <= a < b < picked@.len() implies picked@[a] != picked@[b] by {
                assert(pos[a] < pos[b]);
            }
        }
    }
    picked
}

/// Once the greedy pass has stopped, later indices change nothing.
proof fn lemma_greedy_stays(labs: Seq<LabColor>, order: Seq<usize>, i: int, t: int, limit: int)
    requires
        0 <= i <= order.len(),
        stopped(greedy_pick(labs, order.take(i), t, limit), limit),
    ensures
        greedy_pick(labs, order, t, limit) == greedy_pick(labs, order.take(i), t, limit),
    decreases order.len() - i,
{
    if i < order.len() {
        let t1 = order.take(i + 1);
        assert(t1.drop_last() =~= order.take(i));
        lemma_greedy_stays(labs, order, i + 1, t, limit);
    } else {
        assert(order.take(i) =~= order);
    }
}

/// A valid outcome of the selector for `total` colours at threshold `t`:
/// `min(total, |labs|)` distinct pool indices, pairwise at least `t` apart.
pub open spec fn is_selection(labs: Seq<LabColor>, idx: Seq<usize>, t: int, total: int) -> bool {
    &&& idx.len() == if total < labs.len() {
        total
    } else {
        labs.len() as int
    }
    &&& idx.no_duplicates()
    &&& forall|k: int| 0 <= k < idx.len() ==> #[trigger] idx[k] < labs.len()
    &&& separated(labs, idx, t)
}

/// `d` is the distance between two different entries of the pool.
pub open spec fn is_pool_distance(labs: Seq<LabColor>, d: int) -> bool {
    exists|i: int, j: int| 0 <= i < labs.len() && 0 <= j < labs.len() && i != j && d == delta(#[trigger] labs[i], #[trigger] labs[j])
}

/// The threshold is zero, or at most the distance of some pair of
/// different pool entries.
pub open spec fn threshold_bounded(labs: Seq<LabColor>, t: int) -> bool {
    t == 0 || exists|d: int| #[trigger] is_pool_distance(labs, d) && t <= d
}

/// Each order lists every index of `0..m` exactly once.
pub open spec fn orders_permute(orders: Seq<Seq<usize>>, m: int) -> bool {
    forall|k: int|
        0 <= k < orders.len() ==> {
            &&& (#[trigger] orders[k]).len() == m
            &&& orders[k].no_duplicates()
            &&& forall|q: int| 0 <= q < m ==> #[trigger] orders[k][q] < m
        }
}

/// Estimates the largest distance in the pool from random index pairs.
fn sampled_max_distance(labs: &Vec<LabColor>, rng: &mut StdRng) -> (d: u64)
    ensures
        d == 0 || is_pool_distance(labs@, d as int),
{
    let m = labs.len();
    let mut max_d: u64 = 0;
    if m == 0 {
        return 0;
    }
    let mut s: usize = 0;
    while s < UPPER_BOUND_SAMPLES
        invariant
            m == labs@.len(),
            m > 0,
            max_d == 0 || is_pool_distance(labs@, max_d as int),
        decreases UPPER_BOUND_SAMPLES - s,
    {
        let i = random_index(rng, m);
        let j = random_index(rng, m);
        if i != j {
            let d = delta_e(labs[i], labs[j]);
            if d > max_d {
                max_d = d;
            }
        }
        s += 1;
    }
    max_d
}

/// Number of greedy orders one search consumes: a few per halving, and one
/// for the final pass.
pub const SEARCH_ORDERS: usize = 57;

/// The first of the orders `base + a, ..., base + ORDERS_PER_STEP - 1` whose
/// greedy pass at threshold `mid` reaches `total` colours, with that pass.
pub open spec fn feasible_attempt(
    labs: Seq<LabColor>,
    orders: Seq<Seq<usize>>,
    base: int,
    a: int,
    mid: int,
    total: int,
) -> Option<Seq<usize>>
    decreases ORDERS_PER_STEP - a,
{
    if a >= ORDERS_PER_STEP {
        None
    } else {
        let p = greedy_pick(labs, orders[base + a], mid, total);
        if p.len() >= total {
            Some(p)
        } else {
            feasible_attempt(labs, orders, base, a + 1, mid, total)
        }
    }
}

/// The halving search from step `step` on, with interval `[lo, hi]` and
/// the best threshold and pass found so far: a feasible midpoint becomes
/// the new best and the lower end, an infeasible one the upper end.
pub open spec fn search_from(
    labs: Seq<LabColor>,
    orders: Seq<Seq<usize>>,
    total: int,
    step: int,
    lo: int,
    hi: int,
    best_thr: int,
    best: Seq<usize>,
) -> (int, Seq<usize>)
    decreases SEARCH_STEPS - step,
{
    if step >= SEARCH_STEPS {
        (best_thr, best)
    } else {
        let mid = lo + (hi - lo) / 2;
        match feasible_attempt(labs, orders, step * ORDERS_PER_STEP, 0, mid, total) {
            Some(p) => search_from(labs, orders, total, step + 1, mid, hi, mid, p),
            None => search_from(labs, orders, total, step + 1, lo, mid, best_thr, best),
        }
    }
}

/// The outcome of the whole search for given greedy orders and upper bound:
/// the best threshold, and its pass (or, when no threshold succeeded, a
/// final pass over the last order), cut to `total` indices.
pub open spec fn threshold_search_result(labs: Seq<LabColor>, orders: Seq<Seq<usize>>, total: int, upper: int) -> (
    int,
    Seq<usize>,
) {
    let (t, best) = search_from(labs, orders, total, 0, 0, upper, 0, Seq::empty());
    let chosen = if best.len() < total {
        greedy_pick(labs, orders[SEARCH_ORDERS - 1], t, total)
    } else {
        best
    };
    (t, if chosen.len() <= total {
        chosen
    } else {
        chosen.take(total)
    })
}

/// Each order lists every pool index exactly once.
pub open spec fn orders_of_pool(orders: Seq<Vec<usize>>, m: int) -> bool {
    forall|k: int|
        0 <= k < orders.len() ==> {
            &&& (#[trigger] orders[k])@.len() == m
            &&& orders[k]@.no_duplicates()
            &&& forall|q: int| 0 <= q < m ==> #[trigger] orders[k]@[q] < m
        }
}

/// The views of a list of orders.
pub open spec fn order_views(orders: Seq<Vec<usize>>) -> Seq<Seq<usize>> {
    orders.map_values(|o: Vec<usize>| o@)
}

/// The halving search for the largest threshold at which a greedy pass
/// reaches `total` indices, given the upper bound of the interval and the
/// greedy orders to try (several per halving, then one for a final pass).
pub fn threshold_search(labs: &Vec<LabColor>, total: usize, upper: u64, orders: &Vec<Vec<usize>>) -> (r: (u64, Vec<usize>))
    requires
        orders@.len() == SEARCH_ORDERS,
        orders_of_pool(orders@, labs@.len() as int),
    ensures
        (r.0 as int, r.1@) == threshold_search_result(labs@, order_views(orders@), total as int, upper as int),
        is_selection(labs@, r.1@, r.0 as int, total as int),
        r.0 <= upper,
        labs@.len() < total ==> r.0 == 0,
{
    let ghost ov = order_views(orders@);
    let m = labs.len();
    let mut lo: u64 = 0;
    let mut hi: u64 = upper;
    let mut best_thr: u64 = 0;
    let mut best_idxs: Vec<usize> = Vec::new();
    let mut step: usize = 0;
    while step < SEARCH_STEPS
        invariant
            m == labs@.len(),
            orders@.len() == SEARCH_ORDERS,
            orders_of_pool(orders@, m as int),
            ov == order_views(orders@),
            step <= SEARCH_STEPS,
            lo <= hi,
            search_from(labs@, ov, total as int, step as int, lo as int, hi as int, best_thr as int, best_idxs@)
                == search_from(labs@, ov, total as int, 0, 0, upper as int, 0, Seq::empty()),
            best_idxs@.len() >= total || (best_idxs@.len() == 0 && best_thr == 0),
            best_thr <= lo,
            hi <= upper,
            m < total ==> best_thr == 0,
            best_idxs@.len() <= m,
            best_idxs@.no_duplicates(),
            forall|k: int| 0 <= k < best_idxs@.len() ==> #[trigger] best_idxs@[k] < m,
            separated(labs@, best_idxs@, best_thr as int),
        decreases SEARCH_STEPS - step,
    {
        let mid: u64 = lo + (hi - lo) / 2;
        let mut feasible = false;
        let mut attempt_best: Vec<usize> = Vec::new();
        let mut attempt: usize = 0;
        while attempt < ORDERS_PER_STEP && !feasible
            invariant
                m == labs@.len(),
                orders@.len() == SEARCH_ORDERS,
                orders_of_pool(orders@, m as int),
                ov == order_views(orders@),
                step < SEARCH_STEPS,
                attempt <= ORDERS_PER_STEP,
                !feasible ==> feasible_attempt(labs@, ov, step * ORDERS_PER_STEP, attempt as int, mid as int, total as int)
                    == feasible_attempt(labs@, ov, step * ORDERS_PER_STEP, 0, mid as int, total as int),
                feasible ==> feasible_attempt(labs@, ov, step * ORDERS_PER_STEP, 0, mid as int, total as int)
                    == Some(attempt_best@),
                feasible ==> attempt_best@.len() >= total,
                attempt_best@.len() <= m,
                attempt_best@.no_duplicates(),
                forall|k: int| 0 <= k < attempt_best@.len() ==> #[trigger] attempt_best@[k] < m,
                separated(labs@, attempt_best@, mid as int),
            decreases ORDERS_PER_STEP - attempt,
        {
            let idx = step * ORDERS_PER_STEP + attempt;
            let order = &orders[idx];
            proof {
                assert(ov[idx as int] == order@);
                assert(orders_of_pool(orders@, m as int));
                assert(order@.len() == m);
            }
            let picked = pick_distinct_strict(labs, order, mid, total);
            proof {
                assert forall|k: int| 0 <= k < picked@.len() implies #[trigger] picked@[k] < m by {
                    let w = choose|w: int| 0 <= w < order@.len() && order@[w] == picked@[k];
                }
            }
            if picked.len() >= total {
                feasible = true;
                attempt_best = picked;
            }
            attempt += 1;
        }
        if feasible {
            best_thr = mid;
            best_idxs = attempt_best;
            lo = mid;
        } else {
            hi = mid;
        }
        step += 1;
    }
    let ghost searched = best_idxs@;
    if best_idxs.len() < total {
        let order = &orders[SEARCH_ORDERS - 1];
        proof {
            assert(ov[SEARCH_ORDERS - 1] == order@);
        }
        best_idxs = pick_distinct_strict(labs, order, best_thr, total);
        proof {
            assert forall|k: int| 0 <= k < best_idxs@.len() implies #[trigger] best_idxs@[k] < m by {
                let w = choose|w: int| 0 <= w < order@.len() && order@[w] == best_idxs@[k];
            }
        }
    }
    let ghost before = best_idxs@;
    best_idxs.truncate(total);
    proof {
        assert(best_idxs@ =~= if before.len() <= total {
            before
        } else {
            before.take(total as int)
        });
        assert forall|a: int, b: int| 0 <= a < b < best_idxs@.len() implies best_idxs@[a] != best_idxs@[b] by {
            assert(best_idxs@[a] == before[a] && best_idxs@[b] == before[b]);
        }
        assert forall|a: int, b: int|
            0 <= a < best_idxs@.len() && 0 <= b < best_idxs@.len() && a != b implies delta(
            labs@[#[trigger] best_idxs@[a] as int],
            labs@[#[trigger] best_idxs@[b] as int],
        ) >= best_thr by {
            assert(best_idxs@[a] == before[a] && best_idxs@[b] == before[b]);
        }
    }
    (best_thr, best_idxs)
}

/// Searches for the largest threshold at which `total` pool indices can be
/// picked pairwise at least that far apart: the interval starts at the
/// largest distance among random index pairs, and each halving tries a few
/// random greedy orders.
///
/// Whatever the random draws, the result is `min(total, |labs|)` distinct
/// indices that are pairwise at least the returned threshold apart: when no
/// threshold above zero succeeds, a final pass at zero takes what the pool has.
pub fn select_distinct_indices(labs: &Vec<LabColor>, total: usize, rng: &mut StdRng) -> (r: (u64, Vec<usize>))
    ensures
        is_selection(labs@, r.1@, r.0 as int, total as int),
        threshold_bounded(labs@, r.0 as int),
        labs@.len() < total ==> r.0 == 0,
        exists|orders: Seq<Seq<usize>>, upper: int|
            {
                &&& orders.len() == SEARCH_ORDERS
                &&& orders_permute(orders, labs@.len() as int)
                &&& (upper == 0 || is_pool_distance(labs@, upper))
                &&& (r.0 as int, r.1@) == #[trigger] threshold_search_result(labs@, orders, total as int, upper)
            },
{
    let m = labs.len();
    let upper = sampled_max_distance(labs, rng);
    let mut orders: Vec<Vec<usize>> = Vec::new();
    let mut k: usize = 0;
    while k < SEARCH_ORDERS
        invariant
            m == labs@.len(),
            k <= SEARCH_ORDERS,
            orders@.len() == k,
            orders_of_pool(orders@, m as int),
        decreases SEARCH_ORDERS - k,
    {
        let order = shuffled_range(rng, m);
        orders.push(order);
        k += 1;
    }
    let r = threshold_search(labs, total, upper, &orders);
    proof {
        let ov = order_views(orders@);
        assert((r.0 as int, r.1@) == threshold_search_result(labs@, ov, total as int, upper as int));
        assert(orders_permute(ov, m as int)) by {
            assert forall|k: int| 0 <= k < ov.len() implies (#[trigger] ov[k]).len() == m as int && ov[k].no_duplicates()
                && forall|q: int| 0 <= q < m ==> #[trigger] ov[k][q] < m by {
                assert(ov[k] == orders@[k]@);
            }
        }
        if r.0 != 0 {
            assert(is_pool_distance(labs@, upper as int));
        }
    }
    r
}

/// The colours of `pool` at the positions `idx`.
pub open spec fn colors_at(pool: Seq<Color>, idx: Seq<usize>) -> Seq<Color> {
    idx.map_values(|i: usize| pool[i as int])
}

/// Chooses `min(total, |filtered|)` colours of `filtered` whose Lab values
/// (`labs[i]` belongs to `filtered[i]`) are pairwise at least the returned
/// threshold apart, searching for the largest such threshold.
pub fn compute_max_threshold_and_colors_from_pool(
    filtered: &Vec<Color>,
    labs: &Vec<LabColor>,
    total: usize,
    rng: &mut StdRng,
) -> (r: (u64, Vec<Color>))
    requires
        filtered@.len() == labs@.len(),
    ensures
        exists|idx: Seq<usize>|
            is_selection(labs@, idx, r.0 as int, total as int) && r.1@ == colors_at(filtered@, idx),
        threshold_bounded(labs@, r.0 as int),
        labs@.len() < total ==> r.0 == 0,
        labs@.len() < total ==> exists|idx: Seq<usize>|
            idx.len() == labs@.len() && idx.no_duplicates() && r.1@ == colors_at(filtered@, idx),
        exists|orders: Seq<Seq<usize>>, upper: int|
            {
                &&& orders.len() == SEARCH_ORDERS
                &&& orders_permute(orders, labs@.len() as int)
                &&& (upper == 0 || is_pool_distance(labs@, upper))
                &&& r.0 as int == (#[trigger] threshold_search_result(labs@, orders, total as int, upper)).0
                &&& r.1@ == colors_at(filtered@, threshold_search_result(labs@, orders, total as int, upper).1)
            },
{
    let (thr, idxs) = select_distinct_indices(labs, total, rng);
    let colors = colors_at_indices(filtered, &idxs);
    proof {
        assert(is_selection(labs@, idxs@, thr as int, total as int));
    }
    (thr, colors)
}

/// The colours of `pool` at the positions `idx`, in that order.
pub fn colors_at_indices(pool: &Vec<Color>, idx: &Vec<usize>) -> (r: Vec<Color>)
    requires
        forall|k: int| 0 <= k < idx@.len() ==> #[trigger] idx@[k] < pool@.len(),
    ensures
        r@ == colors_at(pool@, idx@),
{
    let mut r: Vec<Color> = Vec::new();
    let mut k: usize = 0;
    while k < idx.len()
        invariant
            k <= idx@.len(),
            forall|j: int| 0 <= j < idx@.len() ==> #[trigger] idx@[j] < pool@.len(),
            r@ == colors_at(pool@, idx@.take(k as int)),
        decreases idx@.len() - k,
    {
        r.push(pool[idx[k]]);
        proof {
            assert(colors_at(pool@, idx@.take(k + 1)) =~= colors_at(pool@, idx@.take(k as int)).push(pool@[idx@[k as int] as int]));
        }
        k += 1;
    }
    assert(idx@.take(idx@.len() as int) =~= idx@);
    r
}

} // verus!
