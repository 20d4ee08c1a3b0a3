//! Balanced max-min partitioning of a working colour set into groups:
//! greedy construction followed by random swap trials that never lower the
//! sum of the groups' smallest internal distances.

use vstd::prelude::*;
use rand::rngs::StdRng;
use crate::color::{delta, delta_e, lemma_delta_zero_and_symmetric, Color, LabColor};
use crate::random::{index_range, random_index};
use vstd::slice::slice_subrange;
use vstd::multiset::Multiset;

verus! {

/// Entry `(a, b)` of a row-major `n x n` matrix.
pub open spec fn entry(dm: Seq<u64>, n: int, a: int, b: int) -> u64 {
    dm[a * n + b]
}

/// `dm` is the distance matrix of `labs`.
pub open spec fn is_distance_matrix(dm: Seq<u64>, labs: Seq<LabColor>) -> bool {
    &&& dm.len() == labs.len() * labs.len()
    &&& forall|a: int, b: int|
        0 <= a < labs.len() && 0 <= b < labs.len() ==> #[trigger] entry(dm, labs.len() as int, a, b)
            == delta(labs[a], labs[b])
}

pub proof fn lemma_index_in_matrix(n: int, a: int, b: int)
    requires
        0 <= a < n,
        0 <= b < n,
    ensures
        0 <= a * n + b < n * n,
{
    assert(a * n + b < n * n) by (nonlinear_arith)
        requires
            0 <= a < n,
            0 <= b < n,
    ;
    assert(0 <= a * n) by (nonlinear_arith)
        requires
            0 <= a,
            0 <= n,
    ;
}

proof fn lemma_row_major_distinct(n: int, a: int, b: int, c: int, d: int)
    requires
        0 <= b < n,
        0 <= d < n,
        0 <= a,
        0 <= c,
        (a, b) != (c, d),
    ensures
        a * n + b != c * n + d,
{
    if a == c {
    } else if a < c {
        assert(a * n + b < c * n + d) by (nonlinear_arith)
            requires
                a < c,
                0 <= b < n,
                0 <= d,
        ;
    } else {
        assert(c * n + d < a * n + b) by (nonlinear_arith)
            requires
                c < a,
                0 <= d < n,
                0 <= b,
        ;
    }
}

/// All pairwise distances of `labs`, row-major: entry `(i, j)` is the
/// distance from `labs[i]` to `labs[j]`. The matrix is symmetric with a
/// zero diagonal.
pub fn pairwise_delta_matrix(labs: &Vec<LabColor>) -> (dm: Vec<u64>)
    requires
        labs@.len() * labs@.len() <= usize::MAX,
    ensures
        is_distance_matrix(dm@, labs@),
{
    let n = labs.len();
    let mut dm: Vec<u64> = Vec::new();
    let mut i: usize = 0;
    while i < n
        invariant
            n == labs@.len(),
            n * n <= usize::MAX,
            i <= n,
            dm@.len() == i * n,
            forall|a: int, b: int|
                0 <= a < i && 0 <= b < n ==> #[trigger] entry(dm@, n as int, a, b) == delta(
                    labs@[a],
                    labs@[b],
                ),
        decreases n - i,
    {
        let mut j: usize = 0;
        while j < n
            invariant
                n == labs@.len(),
                n * n <= usize::MAX,
                i < n,
                j <= n,
                dm@.len() == i * n + j,
                forall|a: int, b: int|
                    0 <= a < i && 0 <= b < n ==> #[trigger] entry(dm@, n as int, a, b) == delta(
                        labs@[a],
                        labs@[b],
                    ),
                forall|b: int| 0 <= b < j ==> #[trigger] entry(dm@, n as int, i as int, b) == delta(
                    labs@[i as int],
                    labs@[b],
                ),
            decreases n - j,
        {
            proof {
                lemma_index_in_matrix(n as int, j as int, i as int);
                lemma_index_in_matrix(n as int, i as int, j as int);
                if j < i {
                    assert(j * n + i < i * n) by (nonlinear_arith)
                        requires
                            j < i,
                            i < n,
                    ;
                }
            }
            let d = if j < i {
                dm[j * n + i]
            } else {
                delta_e(labs[i], labs[j])
            };
            proof {
                if j < i {
                    assert(entry(dm@, n as int, j as int, i as int) == delta(labs@[j as int], labs@[i as int]));
                    lemma_delta_zero_and_symmetric(labs@[j as int], labs@[i as int]);
                }
            }
            let ghost prev = dm@;
            dm.push(d);
            proof {
                assert forall|a: int, b: int|
                    0 <= a < i && 0 <= b < n implies #[trigger] entry(dm@, n as int, a, b) == delta(
                    labs@[a],
                    labs@[b],
                ) by {
                    lemma_index_in_matrix(n as int, a, b);
                    assert(a * n + b < i * n) by (nonlinear_arith)
                        requires
                            a < i,
                            b < n,
                    ;
                    assert(entry(prev, n as int, a, b) == delta(labs@[a], labs@[b]));
                }
                assert forall|b: int| 0 <= b < j + 1 implies #[trigger] entry(dm@, n as int, i as int, b) == delta(
                    labs@[i as int],
                    labs@[b],
                ) by {
                    if b < j {
                        assert(entry(prev, n as int, i as int, b) == delta(labs@[i as int], labs@[b]));
                    }
                }
            }
            j += 1;
        }
        assert((i + 1) * n == i * n + n) by (nonlinear_arith);
        i += 1;
    }
    proof {
        assert(dm@.len() == labs@.len() * labs@.len());
    }
    dm
}

/// The distance that a matrix gives between positions `a < b` of group `g`.
pub open spec fn pair_distance(dm: Seq<u64>, n: int, g: Seq<usize>, a: int, b: int) -> u64 {
    entry(dm, n, g[a] as int, g[b] as int)
}

/// `v` is the smallest distance between two members of `g`.
pub open spec fn is_min_of_pairs(dm: Seq<u64>, n: int, g: Seq<usize>, v: u64) -> bool {
    &&& exists|a: int, b: int| 0 <= a < b < g.len() && v == #[trigger] pair_distance(dm, n, g, a, b)
    &&& forall|a: int, b: int| 0 <= a < b < g.len() ==> v <= #[trigger] pair_distance(dm, n, g, a, b)
}

/// The smallest distance between two members of a group; `u64::MAX` (no
/// bound) for a group of fewer than two members.
pub open spec fn group_min_spec(dm: Seq<u64>, n: int, g: Seq<usize>) -> u64 {
    if g.len() < 2 {
        u64::MAX
    } else {
        choose|v: u64| is_min_of_pairs(dm, n, g, v)
    }
}

pub proof fn lemma_group_min_is(dm: Seq<u64>, n: int, g: Seq<usize>, v: u64)
    requires
        g.len() >= 2,
        is_min_of_pairs(dm, n, g, v),
    ensures
        group_min_spec(dm, n, g) == v,
{
    let w = group_min_spec(dm, n, g);
    assert(is_min_of_pairs(dm, n, g, w));
    let (a, b) = choose|a: int, b: int| 0 <= a < b < g.len() && v == #[trigger] pair_distance(dm, n, g, a, b);
    let (c, d) = choose|c: int, d: int| 0 <= c < d < g.len() && w == #[trigger] pair_distance(dm, n, g, c, d);
    assert(w <= pair_distance(dm, n, g, a, b));
    assert(v <= pair_distance(dm, n, g, c, d));
}

/// Members of `g` are rows of an `n x n` matrix stored in `dm`.
pub open spec fn group_in_matrix(dm: Seq<u64>, n: int, g: Seq<usize>) -> bool {
    &&& dm.len() == n * n
    &&& forall|k: int| 0 <= k < g.len() ==> #[trigger] g[k] < n
}

/// The smallest matrix distance between two members of `group`, or
/// `u64::MAX` when the group has fewer than two members.
pub fn group_min(dm: &Vec<u64>, n: usize, group: &[usize]) -> (r: u64)
    requires
        group_in_matrix(dm@, n as int, group@),
    ensures
        r == group_min_spec(dm@, n as int, group@),
{
    let dlen = dm.len();
    let mut min_d: u64 = u64::MAX;
    let ghost mut wa: int = 0;
    let ghost mut wb: int = 0;
    let mut i: usize = 0;
    while i < group.len()
        invariant
            group_in_matrix(dm@, n as int, group@),
            dlen == dm@.len(),
            group@.len() < 2 ==> min_d == u64::MAX,
            i <= group@.len(),
            forall|a: int, b: int|
                0 <= a < i && a < b < group@.len() ==> min_d <= #[trigger] pair_distance(dm@, n as int, group@, a, b),
            i >= 1 && group@.len() >= 2 ==> 0 <= wa < wb < group@.len() && min_d == pair_distance(dm@, n as int, group@, wa, wb),
            i == 0 ==> min_d == u64::MAX,
        decreases group@.len() - i,
    {
        let mut j: usize = i + 1;
        while j < group.len()
            invariant
                group_in_matrix(dm@, n as int, group@),
                dlen == dm@.len(),
                group@.len() < 2 ==> min_d == u64::MAX,
                i < group@.len(),
                i + 1 <= j <= group@.len(),
                forall|a: int, b: int|
                    0 <= a < i && a < b < group@.len() ==> min_d <= #[trigger] pair_distance(dm@, n as int, group@, a, b),
                forall|b: int|
                    i < b < j ==> min_d <= #[trigger] pair_distance(dm@, n as int, group@, i as int, b),
                (i >= 1 || j > i + 1) ==> 0 <= wa < wb < group@.len() && min_d == pair_distance(dm@, n as int, group@, wa, wb),
                i == 0 && j == 1 ==> min_d == u64::MAX,
            decreases group@.len() - j,
        {
            proof {
                lemma_index_in_matrix(n as int, group@[i as int] as int, group@[j as int] as int);
            }
            let d = dm[group[i] * n + group[j]];
            if d < min_d || (i == 0 && j == 1) {
                min_d = d;
                proof {
                    wa = i as int;
                    wb = j as int;
                }
            }
            j += 1;
        }
        i += 1;
    }
    proof {
        if group@.len() >= 2 {
            lemma_group_min_is(dm@, n as int, group@, min_d);
        }
    }
    min_d
}

/// The indices `0..n` in order.
pub open spec fn index_seq(n: int) -> Seq<usize> {
    Seq::new(n as nat, |k: int| k as usize)
}

/// `a` lists each index of `0..n` exactly once.
pub open spec fn is_assignment(a: Seq<usize>, n: int) -> bool {
    a.len() == n && a.to_multiset() == index_seq(n).to_multiset()
}

/// Group `g` of a flat assignment whose groups have `gs` members each.
pub open spec fn group_of(a: Seq<usize>, gs: int, g: int) -> Seq<usize> {
    a.subrange(g * gs, g * gs + gs)
}

pub proof fn lemma_assignment_facts(a: Seq<usize>, n: int)
    requires
        is_assignment(a, n),
        n <= usize::MAX,
    ensures
        a.no_duplicates(),
        forall|k: int| 0 <= k < a.len() ==> #[trigger] a[k] < n,
{
    let full = index_seq(n);
    assert forall|i: int, j: int| 0 <= i < full.len() && 0 <= j < full.len() && i != j implies full[i] != full[j] by {
        assert(full[i] == i && full[j] == j);
    }
    assert(full.no_duplicates());
    full.lemma_multiset_has_no_duplicates();
    a.lemma_multiset_has_no_duplicates_conv();
    assert forall|k: int| 0 <= k < a.len() implies #[trigger] a[k] < n by {
        vstd::seq_lib::to_multiset_contains(a, a[k]);
        vstd::seq_lib::to_multiset_contains(full, a[k]);
        assert(a.contains(a[k]));
    }
}

proof fn lemma_move_to_group(a: Seq<usize>, g: Seq<usize>, r: Seq<usize>, p: int)
    requires
        0 <= p < r.len(),
    ensures
        (a + g.push(r[p]) + r.remove(p)).to_multiset() == (a + g + r).to_multiset(),
{
    broadcast use vstd::seq_lib::lemma_multiset_commutative;
    broadcast use vstd::seq_lib::to_multiset_build;
    broadcast use vstd::seq_lib::to_multiset_remove;
    broadcast use vstd::multiset::group_multiset_axioms;

    vstd::seq_lib::to_multiset_contains(r, r[p]);
    assert(r.contains(r[p]));
    assert((a + g.push(r[p]) + r.remove(p)).to_multiset() =~= (a + g + r).to_multiset());
}

/// Whether position pair `(a, b)` comes before `(c, d)` in scanning order.
pub open spec fn scans_before(a: int, b: int, c: int, d: int) -> bool {
    a < c || (a == c && b < d)
}

/// The first pair of positions `bi < bj` of `r` (in scanning order) whose
/// members are farthest apart.
pub fn farthest_pair(dm: &Vec<u64>, n: usize, r: &Vec<usize>) -> (p: (usize, usize))
    requires
        dm@.len() == n * n,
        r@.len() >= 2,
        forall|q: int| 0 <= q < r@.len() ==> #[trigger] r@[q] < n,
    ensures
        0 <= p.0 < p.1 < r@.len(),
        forall|i: int, j: int|
            0 <= i < j < r@.len() ==> #[trigger] pair_distance(dm@, n as int, r@, i, j) <= pair_distance(
                dm@,
                n as int,
                r@,
                p.0 as int,
                p.1 as int,
            ),
        forall|i: int, j: int|
            0 <= i < j < r@.len() && scans_before(i, j, p.0 as int, p.1 as int) ==> #[trigger] pair_distance(
                dm@,
                n as int,
                r@,
                i,
                j,
            ) < pair_distance(dm@, n as int, r@, p.0 as int, p.1 as int),
{
    let dlen = dm.len();
    let rlen = r.len();
    proof {
        lemma_index_in_matrix(n as int, r@[0] as int, r@[1] as int);
    }
    let mut bi: usize = 0;
    let mut bj: usize = 1;
    let mut best_d: u64 = dm[r[0] * n + r[1]];
    let mut i: usize = 0;
    while i < rlen
        invariant
            dlen == dm@.len(),
            dm@.len() == n * n,
            rlen == r@.len(),
            rlen >= 2,
            forall|q: int| 0 <= q < r@.len() ==> #[trigger] r@[q] < n,
            0 <= bi < bj < rlen,
            i <= rlen,
            best_d == pair_distance(dm@, n as int, r@, bi as int, bj as int),
            bi < i || (bi == i && bj <= i + 1),
            forall|a: int, b: int|
                0 <= a < b < rlen && a < i ==> #[trigger] pair_distance(dm@, n as int, r@, a, b) <= best_d,
            forall|a: int, b: int|
                0 <= a < b < rlen && a < i && scans_before(a, b, bi as int, bj as int) ==> #[trigger] pair_distance(
                    dm@,
                    n as int,
                    r@,
                    a,
                    b,
                ) < best_d,
        decreases rlen - i,
    {
        let mut j: usize = i + 1;
        while j < rlen
            invariant
                dlen == dm@.len(),
                dm@.len() == n * n,
                rlen == r@.len(),
                forall|q: int| 0 <= q < r@.len() ==> #[trigger] r@[q] < n,
                0 <= bi < bj < rlen,
                i < rlen,
                i + 1 <= j,
                best_d == pair_distance(dm@, n as int, r@, bi as int, bj as int),
                bi < i || (bi == i && bj <= j),
                forall|a: int, b: int|
                    0 <= a < b < rlen && scans_before(a, b, i as int, j as int) ==> #[trigger] pair_distance(
                        dm@,
                        n as int,
                        r@,
                        a,
                        b,
                    ) <= best_d,
                forall|a: int, b: int|
                    0 <= a < b < rlen && scans_before(a, b, i as int, j as int) && scans_before(
                        a,
                        b,
                        bi as int,
                        bj as int,
                    ) ==> #[trigger] pair_distance(dm@, n as int, r@, a, b) < best_d,
            decreases rlen - j,
        {
            proof {
                lemma_index_in_matrix(n as int, r@[i as int] as int, r@[j as int] as int);
            }
            let d = dm[r[i] * n + r[j]];
            if d > best_d {
                bi = i;
                bj = j;
                best_d = d;
            }
            j += 1;
        }
        i += 1;
    }
    (bi, bj)
}

/// The smallest matrix distance from any member of `g` to `c`
/// (`u64::MAX` for an empty group).
pub open spec fn min_dist(dm: Seq<u64>, n: int, g: Seq<usize>, c: int) -> u64
    decreases g.len(),
{
    if g.len() == 0 {
        u64::MAX
    } else {
        let m = min_dist(dm, n, g.drop_last(), c);
        let d = entry(dm, n, g.last() as int, c);
        if d < m {
            d
        } else {
            m
        }
    }
}

/// The first position of `r` whose smallest distance to the members of
/// `group` is largest.
pub fn best_extension(dm: &Vec<u64>, n: usize, group: &Vec<usize>, r: &Vec<usize>) -> (p: usize)
    requires
        dm@.len() == n * n,
        r@.len() > 0,
        forall|q: int| 0 <= q < r@.len() ==> #[trigger] r@[q] < n,
        forall|q: int| 0 <= q < group@.len() ==> #[trigger] group@[q] < n,
    ensures
        p < r@.len(),
        forall|q: int| 0 <= q < r@.len() ==> min_dist(dm@, n as int, group@, #[trigger] r@[q] as int) <= min_dist(
            dm@,
            n as int,
            group@,
            r@[p as int] as int,
        ),
        forall|q: int| 0 <= q < p ==> min_dist(dm@, n as int, group@, #[trigger] r@[q] as int) < min_dist(
            dm@,
            n as int,
            group@,
            r@[p as int] as int,
        ),
{
    let dlen = dm.len();
    let mut best_p: usize = 0;
    let mut best_score: u64 = 0;
    let mut have = false;
    let mut p: usize = 0;
    while p < r.len()
        invariant
            dlen == dm@.len(),
            dm@.len() == n * n,
            r@.len() > 0,
            p <= r@.len(),
            best_p < r@.len(),
            have == (p > 0),
            have ==> best_p < p,
            have ==> best_score == min_dist(dm@, n as int, group@, r@[best_p as int] as int),
            forall|q: int| 0 <= q < p ==> min_dist(dm@, n as int, group@, #[trigger] r@[q] as int) <= best_score,
            forall|q: int| 0 <= q < best_p ==> min_dist(dm@, n as int, group@, #[trigger] r@[q] as int) < best_score,
            forall|q: int| 0 <= q < r@.len() ==> #[trigger] r@[q] < n,
            forall|q: int| 0 <= q < group@.len() ==> #[trigger] group@[q] < n,
        decreases r@.len() - p,
    {
        let c = r[p];
        let mut m: u64 = u64::MAX;
        let mut q: usize = 0;
        while q < group.len()
            invariant
                dlen == dm@.len(),
                dm@.len() == n * n,
                c < n,
                q <= group@.len(),
                forall|t: int| 0 <= t < group@.len() ==> #[trigger] group@[t] < n,
                m == min_dist(dm@, n as int, group@.take(q as int), c as int),
            decreases group@.len() - q,
        {
            proof {
                lemma_index_in_matrix(n as int, group@[q as int] as int, c as int);
                assert(group@.take(q + 1).drop_last() =~= group@.take(q as int));
                assert(group@.take(q + 1).last() == group@[q as int]);
            }
            let d = dm[group[q] * n + c];
            if d < m {
                m = d;
            }
            q += 1;
        }
        proof {
            assert(group@.take(group@.len() as int) =~= group@);
        }
        if !have || m > best_score {
            best_score = m;
            best_p = p;
            have = true;
        }
        p += 1;
    }
    best_p
}

/// `x` is among the entries of `s` from position `f` on.
pub open spec fn tail_has(s: Seq<usize>, f: int, x: usize) -> bool {
    s.subrange(f, s.len() as int).contains(x)
}

/// Group `k` of `s` is seeded with a farthest pair among the entries not
/// placed in earlier groups.
pub open spec fn seed_ok(dm: Seq<u64>, n: int, s: Seq<usize>, gs: int, k: int) -> bool {
    forall|x: usize, y: usize|
        tail_has(s, k * gs, x) && tail_has(s, k * gs, y) && x != y ==> #[trigger] entry(dm, n, x as int, y as int)
            <= entry(dm, n, s[k * gs] as int, s[k * gs + 1] as int)
}

/// Member `t` of group `k` of `s` has, among the entries not placed before
/// it, the largest smallest distance to the group's earlier members.
pub open spec fn extension_ok(dm: Seq<u64>, n: int, s: Seq<usize>, gs: int, k: int, t: int) -> bool {
    forall|x: usize|
        tail_has(s, k * gs + t, x) ==> #[trigger] min_dist(dm, n, s.subrange(k * gs, k * gs + t), x as int)
            <= min_dist(dm, n, s.subrange(k * gs, k * gs + t), s[k * gs + t] as int)
}

/// `a` is a greedy partition: every group starts with a farthest pair of
/// the entries left for it, and every later member is a best extension.
pub open spec fn is_greedy_assignment(dm: Seq<u64>, n: int, a: Seq<usize>, tc: int, gs: int) -> bool {
    &&& forall|k: int| 0 <= k < tc ==> #[trigger] seed_ok(dm, n, a, gs, k)
    &&& forall|k: int, t: int| 0 <= k < tc && 2 <= t < gs ==> #[trigger] extension_ok(dm, n, a, gs, k, t)
}

/// Group `k` of `a` starts with its seed pair in increasing order.
pub open spec fn seed_in_order(a: Seq<usize>, gs: int, k: int) -> bool {
    a[k * gs] < a[k * gs + 1]
}

/// The matrix gives the same distance both ways.
pub open spec fn is_symmetric(dm: Seq<u64>, n: int) -> bool {
    forall|a: int, b: int| 0 <= a < n && 0 <= b < n ==> #[trigger] entry(dm, n, a, b) == entry(dm, n, b, a)
}

pub proof fn lemma_distance_matrix_symmetric(dm: Seq<u64>, labs: Seq<LabColor>)
    requires
        is_distance_matrix(dm, labs),
    ensures
        is_symmetric(dm, labs.len() as int),
{
    assert forall|a: int, b: int| 0 <= a < labs.len() && 0 <= b < labs.len() implies #[trigger] entry(
        dm,
        labs.len() as int,
        a,
        b,
    ) == entry(dm, labs.len() as int, b, a) by {
        lemma_delta_zero_and_symmetric(labs[a], labs[b]);
    }
}

/// Moving entry `q` of `r` to the end of `p` keeps `p` and every tail that
/// starts inside `p`.
proof fn lemma_move_tails(p: Seq<usize>, r: Seq<usize>, q: int)
    requires
        0 <= q < r.len(),
    ensures
        (p.push(r[q]) + r.remove(q)).len() == (p + r).len(),
        forall|i: int| 0 <= i < p.len() ==> (p.push(r[q]) + r.remove(q))[i] == (p + r)[i],
        forall|f: int, x: usize|
            0 <= f <= p.len() ==> #[trigger] tail_has(p.push(r[q]) + r.remove(q), f, x) == tail_has(p + r, f, x),
{
    let s = p + r;
    let s2 = p.push(r[q]) + r.remove(q);
    assert forall|f: int, x: usize| 0 <= f <= p.len() implies #[trigger] tail_has(s2, f, x) == tail_has(s, f, x) by {
        let head = p.subrange(f, p.len() as int);
        assert(s2.subrange(f, s2.len() as int) =~= head + Seq::<usize>::empty().push(r[q]) + r.remove(q));
        assert(s.subrange(f, s.len() as int) =~= head + Seq::<usize>::empty() + r);
        lemma_move_to_group(head, Seq::<usize>::empty(), r, q);
        vstd::seq_lib::to_multiset_contains(s2.subrange(f, s2.len() as int), x);
        vstd::seq_lib::to_multiset_contains(s.subrange(f, s.len() as int), x);
    }
}

/// Greedy facts about positions below `m` survive any change that keeps
/// those positions and the entries of every tail starting at or below `m`.
proof fn lemma_greedy_facts_kept(dm: Seq<u64>, n: int, s: Seq<usize>, s2: Seq<usize>, gs: int, m: int)
    requires
        0 <= m <= s.len(),
        s2.len() == s.len(),
        gs >= 0,
        forall|i: int| 0 <= i < m ==> s2[i] == s[i],
        forall|f: int, x: usize| 0 <= f <= m ==> #[trigger] tail_has(s2, f, x) == tail_has(s, f, x),
    ensures
        forall|k: int| 0 <= k && k * gs + 1 < m && seed_ok(dm, n, s, gs, k) ==> #[trigger] seed_ok(dm, n, s2, gs, k),
        forall|k: int, t: int|
            0 <= k && 0 <= t && k * gs + t < m && extension_ok(dm, n, s, gs, k, t) ==> #[trigger] extension_ok(
                dm,
                n,
                s2,
                gs,
                k,
                t,
            ),
{
    assert forall|k: int| 0 <= k && k * gs + 1 < m && seed_ok(dm, n, s, gs, k) implies #[trigger] seed_ok(dm, n, s2, gs, k) by {
        assert(0 <= k * gs) by (nonlinear_arith)
            requires
                0 <= k,
                0 <= gs,
        ;
        assert forall|x: usize, y: usize|
            tail_has(s2, k * gs, x) && tail_has(s2, k * gs, y) && x != y implies #[trigger] entry(dm, n, x as int, y as int)
                <= entry(dm, n, s2[k * gs] as int, s2[k * gs + 1] as int) by {
            assert(tail_has(s2, k * gs, x) == tail_has(s, k * gs, x));
            assert(tail_has(s2, k * gs, y) == tail_has(s, k * gs, y));
        }
    }
    assert forall|k: int, t: int|
        0 <= k && 0 <= t && k * gs + t < m && extension_ok(dm, n, s, gs, k, t) implies #[trigger] extension_ok(
        dm,
        n,
        s2,
        gs,
        k,
        t,
    ) by {
        assert(0 <= k * gs) by (nonlinear_arith)
            requires
                0 <= k,
                0 <= gs,
        ;
        assert(s2.subrange(k * gs, k * gs + t) =~= s.subrange(k * gs, k * gs + t));
        assert forall|x: usize| tail_has(s2, k * gs + t, x) implies #[trigger] min_dist(
            dm,
            n,
            s2.subrange(k * gs, k * gs + t),
            x as int,
        ) <= min_dist(dm, n, s2.subrange(k * gs, k * gs + t), s2[k * gs + t] as int) by {
            assert(tail_has(s2, k * gs + t, x) == tail_has(s, k * gs + t, x));
        }
    }
}

/// Phase one: groups are built one after another, each seeded with the
/// farthest pair among the unplaced indices and extended by the unplaced
/// index whose smallest distance to the group is largest. The result lists
/// the groups' members one group after the other.
#[verifier::rlimit(60)]
pub fn greedy_assignment(dm: &Vec<u64>, n: usize, tag_count: usize, group_size: usize) -> (assign: Vec<usize>)
    requires
        dm@.len() == n * n,
        is_symmetric(dm@, n as int),
        n == tag_count * group_size,
        tag_count == 0 || group_size >= 2,
    ensures
        is_assignment(assign@, n as int),
        is_greedy_assignment(dm@, n as int, assign@, tag_count as int, group_size as int),
        forall|k: int| 0 <= k < tag_count ==> #[trigger] seed_in_order(assign@, group_size as int, k),
{
    let mut remaining = index_range(n);
    let mut assign: Vec<usize> = Vec::new();
    let ghost full = index_seq(n as int);
    let ghost gs = group_size as int;
    proof {
        assert(remaining@ =~= full);
        assert(assign@ + remaining@ =~= full);
    }
    let ghost mut k: int = 0;
    while remaining.len() > 0
        invariant
            dm@.len() == n * n,
            is_symmetric(dm@, n as int),
            n == tag_count * group_size,
            gs == group_size,
            tag_count == 0 || group_size >= 2,
            0 <= k <= tag_count,
            assign@.len() == k * group_size,
            remaining@.len() == (tag_count - k) * group_size,
            forall|q: int| 0 <= q < remaining@.len() ==> #[trigger] remaining@[q] < n,
            (assign@ + remaining@).to_multiset() == full.to_multiset(),
            forall|x: int, y: int| 0 <= x < y < remaining@.len() ==> #[trigger] remaining@[x] < #[trigger] remaining@[y],
            forall|h: int| 0 <= h < k ==> #[trigger] seed_in_order(assign@, gs, h),
            forall|h: int| 0 <= h < k ==> #[trigger] seed_ok(dm@, n as int, assign@ + remaining@, gs, h),
            forall|h: int, t: int|
                0 <= h < k && 2 <= t < gs ==> #[trigger] extension_ok(dm@, n as int, assign@ + remaining@, gs, h, t),
        decreases remaining@.len(),
    {
        proof {
            assert(k < tag_count) by (nonlinear_arith)
                requires
                    remaining@.len() == (tag_count - k) * group_size,
                    remaining@.len() > 0,
                    k <= tag_count,
            ;
            assert(remaining@.len() >= group_size) by (nonlinear_arith)
                requires
                    remaining@.len() == (tag_count - k) * group_size,
                    k < tag_count,
                    group_size >= 0,
            ;
        }
        let (bi, bj) = farthest_pair(dm, n, &remaining);
        let mut group: Vec<usize> = Vec::new();
        let ghost s0 = assign@ + remaining@;
        let ghost r0 = remaining@;
        let a = remaining.remove(bi);
        proof {
            lemma_move_to_group(assign@, group@, r0, bi as int);
            lemma_move_tails(assign@ + group@, r0, bi as int);
            assert(assign@ + group@.push(a) + remaining@ =~= (assign@ + group@).push(a) + remaining@);
            assert(assign@ + group@ + r0 =~= s0);
        }
        group.push(a);
        let ghost s1 = assign@ + group@ + remaining@;
        let ghost r1 = remaining@;
        let b = remaining.remove(bj - 1);
        proof {
            lemma_move_to_group(assign@, group@, r1, bj - 1);
            lemma_move_tails(assign@ + group@, r1, bj - 1);
            assert(assign@ + group@.push(b) + remaining@ =~= (assign@ + group@).push(b) + remaining@);
        }
        group.push(b);
        proof {
            let s2 = assign@ + group@ + remaining@;
            let m = assign@.len() as int;
            lemma_greedy_facts_kept(dm@, n as int, s0, s1, gs, m);
            lemma_greedy_facts_kept(dm@, n as int, s1, s2, gs, m + 1);
            assert forall|h: int| 0 <= h < k implies #[trigger] seed_ok(dm@, n as int, s2, gs, h) by {
                lemma_group_bounds(k, gs, h);
                assert(seed_ok(dm@, n as int, s1, gs, h));
            }
            assert forall|h: int, t: int| 0 <= h < k && 2 <= t < gs implies #[trigger] extension_ok(
                dm@,
                n as int,
                s2,
                gs,
                h,
                t,
            ) by {
                lemma_group_bounds(k, gs, h);
                assert(extension_ok(dm@, n as int, s1, gs, h, t));
            }
            assert(s0.subrange(m, s0.len() as int) =~= r0);
            assert(s2[m] == a && s2[m + 1] == b);
            assert forall|x: usize, y: usize|
                tail_has(s2, k * gs, x) && tail_has(s2, k * gs, y) && x != y implies #[trigger] entry(
                dm@,
                n as int,
                x as int,
                y as int,
            ) <= entry(dm@, n as int, s2[k * gs] as int, s2[k * gs + 1] as int) by {
                assert(tail_has(s2, m, x) == tail_has(s1, m, x));
                assert(tail_has(s1, m, x) == tail_has(s0, m, x));
                assert(tail_has(s2, m, y) == tail_has(s1, m, y));
                assert(tail_has(s1, m, y) == tail_has(s0, m, y));
                let i = choose|i: int| 0 <= i < r0.len() && r0[i] == x;
                let j = choose|j: int| 0 <= j < r0.len() && r0[j] == y;
                if i < j {
                    assert(pair_distance(dm@, n as int, r0, i, j) <= pair_distance(dm@, n as int, r0, bi as int, bj as int));
                } else {
                    assert(pair_distance(dm@, n as int, r0, j, i) <= pair_distance(dm@, n as int, r0, bi as int, bj as int));
                    assert(entry(dm@, n as int, x as int, y as int) == entry(dm@, n as int, y as int, x as int));
                }
            }
            assert(seed_ok(dm@, n as int, s2, gs, k));
        }
        while group.len() < group_size
            invariant
                dm@.len() == n * n,
                is_symmetric(dm@, n as int),
                n == tag_count * group_size,
                gs == group_size,
                k < tag_count,
                0 <= k,
                assign@.len() == k * group_size,
                2 <= group@.len() <= group_size,
                group@.len() + remaining@.len() == (tag_count - k) * group_size,
                forall|q: int| 0 <= q < remaining@.len() ==> #[trigger] remaining@[q] < n,
                forall|q: int| 0 <= q < group@.len() ==> #[trigger] group@[q] < n,
                forall|x: int, y: int| 0 <= x < y < remaining@.len() ==> #[trigger] remaining@[x] < #[trigger] remaining@[y],
                forall|h: int| 0 <= h < k ==> #[trigger] seed_in_order(assign@, gs, h),
                group@[0] < group@[1],
                (assign@ + group@ + remaining@).to_multiset() == full.to_multiset(),
                forall|h: int| 0 <= h <= k ==> #[trigger] seed_ok(dm@, n as int, assign@ + group@ + remaining@, gs, h),
                forall|h: int, t: int|
                    ((0 <= h < k && 2 <= t < gs) || (h == k && 2 <= t < group@.len())) ==> #[trigger] extension_ok(
                        dm@,
                        n as int,
                        assign@ + group@ + remaining@,
                        gs,
                        h,
                        t,
                    ),
            decreases group_size - group@.len(),
        {
            proof {
                assert((tag_count - k) * group_size >= group_size) by (nonlinear_arith)
                    requires
                        k < tag_count,
                        group_size >= 0,
                ;
            }
            let best_p = best_extension(dm, n, &group, &remaining);
            let ghost sb = assign@ + group@ + remaining@;
            let ghost gb = group@;
            let ghost rb = remaining@;
            let c = remaining.remove(best_p);
            proof {
                lemma_move_to_group(assign@, group@, rb, best_p as int);
                lemma_move_tails(assign@ + group@, rb, best_p as int);
                assert(assign@ + group@.push(c) + remaining@ =~= (assign@ + group@).push(c) + remaining@);
                assert(assign@ + group@ + rb =~= sb);
            }
            group.push(c);
            proof {
                let s2 = assign@ + group@ + remaining@;
                let m = (assign@.len() + gb.len()) as int;
                let t0 = gb.len() as int;
                lemma_greedy_facts_kept(dm@, n as int, sb, s2, gs, m);
                assert forall|h: int| 0 <= h <= k implies #[trigger] seed_ok(dm@, n as int, s2, gs, h) by {
                    assert(0 <= h * gs <= k * gs) by (nonlinear_arith)
                        requires
                            0 <= h <= k,
                            gs >= 0,
                    ;
                    assert(seed_ok(dm@, n as int, sb, gs, h));
                }
                assert(s2.subrange(k * gs, k * gs + t0) =~= gb);
                assert(sb.subrange(m, sb.len() as int) =~= rb);
                assert(s2[k * gs + t0] == c);
                assert forall|x: usize| tail_has(s2, k * gs + t0, x) implies #[trigger] min_dist(
                    dm@,
                    n as int,
                    s2.subrange(k * gs, k * gs + t0),
                    x as int,
                ) <= min_dist(dm@, n as int, s2.subrange(k * gs, k * gs + t0), s2[k * gs + t0] as int) by {
                    assert(tail_has(s2, m, x) == tail_has(sb, m, x));
                    let q = choose|q: int| 0 <= q < rb.len() && rb[q] == x;
                    assert(min_dist(dm@, n as int, gb, rb[q] as int) <= min_dist(dm@, n as int, gb, rb[best_p as int] as int));
                }
                assert(extension_ok(dm@, n as int, s2, gs, k, t0));
                assert forall|h: int, t: int|
                    ((0 <= h < k && 2 <= t < gs) || (h == k && 2 <= t < group@.len())) implies #[trigger] extension_ok(
                    dm@,
                    n as int,
                    s2,
                    gs,
                    h,
                    t,
                ) by {
                    if h < k {
                        lemma_group_bounds(k, gs, h);
                        assert(extension_ok(dm@, n as int, sb, gs, h, t));
                    } else if t < t0 {
                        assert(extension_ok(dm@, n as int, sb, gs, h, t));
                    }
                }
            }
        }
        let ghost before_assign = assign@;
        let ghost before_group = group@;
        let ghost s_end = assign@ + group@ + remaining@;
        assign.append(&mut group);
        proof {
            assert(assign@ == before_assign + before_group);
            assert(assign@ + remaining@ =~= s_end);
            assert forall|h: int| 0 <= h < k + 1 implies #[trigger] seed_in_order(assign@, gs, h) by {
                lemma_group_bounds(k + 1, gs, h);
                if h < k {
                    lemma_group_bounds(k, gs, h);
                    assert(seed_in_order(before_assign, gs, h));
                } else {
                    assert(assign@[k * gs] == before_group[0]);
                    assert(assign@[k * gs + 1] == before_group[1]);
                }
            }
            assert(assign@.len() == k * group_size + group_size);
            assert((k + 1) * group_size == k * group_size + group_size) by (nonlinear_arith);
            assert(remaining@.len() == (tag_count - (k + 1)) * group_size) by (nonlinear_arith)
                requires
                    before_group.len() + remaining@.len() == (tag_count - k) * group_size,
                    before_group.len() == group_size,
            ;
            assert forall|h: int, t: int|
                0 <= h < k + 1 && 2 <= t < gs implies #[trigger] extension_ok(dm@, n as int, assign@ + remaining@, gs, h, t) by {
                assert(extension_ok(dm@, n as int, s_end, gs, h, t));
            }
            assert forall|h: int| 0 <= h < k + 1 implies #[trigger] seed_ok(dm@, n as int, assign@ + remaining@, gs, h) by {
                assert(seed_ok(dm@, n as int, s_end, gs, h));
            }
            k = k + 1;
        }
    }
    proof {
        assert(remaining@ =~= Seq::<usize>::empty());
        assert(assign@ + remaining@ =~= assign@);
        if tag_count > 0 {
            assert(k == tag_count) by (nonlinear_arith)
                requires
                    0 == (tag_count - k) * group_size,
                    group_size >= 2,
                    k <= tag_count,
            ;
        }
        assert(assign@.len() == n);
    }
    assign
}

/// The sum, over the first `k` groups, of each group's smallest internal distance.
pub open spec fn total_score(dm: Seq<u64>, n: int, a: Seq<usize>, gs: int, k: int) -> int
    decreases k,
{
    if k <= 0 {
        0
    } else {
        total_score(dm, n, a, gs, k - 1) + group_min_spec(dm, n, group_of(a, gs, k - 1)) as int
    }
}

/// When only groups `i` and `j` differ, the total changes by their changes.
pub proof fn lemma_total_score_two_groups(
    dm: Seq<u64>,
    n: int,
    a: Seq<usize>,
    b: Seq<usize>,
    gs: int,
    i: int,
    j: int,
    k: int,
)
    requires
        i != j,
        forall|g: int| 0 <= g < k && g != i && g != j ==> group_of(b, gs, g) == group_of(a, gs, g),
    ensures
        total_score(dm, n, b, gs, k) - total_score(dm, n, a, gs, k) == (if 0 <= i < k {
            group_min_spec(dm, n, group_of(b, gs, i)) - group_min_spec(dm, n, group_of(a, gs, i))
        } else {
            0
        }) + (if 0 <= j < k {
            group_min_spec(dm, n, group_of(b, gs, j)) - group_min_spec(dm, n, group_of(a, gs, j))
        } else {
            0
        }),
    decreases k,
{
    if k > 0 {
        lemma_total_score_two_groups(dm, n, a, b, gs, i, j, k - 1);
    }
}

/// Writing inside group `i` leaves every other group as it was.
proof fn lemma_update_other_group(a: Seq<usize>, gs: int, i: int, ia: int, x: usize, g: int)
    requires
        0 <= ia < gs,
        0 <= i,
        0 <= g,
        g != i,
        i * gs + ia < a.len(),
        g * gs + gs <= a.len(),
    ensures
        group_of(a.update(i * gs + ia, x), gs, g) == group_of(a, gs, g),
{
    assert(0 <= g * gs) by (nonlinear_arith)
        requires
            0 <= g,
            0 <= gs,
    ;
    assert forall|t: int| 0 <= t < gs implies #[trigger] group_of(a.update(i * gs + ia, x), gs, g)[t]
        == group_of(a, gs, g)[t] by {
        lemma_row_major_distinct(gs, g, t, i, ia);
    }
    assert(group_of(a.update(i * gs + ia, x), gs, g) =~= group_of(a, gs, g));
}

proof fn lemma_group_bounds(k: int, gs: int, i: int)
    requires
        0 <= i < k,
        0 <= gs,
    ensures
        0 <= i * gs,
        i * gs + gs <= k * gs,
{
    assert(0 <= i * gs) by (nonlinear_arith)
        requires
            0 <= i,
            0 <= gs,
    ;
    assert(i * gs + gs <= k * gs) by (nonlinear_arith)
        requires
            i < k,
            0 <= gs,
    ;
}

/// The assignment with the members at `pa` and `pb` exchanged.
pub open spec fn swapped(a: Seq<usize>, pa: int, pb: int) -> Seq<usize> {
    a.update(pa, a[pb]).update(pb, a[pa])
}

/// The smallest internal distance of group `g` of an assignment.
fn assigned_group_min(assign: &Vec<usize>, dm: &Vec<u64>, n: usize, group_size: usize, g: usize, tag_count: usize) -> (r: u64)
    requires
        g < tag_count,
        assign@.len() == tag_count * group_size,
        dm@.len() == n * n,
        forall|q: int| 0 <= q < assign@.len() ==> #[trigger] assign@[q] < n,
    ensures
        r == group_min_spec(dm@, n as int, group_of(assign@, group_size as int, g as int)),
{
    let len = assign.len();
    proof {
        lemma_group_bounds(tag_count as int, group_size as int, g as int);
    }
    let start = g * group_size;
    let members = slice_subrange(assign.as_slice(), start, start + group_size);
    group_min(dm, n, members)
}

/// One swap trial: exchanges member `ia` of group `i` with member `jb` of
/// group `j`, keeps the exchange when the two groups' summed smallest
/// internal distances do not decrease, and undoes it otherwise. The total
/// score over all groups never decreases.
pub fn try_swap(
    assign: &mut Vec<usize>,
    dm: &Vec<u64>,
    n: usize,
    tag_count: usize,
    group_size: usize,
    i: usize,
    ia: usize,
    j: usize,
    jb: usize,
) -> (accepted: bool)
    requires
        i < tag_count,
        j < tag_count,
        i != j,
        ia < group_size,
        jb < group_size,
        old(assign)@.len() == tag_count * group_size,
        dm@.len() == n * n,
        forall|q: int| 0 <= q < old(assign)@.len() ==> #[trigger] old(assign)@[q] < n,
    ensures
        ({
            let gs = group_size as int;
            let pa = i * gs + ia;
            let pb = j * gs + jb;
            let before = old(assign)@;
            let after = swapped(before, pa, pb);
            &&& accepted == (group_min_spec(dm@, n as int, group_of(after, gs, i as int)) as int
                + group_min_spec(dm@, n as int, group_of(after, gs, j as int)) >= group_min_spec(
                dm@,
                n as int,
                group_of(before, gs, i as int),
            ) as int + group_min_spec(dm@, n as int, group_of(before, gs, j as int)))
            &&& final(assign)@ == if accepted {
                after
            } else {
                before
            }
        }),
        final(assign)@.len() == old(assign)@.len(),
        final(assign)@.to_multiset() == old(assign)@.to_multiset(),
        forall|q: int| 0 <= q < final(assign)@.len() ==> #[trigger] final(assign)@[q] < n,
        total_score(dm@, n as int, final(assign)@, group_size as int, tag_count as int)
            >= total_score(dm@, n as int, old(assign)@, group_size as int, tag_count as int),
{
    let ghost gs = group_size as int;
    let ghost before = assign@;
    let len = assign.len();
    proof {
        lemma_group_bounds(tag_count as int, gs, i as int);
        lemma_group_bounds(tag_count as int, gs, j as int);
    }
    let pa = i * group_size + ia;
    let pb = j * group_size + jb;
    let xa = assign[pa];
    let xb = assign[pb];
    let old_score: u128 = assigned_group_min(assign, dm, n, group_size, i, tag_count) as u128
        + assigned_group_min(assign, dm, n, group_size, j, tag_count) as u128;
    assign.set(pa, xb);
    assign.set(pb, xa);
    let ghost after = assign@;
    let new_score: u128 = assigned_group_min(assign, dm, n, group_size, i, tag_count) as u128
        + assigned_group_min(assign, dm, n, group_size, j, tag_count) as u128;
    proof {
        broadcast use vstd::seq_lib::to_multiset_update;
        broadcast use vstd::multiset::group_multiset_axioms;

        assert(after == swapped(before, pa as int, pb as int));
        vstd::seq_lib::to_multiset_contains(before, xa);
        vstd::seq_lib::to_multiset_contains(before, xb);
        assert(before.contains(xa));
        assert(before.contains(xb));
        assert(after.to_multiset() =~= before.to_multiset());
    }
    if new_score >= old_score {
        proof {
            assert forall|g: int| 0 <= g < tag_count && g != i && g != j implies group_of(after, gs, g)
                == group_of(before, gs, g) by {
                lemma_group_bounds(tag_count as int, gs, g);
                lemma_update_other_group(before, gs, i as int, ia as int, xb, g);
                lemma_update_other_group(before.update(pa as int, xb), gs, j as int, jb as int, xa, g);
            }
            lemma_total_score_two_groups(dm@, n as int, before, after, gs, i as int, j as int, tag_count as int);
        }
        true
    } else {
        assign.set(pa, xa);
        assign.set(pb, xb);
        proof {
            assert(assign@ =~= before);
        }
        false
    }
}

/// A swap trial `(i, ia, j, jb)`: member `ia` of group `i` against member
/// `jb` of another group `j`.
pub open spec fn valid_draw(d: (int, int, int, int), tc: int, gs: int) -> bool {
    &&& 0 <= d.0 < tc
    &&& 0 <= d.2 < tc
    &&& d.0 != d.2
    &&& 0 <= d.1 < gs
    &&& 0 <= d.3 < gs
}

/// The assignment after one swap trial: the exchange is kept when the two
/// groups' summed smallest internal distances do not decrease.
pub open spec fn swap_trial(dm: Seq<u64>, n: int, a: Seq<usize>, gs: int, d: (int, int, int, int)) -> Seq<usize> {
    let after = swapped(a, d.0 * gs + d.1, d.2 * gs + d.3);
    if group_min_spec(dm, n, group_of(after, gs, d.0)) as int + group_min_spec(dm, n, group_of(after, gs, d.2))
        >= group_min_spec(dm, n, group_of(a, gs, d.0)) as int + group_min_spec(dm, n, group_of(a, gs, d.2)) {
        after
    } else {
        a
    }
}

/// The assignment after the swap trials `draws`, in order.
pub open spec fn swap_trials(dm: Seq<u64>, n: int, a: Seq<usize>, gs: int, draws: Seq<(int, int, int, int)>) -> Seq<usize>
    decreases draws.len(),
{
    if draws.len() == 0 {
        a
    } else {
        swap_trial(dm, n, swap_trials(dm, n, a, gs, draws.drop_last()), gs, draws.last())
    }
}

/// Phase two: `iters` random swap trials between two distinct groups
/// (none when there are fewer than two groups). The members are only
/// permuted, and the total score never decreases.
pub fn refine_assignment(
    assign: &mut Vec<usize>,
    dm: &Vec<u64>,
    n: usize,
    tag_count: usize,
    group_size: usize,
    iters: usize,
    rng: &mut StdRng,
)
    requires
        old(assign)@.len() == tag_count * group_size,
        tag_count < 2 || group_size >= 1,
        dm@.len() == n * n,
        forall|q: int| 0 <= q < old(assign)@.len() ==> #[trigger] old(assign)@[q] < n,
    ensures
        final(assign)@.len() == old(assign)@.len(),
        final(assign)@.to_multiset() == old(assign)@.to_multiset(),
        forall|q: int| 0 <= q < final(assign)@.len() ==> #[trigger] final(assign)@[q] < n,
        total_score(dm@, n as int, final(assign)@, group_size as int, tag_count as int)
            >= total_score(dm@, n as int, old(assign)@, group_size as int, tag_count as int),
        tag_count < 2 ==> final(assign)@ == old(assign)@,
        tag_count >= 2 ==> exists|draws: Seq<(int, int, int, int)>|
            {
                &&& draws.len() == iters
                &&& forall|t: int| 0 <= t < iters ==> valid_draw(#[trigger] draws[t], tag_count as int, group_size as int)
                &&& final(assign)@ == swap_trials(dm@, n as int, old(assign)@, group_size as int, draws)
            },
{
    if tag_count < 2 {
        return;
    }
    let ghost mut draws: Seq<(int, int, int, int)> = Seq::empty();
    let mut it: usize = 0;
    while it < iters
        invariant
            tag_count >= 2,
            group_size >= 1,
            assign@.len() == tag_count * group_size,
            assign@.len() == old(assign)@.len(),
            assign@.to_multiset() == old(assign)@.to_multiset(),
            dm@.len() == n * n,
            forall|q: int| 0 <= q < assign@.len() ==> #[trigger] assign@[q] < n,
            total_score(dm@, n as int, assign@, group_size as int, tag_count as int)
                >= total_score(dm@, n as int, old(assign)@, group_size as int, tag_count as int),
            it <= iters,
            draws.len() == it,
            forall|t: int| 0 <= t < it ==> valid_draw(#[trigger] draws[t], tag_count as int, group_size as int),
            assign@ == swap_trials(dm@, n as int, old(assign)@, group_size as int, draws),
        decreases iters - it,
    {
        let i = random_index(rng, tag_count);
        let mut j = random_index(rng, tag_count);
        if i == j {
            proof {
                if j + 1 < tag_count {
                    assert((j + 1) % (tag_count as int) == j + 1) by (nonlinear_arith)
                        requires
                            0 <= j + 1 < tag_count,
                    ;
                } else {
                    assert((j + 1) % (tag_count as int) == 0) by (nonlinear_arith)
                        requires
                            j + 1 == tag_count,
                            tag_count >= 2,
                    ;
                }
            }
            j = (j + 1) % tag_count;
        }
        let ia = random_index(rng, group_size);
        let jb = random_index(rng, group_size);
        let ghost d = (i as int, ia as int, j as int, jb as int);
        let ghost prev_draws = draws;
        try_swap(assign, dm, n, tag_count, group_size, i, ia, j, jb);
        proof {
            draws = draws.push(d);
            assert(draws.drop_last() =~= prev_draws);
            assert(draws.last() == d);
        }
        it += 1;
    }
}

/// The items of a flat assignment, group by group: member `k` of group
/// `g` is `colors[p[g * gs + k]]`.
pub open spec fn items_grouped<T>(groups: Seq<Vec<T>>, colors: Seq<T>, p: Seq<usize>, tc: int, gs: int) -> bool {
    &&& groups.len() == tc
    &&& forall|g: int| 0 <= g < tc ==> (#[trigger] groups[g])@.len() == gs
    &&& forall|g: int, k: int|
        0 <= g < tc && 0 <= k < gs ==> #[trigger] groups[g]@[k] == colors[p[g * gs + k] as int]
}

/// What the partitioner returns for matrix `dm` of `labs`: `g0` is a
/// greedy partition of the positions `0..n` (each seed pair in input order), `p` is what the swap trials
/// made of it (untouched with fewer than two groups), its total score is
/// at least the greedy one, and the groups hold the colours at `p`.
pub open spec fn partition_outcome(
    labs: Seq<LabColor>,
    colors: Seq<Color>,
    groups: Seq<Vec<Color>>,
    tc: int,
    gs: int,
    iters: int,
    dm: Seq<u64>,
    g0: Seq<usize>,
    p: Seq<usize>,
) -> bool {
    let n = colors.len() as int;
    &&& is_distance_matrix(dm, labs)
    &&& is_assignment(g0, n)
    &&& is_greedy_assignment(dm, n, g0, tc, gs)
    &&& forall|k: int| 0 <= k < tc ==> #[trigger] seed_in_order(g0, gs, k)
    &&& is_assignment(p, n)
    &&& items_grouped(groups, colors, p, tc, gs)
    &&& total_score(dm, n, p, gs, tc) >= total_score(dm, n, g0, gs, tc)
    &&& tc < 2 ==> p == g0
    &&& tc >= 2 ==> exists|draws: Seq<(int, int, int, int)>|
        {
            &&& draws.len() == iters
            &&& forall|t: int| 0 <= t < iters ==> valid_draw(#[trigger] draws[t], tc, gs)
            &&& p == swap_trials(dm, n, g0, gs, draws)
        }
}

/// Splits `tag_count * group_size` colours into `tag_count` groups of
/// `group_size`, trying to make the smallest distance inside every group
/// large: greedy construction, then `iters` random swap trials that never
/// lower the summed group minima. `labs[i]` is the Lab value of `colors[i]`.
///
/// Every colour lands in exactly one group: the groups are the colours
/// taken in the order of some arrangement of all input positions.
pub fn group_colors_into_groups_monte_carlo(
    colors: Vec<Color>,
    labs: Vec<LabColor>,
    tag_count: usize,
    group_size: usize,
    iters: usize,
    rng: &mut StdRng,
) -> (groups: Vec<Vec<Color>>)
    requires
        colors@.len() == labs@.len(),
        colors@.len() == tag_count * group_size,
        tag_count == 0 || group_size >= 2,
        colors@.len() * colors@.len() <= usize::MAX,
    ensures
        exists|dm: Seq<u64>, g0: Seq<usize>, p: Seq<usize>|
            #[trigger] partition_outcome(
                labs@,
                colors@,
                groups@,
                tag_count as int,
                group_size as int,
                iters as int,
                dm,
                g0,
                p,
            ),
        groups_multiset(groups@) == colors@.to_multiset(),
{
    let n = colors.len();
    let dm = pairwise_delta_matrix(&labs);
    proof {
        lemma_distance_matrix_symmetric(dm@, labs@);
    }
    let mut assign = greedy_assignment(&dm, n, tag_count, group_size);
    proof {
        lemma_assignment_facts(assign@, n as int);
    }
    let ghost g0 = assign@;
    refine_assignment(&mut assign, &dm, n, tag_count, group_size, iters, rng);
    proof {
        lemma_assignment_facts(assign@, n as int);
        broadcast use vstd::multiset::group_multiset_axioms;

        assert(is_assignment(assign@, n as int));
    }
    let groups = assignment_items(&assign, &colors, tag_count, group_size);
    proof {
        lemma_partition_is_exact(groups@, colors@, assign@, tag_count as int, group_size as int);
        assert(partition_outcome(
            labs@,
            colors@,
            groups@,
            tag_count as int,
            group_size as int,
            iters as int,
            dm@,
            g0,
            assign@,
        ));
    }
    groups
}

/// The items of each group of a flat assignment.
pub fn assignment_items<T: Copy>(assign: &Vec<usize>, colors: &Vec<T>, tag_count: usize, group_size: usize) -> (groups: Vec<Vec<T>>)
    requires
        assign@.len() == tag_count * group_size,
        forall|q: int| 0 <= q < assign@.len() ==> #[trigger] assign@[q] < colors@.len(),
    ensures
        items_grouped(groups@, colors@, assign@, tag_count as int, group_size as int),
{
    let len = assign.len();
    let mut groups: Vec<Vec<T>> = Vec::new();
    let mut g: usize = 0;
    while g < tag_count
        invariant
            len == assign@.len(),
            assign@.len() == tag_count * group_size,
            forall|q: int| 0 <= q < assign@.len() ==> #[trigger] assign@[q] < colors@.len(),
            g <= tag_count,
            groups@.len() == g,
            forall|h: int| 0 <= h < g ==> (#[trigger] groups@[h])@.len() == group_size,
            forall|h: int, k: int|
                0 <= h < g && 0 <= k < group_size ==> #[trigger] groups@[h]@[k] == colors@[assign@[h
                    * group_size + k] as int],
        decreases tag_count - g,
    {
        proof {
            lemma_group_bounds(tag_count as int, group_size as int, g as int);
        }
        let start = g * group_size;
        let mut members: Vec<T> = Vec::new();
        let mut k: usize = 0;
        while k < group_size
            invariant
                len == assign@.len(),
                start + group_size <= assign@.len(),
                start == g * group_size,
                forall|q: int| 0 <= q < assign@.len() ==> #[trigger] assign@[q] < colors@.len(),
                k <= group_size,
                members@.len() == k,
                forall|t: int| 0 <= t < k ==> #[trigger] members@[t] == colors@[assign@[start + t] as int],
            decreases group_size - k,
        {
            members.push(colors[assign[start + k]]);
            k += 1;
        }
        groups.push(members);
        g += 1;
    }
    groups
}

/// All members of all groups, counted with multiplicity.
pub open spec fn groups_multiset<T>(groups: Seq<Vec<T>>) -> Multiset<T>
    decreases groups.len(),
{
    if groups.len() == 0 {
        Multiset::empty()
    } else {
        groups_multiset(groups.drop_last()).add(groups.last()@.to_multiset())
    }
}

/// Mapping two sequences with the same elements gives sequences with the
/// same elements.
pub proof fn lemma_map_multiset<A, B>(s1: Seq<A>, s2: Seq<A>, f: spec_fn(A) -> B)
    requires
        s1.to_multiset() == s2.to_multiset(),
    ensures
        s1.map_values(f).to_multiset() == s2.map_values(f).to_multiset(),
    decreases s1.len(),
{
    broadcast use vstd::seq_lib::group_to_multiset_ensures;
    broadcast use vstd::multiset::group_multiset_axioms;

    vstd::seq_lib::to_multiset_len(s1);
    vstd::seq_lib::to_multiset_len(s2);
    if s1.len() == 0 {
        assert(s1.map_values(f) =~= Seq::<B>::empty());
        assert(s2.map_values(f) =~= Seq::<B>::empty());
    } else {
        let x = s1.last();
        let s1r = s1.drop_last();
        assert(s1 =~= s1r.push(x));
        vstd::seq_lib::to_multiset_build(s1r, x);
        vstd::seq_lib::to_multiset_contains(s1, x);
        assert(s1.contains(x)) by {
            assert(s1[s1.len() - 1] == x);
        }
        vstd::seq_lib::to_multiset_contains(s2, x);
        let p = choose|p: int| 0 <= p < s2.len() && s2[p] == x;
        let s2r = s2.remove(p);
        vstd::seq_lib::to_multiset_remove(s2, p);
        assert(s1r.to_multiset() =~= s2r.to_multiset());
        lemma_map_multiset(s1r, s2r, f);
        assert(s1.map_values(f) =~= s1r.map_values(f).push(f(x)));
        vstd::seq_lib::to_multiset_build(s1r.map_values(f), f(x));
        assert(s2.map_values(f).remove(p) =~= s2r.map_values(f));
        vstd::seq_lib::to_multiset_remove(s2.map_values(f), p);
        vstd::seq_lib::to_multiset_contains(s2.map_values(f), f(x));
        assert(s2.map_values(f)[p] == f(x));
        assert(s2.map_values(f).contains(f(x)));
        assert(s1.map_values(f).to_multiset() =~= s2.map_values(f).to_multiset());
    }
}

/// The items at the positions listed by `p`.
pub open spec fn items_of<T>(colors: Seq<T>, p: Seq<usize>) -> Seq<T> {
    p.map_values(|i: usize| colors[i as int])
}

#[verifier::rlimit(40)]
proof fn lemma_grouped_prefix<T>(groups: Seq<Vec<T>>, colors: Seq<T>, p: Seq<usize>, tc: int, gs: int, g: int)
    requires
        items_grouped(groups, colors, p, tc, gs),
        p.len() == tc * gs,
        0 <= g <= tc,
        gs >= 0,
    ensures
        groups_multiset(groups.take(g)) == items_of(colors, p.take(g * gs)).to_multiset(),
    decreases g,
{
    broadcast use vstd::seq_lib::group_to_multiset_ensures;
    broadcast use vstd::multiset::group_multiset_axioms;

    if g == 0 {
        assert(groups.take(0) =~= Seq::<Vec<T>>::empty());
        assert(items_of(colors, p.take(0)) =~= Seq::<T>::empty());
    } else {
        lemma_grouped_prefix(groups, colors, p, tc, gs, g - 1);
        lemma_group_bounds(tc, gs, g - 1);
        assert(groups.take(g).drop_last() =~= groups.take(g - 1));
        let start = (g - 1) * gs;
        assert(g * gs == start + gs) by (nonlinear_arith)
            requires
                start == (g - 1) * gs,
        ;
        let block = items_of(colors, p.subrange(start, start + gs));
        assert(groups[g - 1]@ =~= block) by {
            assert forall|k: int| 0 <= k < gs implies #[trigger] groups[g - 1]@[k] == block[k] by {
                assert(groups[g - 1]@[k] == colors[p[(g - 1) * gs + k] as int]);
                assert(p.subrange(start, start + gs)[k] == p[start + k]);
            }
        }
        let front = items_of(colors, p.take(start));
        assert(items_of(colors, p.take(g * gs)) =~= front + block);
        vstd::seq_lib::lemma_multiset_commutative(front, block);
        assert(groups.take(g).last() == groups[g - 1]);
        assert(groups_multiset(groups.take(g)) == groups_multiset(groups.take(g - 1)).add(groups[g - 1]@.to_multiset()));
        assert((front + block).to_multiset() == front.to_multiset().add(block.to_multiset()));
    }
}

/// The groups of an assignment hold exactly the input colours: each input
/// colour appears in exactly one group, with its multiplicity.
pub proof fn lemma_partition_is_exact<T>(groups: Seq<Vec<T>>, colors: Seq<T>, p: Seq<usize>, tc: int, gs: int)
    requires
        is_assignment(p, colors.len() as int),
        colors.len() == tc * gs,
        colors.len() <= usize::MAX,
        tc >= 0,
        gs >= 0,
        items_grouped(groups, colors, p, tc, gs),
    ensures
        groups_multiset(groups) == colors.to_multiset(),
{
    lemma_grouped_prefix(groups, colors, p, tc, gs, tc);
    assert(groups.take(tc) =~= groups);
    assert(p.take(tc * gs) =~= p);
    let n = colors.len() as int;
    lemma_map_multiset(p, index_seq(n), |i: usize| colors[i as int]);
    assert(items_of(colors, index_seq(n)) =~= colors);
}

} // verus!
