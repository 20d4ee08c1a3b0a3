//! Reordering a group so that bright and dark colours alternate around the
//! polygon.

use vstd::prelude::*;
use crate::color::{paired, Color, LabColor};
use crate::partition::{index_seq, lemma_map_multiset};
use crate::random::index_range;

verus! {

/// `labs` alternates bright and dark: the even positions hold the brighter
/// half in descending lightness, the odd positions the darker half in
/// descending lightness, and every even entry is at least as light as every
/// odd one.
pub open spec fn alternates_bright_dark(labs: Seq<LabColor>) -> bool {
    let h = labs.len() / 2;
    &&& forall|i: int, j: int| 0 <= i < h && 0 <= j < h ==> (#[trigger] labs[2 * i]).l >= (#[trigger] labs[2 * j + 1]).l
    &&& forall|i: int| 0 <= i < h - 1 ==> (#[trigger] labs[2 * i]).l >= labs[2 * i + 2].l
    &&& forall|i: int| 0 <= i < h - 1 ==> (#[trigger] labs[2 * i + 1]).l >= labs[2 * i + 3].l
}

/// Position `i` comes before position `j` when sorting brightest first:
/// it is lighter, or equally light and earlier.
pub open spec fn brighter_first(labs: Seq<LabColor>, i: int, j: int) -> bool {
    labs[i].l > labs[j].l || (labs[i].l == labs[j].l && i < j)
}

/// Positions `lo..hi` of `s` are in brightest-first order.
pub open spec fn positions_sorted(labs: Seq<LabColor>, s: Seq<usize>, lo: int, hi: int) -> bool {
    forall|a: int, b: int| lo <= a < b < hi ==> brighter_first(labs, #[trigger] s[a] as int, #[trigger] s[b] as int)
}

/// `perm` lists the positions of `labs` once each, sorted by lightness,
/// brightest first, equal lightness in input order (a stable sort).
pub open spec fn is_stable_bright_order(labs: Seq<LabColor>, perm: Seq<usize>) -> bool {
    &&& perm.len() == labs.len()
    &&& perm.no_duplicates()
    &&& forall|k: int| 0 <= k < perm.len() ==> #[trigger] perm[k] < labs.len()
    &&& positions_sorted(labs, perm, 0, perm.len() as int)
}

/// The positions of `labs` in stable brightest-first order (insertion sort).
fn sort_positions_by_lightness(labs: &Vec<LabColor>) -> (s: Vec<usize>)
    ensures
        s@.to_multiset() == index_seq(labs@.len() as int).to_multiset(),
        s@.len() == labs@.len(),
        forall|k: int| 0 <= k < s@.len() ==> #[trigger] s@[k] < labs@.len(),
        positions_sorted(labs@, s@, 0, s@.len() as int),
{
    let n = labs.len();
    let mut s = index_range(n);
    proof {
        assert(s@ =~= index_seq(n as int));
    }
    if n < 2 {
        return s;
    }
    let mut i: usize = 1;
    while i < n
        invariant
            n == labs@.len(),
            n == s@.len(),
            1 <= i <= n,
            s@.to_multiset() == index_seq(n as int).to_multiset(),
            forall|t: int| i <= t < n ==> #[trigger] s@[t] == t,
            forall|t: int| 0 <= t < i ==> #[trigger] s@[t] < i,
            positions_sorted(labs@, s@, 0, i as int),
        decreases n - i,
    {
        let mut j: usize = i;
        while j > 0 && labs[s[j - 1]].l < labs[s[j]].l
            invariant
                n == labs@.len(),
                n == s@.len(),
                1 <= i < n,
                j <= i,
                s@.to_multiset() == index_seq(n as int).to_multiset(),
                s@[j as int] == i,
                forall|t: int| i < t < n ==> #[trigger] s@[t] == t,
                forall|t: int| 0 <= t <= i && t != j ==> #[trigger] s@[t] < i,
                positions_sorted(labs@, s@, 0, j as int),
                positions_sorted(labs@, s@, j as int, i + 1),
                0 < j && j + 1 <= i ==> brighter_first(labs@, s@[j - 1] as int, s@[j + 1] as int),
            decreases j,
        {
            let upper = s[j - 1];
            let lower = s[j];
            let ghost before = s@;
            s.set(j - 1, lower);
            s.set(j, upper);
            proof {
                broadcast use vstd::seq_lib::to_multiset_update;
                broadcast use vstd::multiset::group_multiset_axioms;

                vstd::seq_lib::to_multiset_contains(before, upper);
                vstd::seq_lib::to_multiset_contains(before, lower);
                assert(before.contains(upper));
                assert(before.contains(lower));
                assert(s@.to_multiset() =~= before.to_multiset());
            }
            j -= 1;
        }
        proof {
            assert forall|t: int| 0 <= t < i + 1 implies #[trigger] s@[t] < i + 1 by {
                if t != j {
                    assert(s@[t] < i);
                }
            }
        }
        i += 1;
    }
    s
}

/// Sorts the group by lightness (brightest first, equal lightness in input
/// order), splits it into a bright and a dark half and interleaves them:
/// bright 0, dark 0, bright 1, ... . `labs[i]` is the Lab value of
/// `colors[i]`, and both are reordered together. Groups of odd size or
/// fewer than two colours are left as they are.
pub fn reorder_bright_dark_alternating(colors: &mut Vec<Color>, labs: &mut Vec<LabColor>)
    requires
        old(colors)@.len() == old(labs)@.len(),
    ensures
        final(colors)@.len() == old(colors)@.len(),
        final(labs)@.len() == old(labs)@.len(),
        old(colors)@.len() < 2 || old(colors)@.len() % 2 != 0 ==> final(colors)@ == old(colors)@
            && final(labs)@ == old(labs)@,
        paired(final(colors)@, final(labs)@).to_multiset() == paired(old(colors)@, old(labs)@).to_multiset(),
        old(colors)@.len() >= 2 && old(colors)@.len() % 2 == 0 ==> alternates_bright_dark(final(labs)@),
        old(colors)@.len() >= 2 && old(colors)@.len() % 2 == 0 ==> exists|perm: Seq<usize>|
            {
                let h = old(colors)@.len() / 2;
                &&& #[trigger] is_stable_bright_order(old(labs)@, perm)
                &&& forall|k: int|
                    0 <= k < h ==> {
                        &&& #[trigger] final(colors)@[2 * k] == old(colors)@[perm[k] as int]
                        &&& final(labs)@[2 * k] == old(labs)@[perm[k] as int]
                        &&& final(colors)@[2 * k + 1] == old(colors)@[perm[h + k] as int]
                        &&& final(labs)@[2 * k + 1] == old(labs)@[perm[h + k] as int]
                    }
            },
{
    let n = colors.len();
    if n < 2 || n % 2 != 0 {
        return;
    }
    let perm = sort_positions_by_lightness(labs);
    let ghost orig = paired(colors@, labs@);
    let ghost oc = colors@;
    let ghost ol = labs@;
    proof {
        let full = index_seq(n as int);
        assert(full.no_duplicates());
        full.lemma_multiset_has_no_duplicates();
        perm@.lemma_multiset_has_no_duplicates_conv();
    }
    let half = n / 2;
    let mut out_colors: Vec<Color> = Vec::new();
    let mut out_labs: Vec<LabColor> = Vec::new();
    let ghost mut out_idx: Seq<usize> = Seq::empty();
    proof {
        broadcast use vstd::seq_lib::group_to_multiset_ensures;
        broadcast use vstd::multiset::group_multiset_axioms;

        assert(perm@.take(0) =~= Seq::<usize>::empty());
        assert(perm@.subrange(half as int, half as int) =~= Seq::<usize>::empty());
        assert(Seq::<usize>::empty().to_multiset().add(Seq::<usize>::empty().to_multiset()) =~= Seq::<usize>::empty().to_multiset());
        assert(paired(out_colors@, out_labs@) =~= out_idx.map_values(|k: usize| orig[k as int]));
    }
    let mut i: usize = 0;
    while i < half
        invariant
            n == perm@.len(),
            n == colors@.len(),
            n == labs@.len(),
            oc == colors@,
            ol == labs@,
            orig == paired(oc, ol),
            forall|k: int| 0 <= k < n ==> #[trigger] perm@[k] < n,
            half == n / 2,
            n % 2 == 0,
            i <= half,
            out_colors@.len() == 2 * i,
            out_labs@.len() == 2 * i,
            out_idx.len() == 2 * i,
            forall|t: int| 0 <= t < i ==> #[trigger] out_idx[2 * t] == perm@[t] && out_idx[2 * t + 1] == perm@[half + t],
            paired(out_colors@, out_labs@) == out_idx.map_values(|k: usize| orig[k as int]),
            out_idx.to_multiset() == perm@.take(i as int).to_multiset().add(
                perm@.subrange(half as int, half + i).to_multiset(),
            ),
        decreases half - i,
    {
        let bright = perm[i];
        let dark = perm[half + i];
        let ghost prev = out_idx;
        out_colors.push(colors[bright]);
        out_labs.push(labs[bright]);
        out_colors.push(colors[dark]);
        out_labs.push(labs[dark]);
        proof {
            broadcast use vstd::seq_lib::to_multiset_build;
            broadcast use vstd::multiset::group_multiset_axioms;

            out_idx = out_idx.push(bright).push(dark);
            assert(orig[bright as int] == (colors@[bright as int], labs@[bright as int]));
            assert(orig[dark as int] == (colors@[dark as int], labs@[dark as int]));
            let f = |k: usize| orig[k as int];
            let po = paired(out_colors@, out_labs@);
            let mo = out_idx.map_values(f);
            assert forall|t: int| 0 <= t < po.len() implies po[t] == mo[t] by {
                if t < 2 * i {
                    assert(prev.map_values(f)[t] == f(prev[t]));
                    assert(out_idx[t] == prev[t]);
                }
            }
            assert(po =~= mo);
            assert forall|t: int| 0 <= t < i + 1 implies #[trigger] out_idx[2 * t] == perm@[t] && out_idx[2 * t + 1] == perm@[half + t] by {
                if t < i {
                    assert(out_idx[2 * t] == prev[2 * t]);
                    assert(out_idx[2 * t + 1] == prev[2 * t + 1]);
                }
            }
            assert(perm@.take(i + 1) =~= perm@.take(i as int).push(bright));
            assert(perm@.subrange(half as int, half + i + 1) =~= perm@.subrange(half as int, half + i).push(dark));
            assert(out_idx.to_multiset() =~= perm@.take(i + 1).to_multiset().add(
                perm@.subrange(half as int, half + i + 1).to_multiset(),
            ));
        }
        i += 1;
    }
    proof {
        broadcast use vstd::seq_lib::lemma_multiset_commutative;

        assert(perm@ =~= perm@.take(half as int) + perm@.subrange(half as int, n as int));
        assert(perm@.subrange(half as int, half + half) =~= perm@.subrange(half as int, n as int));
        assert(out_idx.to_multiset() == index_seq(n as int).to_multiset());
        lemma_map_multiset(out_idx, index_seq(n as int), |k: usize| orig[k as int]);
        assert(index_seq(n as int).map_values(|k: usize| orig[k as int]) =~= orig);
        let fo = paired(out_colors@, out_labs@);
        assert forall|k: int| 0 <= k < 2 * half implies #[trigger] fo[k] == orig[out_idx[k] as int] by {}
        let fl = out_labs@;
        assert forall|a: int, b: int| 0 <= a < half && 0 <= b < half implies (#[trigger] fl[2 * a]).l >= (#[trigger] fl[2 * b + 1]).l by {
            assert(fo[2 * a] == orig[perm@[a] as int]);
            assert(out_idx[2 * b] == perm@[b]);
            assert(fo[2 * b + 1] == orig[perm@[half + b] as int]);
            assert(brighter_first(ol, perm@[a] as int, perm@[half + b] as int));
        }
        assert forall|a: int| 0 <= a < half - 1 implies (#[trigger] fl[2 * a]).l >= fl[2 * a + 2].l by {
            assert(fo[2 * a] == orig[perm@[a] as int]);
            assert(fo[2 * (a + 1)] == orig[perm@[a + 1] as int]);
            assert(brighter_first(ol, perm@[a] as int, perm@[a + 1] as int));
        }
        assert forall|a: int| 0 <= a < half - 1 implies (#[trigger] fl[2 * a + 1]).l >= fl[2 * a + 3].l by {
            assert(out_idx[2 * a] == perm@[a]);
            assert(out_idx[2 * (a + 1)] == perm@[a + 1]);
            assert(fo[2 * a + 1] == orig[perm@[half + a] as int]);
            assert(fo[2 * (a + 1) + 1] == orig[perm@[half + a + 1] as int]);
            assert(brighter_first(ol, perm@[half + a] as int, perm@[half + a + 1] as int));
        }
        assert(is_stable_bright_order(ol, perm@));
        assert forall|k: int| 0 <= k < half implies {
            &&& #[trigger] out_colors@[2 * k] == oc[perm@[k] as int]
            &&& out_labs@[2 * k] == ol[perm@[k] as int]
            &&& out_colors@[2 * k + 1] == oc[perm@[half + k] as int]
            &&& out_labs@[2 * k + 1] == ol[perm@[half + k] as int]
        } by {
            assert(out_idx[2 * k] == perm@[k]);
            assert(fo[2 * k] == orig[perm@[k] as int]);
            assert(fo[2 * k + 1] == orig[perm@[half + k] as int]);
        }
    }
    *colors = out_colors;
    *labs = out_labs;
}

} // verus!
