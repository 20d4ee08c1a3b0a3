//! The generation request: selection, partitioning and contrast ordering
//! of one set of markers, and the small decisions around it.

use vstd::prelude::*;
use rand::rngs::StdRng;
use crate::color::{paired, Color, LabColor};
use crate::order::{alternates_bright_dark, reorder_bright_dark_alternating};
use crate::partition::{
    assignment_items, greedy_assignment, groups_multiset, is_assignment, items_grouped, items_of,
    lemma_assignment_facts, lemma_distance_matrix_symmetric, lemma_map_multiset, lemma_partition_is_exact, pairwise_delta_matrix,
    refine_assignment,
};
use crate::render::{ConfigError, SIDES_MAX, SIDES_MIN};
use crate::select::{select_distinct_indices, separated};

verus! {

/// Swap trials spent on refining the groups of one request.
pub const REFINE_ITERATIONS: usize = 2000;

/// The items at positions `idx`, in that order.
fn items_at_indices<T: Copy>(items: &Vec<T>, idx: &Vec<usize>) -> (r: Vec<T>)
    requires
        forall|k: int| 0 <= k < idx@.len() ==> #[trigger] idx@[k] < items@.len(),
    ensures
        r@ == items_of(items@, idx@),
{
    let mut r: Vec<T> = Vec::new();
    let mut k: usize = 0;
    while k < idx.len()
        invariant
            k <= idx@.len(),
            forall|j: int| 0 <= j < idx@.len() ==> #[trigger] idx@[j] < items@.len(),
            r@ == items_of(items@, idx@.take(k as int)),
        decreases idx@.len() - k,
    {
        r.push(items[idx[k]]);
        proof {
            assert(items_of(items@, idx@.take(k + 1)) =~= items_of(items@, idx@.take(k as int)).push(
                items@[idx@[k as int] as int],
            ));
        }
        k += 1;
    }
    assert(idx@.take(idx@.len() as int) =~= idx@);
    r
}

/// `(c, lab)` is one of the pool's colours with its Lab value.
pub open spec fn in_pool(filtered: Seq<Color>, labs: Seq<LabColor>, c: Color, lab: LabColor) -> bool {
    exists|i: int| 0 <= i < filtered.len() && filtered[i] == c && labs[i] == lab
}

/// Group `group` has Lab values `lg` taken from the pool, ordered so that
/// bright and dark alternate.
pub open spec fn alternating_group(filtered: Seq<Color>, labs: Seq<LabColor>, group: Seq<Color>) -> bool {
    exists|lg: Seq<LabColor>|
        {
            &&& lg.len() == group.len()
            &&& alternates_bright_dark(lg)
            &&& forall|k: int| 0 <= k < group.len() ==> in_pool(filtered, labs, #[trigger] group[k], lg[k])
        }
}

/// How many colours a request for `tag_count` groups of `sides` asks the
/// selector for (the product, saturated at the largest `usize`).
pub open spec fn colors_needed(tag_count: int, sides: int) -> int {
    if tag_count * sides > usize::MAX {
        usize::MAX as int
    } else {
        tag_count * sides
    }
}

/// How many groups a request gets from a pool of `pool_len` candidates:
/// all of them when the pool can supply the colours, else as many full
/// groups as the pool holds.
pub open spec fn groups_granted(pool_len: int, tag_count: int, sides: int) -> int {
    if pool_len < colors_needed(tag_count, sides) {
        pool_len / sides
    } else {
        tag_count
    }
}

/// One generation request: picks `tag_count * sides` colours of the pool as
/// far apart as the search can make them, partitions them into `tag_count`
/// groups of `sides`, and for an even number of sides orders each group so
/// that bright and dark alternate. `labs[i]` is the Lab value of
/// `filtered[i]`.
///
/// When the pool has too few candidates, fewer groups are returned (as
/// many full groups as it can fill). The result is the threshold that all
/// chosen colours respect pairwise, and the groups.
pub fn generate_tags(
    filtered: &Vec<Color>,
    labs: &Vec<LabColor>,
    tag_count: usize,
    sides: usize,
    iters: usize,
    rng: &mut StdRng,
) -> (r: Result<(u64, Vec<Vec<Color>>), ConfigError>)
    requires
        filtered@.len() == labs@.len(),
        labs@.len() * labs@.len() <= usize::MAX,
    ensures
        !(SIDES_MIN <= sides <= SIDES_MAX) ==> r == Err::<(u64, Vec<Vec<Color>>), ConfigError>(
            ConfigError::SidesOutOfRange,
        ),
        SIDES_MIN <= sides <= SIDES_MAX && tag_count == 0 ==> r == Err::<(u64, Vec<Vec<Color>>), ConfigError>(
            ConfigError::NoTags,
        ),
        SIDES_MIN <= sides <= SIDES_MAX && tag_count > 0 ==> r is Ok,
        r matches Ok((t, groups)) ==> {
            let count = groups_granted(labs@.len() as int, tag_count as int, sides as int);
            &&& groups@.len() == count
            &&& forall|g: int| 0 <= g < count ==> (#[trigger] groups@[g])@.len() == sides
            &&& exists|sel: Seq<usize>|
                {
                    &&& sel.len() == count * sides
                    &&& sel.no_duplicates()
                    &&& forall|k: int| 0 <= k < sel.len() ==> #[trigger] sel[k] < labs@.len()
                    &&& separated(labs@, sel, t as int)
                    &&& groups_multiset(groups@) == items_of(filtered@, sel).to_multiset()
                }
            &&& sides % 2 == 0 ==> forall|g: int|
                0 <= g < count ==> alternating_group(filtered@, labs@, #[trigger] groups@[g]@)
        },
{
    if sides < SIDES_MIN || sides > SIDES_MAX {
        return Err(ConfigError::SidesOutOfRange);
    }
    if tag_count == 0 {
        return Err(ConfigError::NoTags);
    }
    proof {
        if tag_count > usize::MAX / sides {
            assert(tag_count * sides > usize::MAX) by (nonlinear_arith)
                requires
                    tag_count > usize::MAX / sides,
                    sides > 0,
            ;
        } else {
            assert(tag_count * sides <= usize::MAX) by (nonlinear_arith)
                requires
                    tag_count <= usize::MAX / sides,
                    sides > 0,
            ;
        }
    }
    let needed: usize = if tag_count > usize::MAX / sides {
        usize::MAX
    } else {
        tag_count * sides
    };
    let (thr, mut idxs) = select_distinct_indices(labs, needed, rng);
    let mut count: usize = tag_count;
    if idxs.len() < needed {
        count = idxs.len() / sides;
        let ghost before = idxs@;
        proof {
            assert(count * sides <= before.len()) by (nonlinear_arith)
                requires
                    count == (before.len() as int) / (sides as int),
                    sides > 0,
            ;
        }
        idxs.truncate(count * sides);
        proof {
            assert(idxs@ =~= before.take(count * sides));
            assert forall|a: int, b: int| 0 <= a < b < idxs@.len() implies idxs@[a] != idxs@[b] by {
                assert(idxs@[a] == before[a] && idxs@[b] == before[b]);
            }
            assert forall|a: int, b: int|
                0 <= a < idxs@.len() && 0 <= b < idxs@.len() && a != b implies crate::color::delta(
                labs@[#[trigger] idxs@[a] as int],
                labs@[#[trigger] idxs@[b] as int],
            ) >= thr by {
                assert(idxs@[a] == before[a] && idxs@[b] == before[b]);
            }
        }
    } else {
        proof {
            if tag_count * sides > usize::MAX {
                assert(labs@.len() >= usize::MAX);
                assert(labs@.len() * labs@.len() > usize::MAX) by (nonlinear_arith)
                    requires
                        labs@.len() >= usize::MAX,
                        usize::MAX > 1,
                ;
            }
        }
    }
    proof {
        assert(idxs@.len() == count * sides);
    }
    let n = idxs.len();
    let sel_colors = items_at_indices(filtered, &idxs);
    let sel_labs = items_at_indices(labs, &idxs);
    proof {
        assert(n * n <= labs@.len() * labs@.len()) by (nonlinear_arith)
            requires
                n <= labs@.len(),
        ;
    }
    let dm = pairwise_delta_matrix(&sel_labs);
    proof {
        lemma_distance_matrix_symmetric(dm@, sel_labs@);
    }
    let mut assign = greedy_assignment(&dm, n, count, sides);
    proof {
        lemma_assignment_facts(assign@, n as int);
    }
    refine_assignment(&mut assign, &dm, n, count, sides, iters, rng);
    proof {
        lemma_assignment_facts(assign@, n as int);
    }
    let color_groups = assignment_items(&assign, &sel_colors, count, sides);
    let lab_groups = assignment_items(&assign, &sel_labs, count, sides);
    proof {
        assert forall|h: int, k: int|
            0 <= h < count && 0 <= k < sides implies in_pool(
            filtered@,
            labs@,
            #[trigger] color_groups@[h]@[k],
            lab_groups@[h]@[k],
        ) by {
            lemma_in_group(count as int, sides as int, h, k);
            let j = assign@[h * sides + k] as int;
            assert(color_groups@[h]@[k] == sel_colors@[j]);
            assert(lab_groups@[h]@[k] == sel_labs@[j]);
            assert(filtered@[idxs@[j] as int] == sel_colors@[j]);
            assert(labs@[idxs@[j] as int] == sel_labs@[j]);
        }
        lemma_partition_is_exact(color_groups@, sel_colors@, assign@, count as int, sides as int);
    }
    let mut groups: Vec<Vec<Color>> = Vec::new();
    let mut g: usize = 0;
    while g < count
        invariant
            g <= count,
            color_groups@.len() == count,
            lab_groups@.len() == count,
            forall|h: int| 0 <= h < count ==> (#[trigger] color_groups@[h])@.len() == sides,
            forall|h: int| 0 <= h < count ==> (#[trigger] lab_groups@[h])@.len() == sides,
            groups@.len() == g,
            forall|h: int| 0 <= h < g ==> (#[trigger] groups@[h])@.len() == sides,
            groups_multiset(groups@) == groups_multiset(color_groups@.take(g as int)),
            forall|h: int, k: int|
                0 <= h < count && 0 <= k < sides ==> in_pool(
                    filtered@,
                    labs@,
                    #[trigger] color_groups@[h]@[k],
                    lab_groups@[h]@[k],
                ),
            sides % 2 == 0 ==> forall|h: int|
                0 <= h < g ==> alternating_group(filtered@, labs@, #[trigger] groups@[h]@),
        decreases count - g,
    {
        let mut cg: Vec<Color> = Vec::new();
        let mut lg: Vec<LabColor> = Vec::new();
        let mut k: usize = 0;
        while k < sides
            invariant
                g < count,
                color_groups@.len() == count,
                lab_groups@.len() == count,
                color_groups@[g as int]@.len() == sides,
                lab_groups@[g as int]@.len() == sides,
                k <= sides,
                cg@ == color_groups@[g as int]@.take(k as int),
                lg@ == lab_groups@[g as int]@.take(k as int),
            decreases sides - k,
        {
            cg.push(color_groups[g][k]);
            lg.push(lab_groups[g][k]);
            proof {
                assert(cg@ =~= color_groups@[g as int]@.take(k + 1));
                assert(lg@ =~= lab_groups@[g as int]@.take(k + 1));
            }
            k += 1;
        }
        proof {
            assert(cg@ =~= color_groups@[g as int]@);
        }
        let ghost cg_before = cg@;
        let ghost lg_before = lg@;
        if sides % 2 == 0 {
            reorder_bright_dark_alternating(&mut cg, &mut lg);
        }
        proof {
            let first = |p: (Color, LabColor)| p.0;
            lemma_map_multiset(paired(cg_before, lg_before), paired(cg@, lg@), first);
            assert(paired(cg_before, lg_before).map_values(first) =~= cg_before);
            assert(paired(cg@, lg@).map_values(first) =~= cg@);
            if sides % 2 == 0 {
                assert(lg_before =~= lab_groups@[g as int]@);
                assert forall|k: int| 0 <= k < cg@.len() implies in_pool(filtered@, labs@, #[trigger] cg@[k], lg@[k]) by {
                    let after = paired(cg@, lg@);
                    let start = paired(cg_before, lg_before);
                    assert(after[k] == (cg@[k], lg@[k]));
                    vstd::seq_lib::to_multiset_contains(after, after[k]);
                    vstd::seq_lib::to_multiset_contains(start, after[k]);
                    assert(after.contains(after[k]));
                    let w = choose|w: int| 0 <= w < start.len() && start[w] == after[k];
                    assert(in_pool(filtered@, labs@, color_groups@[g as int]@[w], lab_groups@[g as int]@[w]));
                }
                assert(alternating_group(filtered@, labs@, cg@));
            }
        }
        let ghost before = groups@;
        groups.push(cg);
        proof {
            assert(groups@.drop_last() =~= before);
            assert(color_groups@.take(g + 1).drop_last() =~= color_groups@.take(g as int));
        }
        g += 1;
    }
    proof {
        assert(color_groups@.take(count as int) =~= color_groups@);
        assert(sel_colors@ == items_of(filtered@, idxs@));
        assert(count == groups_granted(labs@.len() as int, tag_count as int, sides as int));
    }
    Ok((thr, groups))
}

/// Groups requested when probing how many markers the pool can supply.
pub const PROBE_GROUPS: usize = 1000;

/// How many groups of `sides` colours the pool can supply at most (at least
/// one): the selector is asked for a very large number of colours, and
/// always returns `min(asked, |pool|)` of them.
pub fn max_possible_count(labs: &Vec<LabColor>, sides: usize, rng: &mut StdRng) -> (r: usize)
    requires
        SIDES_MIN <= sides <= SIDES_MAX,
    ensures
        r == if labs@.len() < PROBE_GROUPS * sides {
            if (labs@.len() as int) / (sides as int) >= 1 {
                (labs@.len() as int) / (sides as int)
            } else {
                1
            }
        } else {
            PROBE_GROUPS as int
        },
{
    let test_needed: usize = PROBE_GROUPS * sides;
    let (_thr, idxs) = select_distinct_indices(labs, test_needed, rng);
    let groups = idxs.len() / sides;
    proof {
        if labs@.len() >= test_needed {
            assert(idxs@.len() == test_needed);
            assert((PROBE_GROUPS * sides) / (sides as int) == PROBE_GROUPS) by (nonlinear_arith)
                requires
                    sides > 0,
            ;
        }
    }
    if groups >= 1 {
        groups
    } else {
        1
    }
}

/// What a scheduled regeneration must redo.
#[derive(Debug, Clone, Copy, PartialEq, Eq, Structural)]
pub enum RegenKind {
    /// New colours, groups and images.
    Full,
    /// New images for the current groups.
    ImagesOnly,
}

/// The pending regeneration after another is requested: a full one
/// overrides redrawing only.
pub fn merge_pending(pending: Option<RegenKind>, kind: RegenKind) -> (r: RegenKind)
    ensures
        r == if pending == Some(RegenKind::Full) || kind == RegenKind::Full {
            RegenKind::Full
        } else {
            RegenKind::ImagesOnly
        },
{
    match (pending, kind) {
        (Some(RegenKind::Full), _) => RegenKind::Full,
        (_, RegenKind::Full) => RegenKind::Full,
        _ => RegenKind::ImagesOnly,
    }
}

/// The deadline after another request: the earlier of the two, so that
/// requests never postpone a pending regeneration.
pub fn earliest_deadline(current: Option<u64>, requested: u64) -> (r: u64)
    ensures
        r == match current {
            Some(d) => if d <= requested {
                d
            } else {
                requested
            },
            None => requested,
        },
{
    match current {
        Some(d) => if d <= requested {
            d
        } else {
            requested
        },
        None => requested,
    }
}

proof fn lemma_in_group(tc: int, gs: int, h: int, k: int)
    requires
        0 <= h < tc,
        0 <= k < gs,
    ensures
        0 <= h * gs + k < tc * gs,
{
    assert(0 <= h * gs + k < tc * gs) by (nonlinear_arith)
        requires
            0 <= h < tc,
            0 <= k < gs,
    ;
}

} // verus!
