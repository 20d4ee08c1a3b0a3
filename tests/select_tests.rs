use palette::{FromColor, Lab, Srgb};
use poly_cue::color::{
    candidate_srgb_grid, delta_e, filter_by_lightness, Color, LabColor, LIGHTNESS_MAX, LIGHTNESS_MIN,
};
use poly_cue::random::{index_range, shuffled_range};
use poly_cue::select::{
    colors_at_indices, compute_max_threshold_and_colors_from_pool, pick_distinct_strict,
    select_distinct_indices, threshold_search, SEARCH_ORDERS,
};
use rand::rngs::StdRng;
use rand::SeedableRng;

fn lab_of(c: Color) -> LabColor {
    let srgb = Srgb::new(c.r as f32 / 255.0, c.g as f32 / 255.0, c.b as f32 / 255.0);
    let lab: Lab = Lab::from_color(srgb.into_linear());
    LabColor::new(
        (lab.l * 1000.0).round() as i32,
        (lab.a * 1000.0).round() as i32,
        (lab.b * 1000.0).round() as i32,
    )
}

fn pool() -> (Vec<Color>, Vec<LabColor>) {
    let grid = candidate_srgb_grid();
    let labs: Vec<LabColor> = grid.iter().map(|&c| lab_of(c)).collect();
    filter_by_lightness(&grid, &labs, LIGHTNESS_MIN, LIGHTNESS_MAX)
}

fn line_labs() -> Vec<LabColor> {
    // lightness 0, 10, 20, ..., 90 in whole Lab units
    (0..10).map(|k| LabColor::new(k * 10000, 0, 0)).collect()
}

#[test]
fn greedy_pick_follows_order_and_threshold() {
    let labs = line_labs();
    let order: Vec<usize> = vec![0, 1, 2, 3, 4, 5, 6, 7, 8, 9];
    assert_eq!(pick_distinct_strict(&labs, &order, 25000, 10), vec![0, 3, 6, 9]);
    assert_eq!(pick_distinct_strict(&labs, &order, 25000, 2), vec![0, 3]);
    let reversed: Vec<usize> = order.iter().rev().copied().collect();
    assert_eq!(pick_distinct_strict(&labs, &reversed, 25000, 10), vec![9, 6, 3, 0]);
    assert_eq!(pick_distinct_strict(&labs, &order, 10000, 10), order);
    assert_eq!(pick_distinct_strict(&labs, &order, 10001, 10), vec![0, 2, 4, 6, 8]);
}

#[test]
fn greedy_pick_zero_limit_still_takes_one() {
    let labs = line_labs();
    let order: Vec<usize> = vec![4, 5, 6];
    assert_eq!(pick_distinct_strict(&labs, &order, 0, 0), vec![4]);
    assert_eq!(pick_distinct_strict(&labs, &Vec::new(), 0, 3), Vec::<usize>::new());
}

#[test]
fn shuffled_range_is_a_permutation_and_moves_things() {
    let mut rng = StdRng::seed_from_u64(11);
    let v = shuffled_range(&mut rng, 100);
    let mut sorted = v.clone();
    sorted.sort();
    assert_eq!(sorted, index_range(100));
    assert_ne!(v, index_range(100));
}

#[test]
fn selection_is_separated_and_full() {
    let (colors, labs) = pool();
    let mut rng = StdRng::seed_from_u64(1);
    let (t, idx) = select_distinct_indices(&labs, 12, &mut rng);
    assert_eq!(idx.len(), 12);
    assert!(t > 0);
    for i in 0..idx.len() {
        for j in 0..idx.len() {
            if i != j {
                assert_ne!(idx[i], idx[j]);
                assert!(delta_e(labs[idx[i]], labs[idx[j]]) >= t);
            }
        }
    }
    let picked = colors_at_indices(&colors, &idx);
    assert_eq!(picked.len(), 12);
    assert_eq!(picked[0], colors[idx[0]]);
}

#[test]
fn selection_from_small_pool_is_short() {
    let (colors, labs) = pool();
    let mut rng = StdRng::seed_from_u64(2);
    let want = labs.len() + 50;
    let (t, picked) = compute_max_threshold_and_colors_from_pool(&colors, &labs, want, &mut rng);
    assert_eq!(picked.len(), labs.len());
    assert_eq!(t, 0);
    let mut all = picked.clone();
    all.sort_by_key(|c| (c.r, c.g, c.b));
    all.dedup();
    assert_eq!(all.len(), labs.len());
}

#[test]
fn selection_of_nothing() {
    let (colors, labs) = pool();
    let mut rng = StdRng::seed_from_u64(3);
    let (_t, picked) = compute_max_threshold_and_colors_from_pool(&colors, &labs, 0, &mut rng);
    assert!(picked.is_empty());
    let (t, picked) = compute_max_threshold_and_colors_from_pool(&Vec::new(), &Vec::new(), 5, &mut rng);
    assert!(picked.is_empty());
    assert_eq!(t, 0);
}

#[test]
fn selected_colors_are_pairwise_at_least_threshold() {
    let (colors, labs) = pool();
    let mut rng = StdRng::seed_from_u64(4);
    let (t, picked) = compute_max_threshold_and_colors_from_pool(&colors, &labs, 24, &mut rng);
    assert_eq!(picked.len(), 24);
    let picked_labs: Vec<LabColor> = picked.iter().map(|&c| lab_of(c)).collect();
    for i in 0..picked.len() {
        for j in 0..picked.len() {
            if i != j {
                assert!(delta_e(picked_labs[i], picked_labs[j]) >= t);
            }
        }
    }
}

#[test]
fn threshold_search_with_fixed_orders() {
    let labs = line_labs();
    let orders: Vec<Vec<usize>> = (0..SEARCH_ORDERS).map(|_| index_range(10)).collect();
    let (t, idx) = threshold_search(&labs, 4, 90000, &orders);
    assert_eq!(t, 29997);
    assert_eq!(idx, vec![0, 3, 6, 9]);
    let (t5, idx5) = threshold_search(&labs, 5, 90000, &orders);
    assert_eq!(t5, 19999);
    assert_eq!(idx5, vec![0, 2, 4, 6, 8]);
}

#[test]
fn threshold_search_falls_back_to_a_final_pass() {
    let labs = line_labs();
    let mut orders: Vec<Vec<usize>> = (0..SEARCH_ORDERS).map(|_| index_range(10)).collect();
    orders[SEARCH_ORDERS - 1] = vec![9, 8, 7, 6, 5, 4, 3, 2, 1, 0];
    // twelve indices cannot be found at any threshold: the last order is taken at zero
    let (t, idx) = threshold_search(&labs, 12, 90000, &orders);
    assert_eq!(t, 0);
    assert_eq!(idx, vec![9, 8, 7, 6, 5, 4, 3, 2, 1, 0]);
}
