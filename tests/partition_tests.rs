use poly_cue::color::{Color, LabColor};
use poly_cue::partition::{
    best_extension, farthest_pair, greedy_assignment, group_colors_into_groups_monte_carlo, group_min, pairwise_delta_matrix,
    refine_assignment, try_swap,
};
use rand::rngs::StdRng;
use rand::SeedableRng;

fn line(n: i32) -> (Vec<Color>, Vec<LabColor>) {
    let colors: Vec<Color> = (0..n).map(|k| Color::new(k as u8, 0, 0)).collect();
    let labs: Vec<LabColor> = (0..n).map(|k| LabColor::new(k * 1000, 0, 0)).collect();
    (colors, labs)
}

fn score(dm: &Vec<u64>, n: usize, assign: &Vec<usize>, gs: usize) -> u128 {
    assign.chunks(gs).map(|g| group_min(dm, n, g) as u128).sum()
}

#[test]
fn matrix_is_symmetric_with_zero_diagonal() {
    let labs = vec![LabColor::new(0, 0, 0), LabColor::new(3000, 4000, 0), LabColor::new(0, 0, 12000)];
    let dm = pairwise_delta_matrix(&labs);
    assert_eq!(dm, vec![0, 5000, 12000, 5000, 0, 13000, 12000, 13000, 0]);
}

#[test]
fn group_min_of_pairs() {
    let labs = vec![LabColor::new(0, 0, 0), LabColor::new(3000, 4000, 0), LabColor::new(0, 0, 12000)];
    let dm = pairwise_delta_matrix(&labs);
    assert_eq!(group_min(&dm, 3, &[0, 1, 2]), 5000);
    assert_eq!(group_min(&dm, 3, &[0, 2]), 12000);
    assert_eq!(group_min(&dm, 3, &[2]), u64::MAX);
    assert_eq!(group_min(&dm, 3, &[]), u64::MAX);
}

#[test]
fn greedy_seeds_with_farthest_pair() {
    let (_colors, labs) = line(6);
    let dm = pairwise_delta_matrix(&labs);
    let assign = greedy_assignment(&dm, 6, 2, 3);
    // first group: farthest pair 0 and 5, then the index whose nearest member is farthest (2)
    assert_eq!(assign, vec![0, 5, 2, 1, 4, 3]);
}

#[test]
fn partition_is_exact() {
    let (colors, labs) = line(12);
    let mut rng = StdRng::seed_from_u64(5);
    let groups = group_colors_into_groups_monte_carlo(colors.clone(), labs, 3, 4, 2000, &mut rng);
    assert_eq!(groups.len(), 3);
    for g in &groups {
        assert_eq!(g.len(), 4);
    }
    let mut all: Vec<Color> = groups.concat();
    all.sort_by_key(|c| c.r);
    assert_eq!(all, colors);
}

#[test]
fn partition_with_repeated_colors_keeps_multiplicity() {
    let colors = vec![Color::new(1, 1, 1), Color::new(1, 1, 1), Color::new(2, 2, 2), Color::new(3, 3, 3)];
    let labs = vec![LabColor::new(0, 0, 0), LabColor::new(0, 0, 0), LabColor::new(5000, 0, 0), LabColor::new(9000, 0, 0)];
    let mut rng = StdRng::seed_from_u64(6);
    let groups = group_colors_into_groups_monte_carlo(colors.clone(), labs, 2, 2, 100, &mut rng);
    let mut all: Vec<Color> = groups.concat();
    all.sort_by_key(|c| c.r);
    assert_eq!(all, colors);
}

#[test]
fn partition_of_nothing() {
    let mut rng = StdRng::seed_from_u64(7);
    let groups = group_colors_into_groups_monte_carlo(Vec::new(), Vec::new(), 0, 4, 100, &mut rng);
    assert!(groups.is_empty());
}

#[test]
fn swap_trial_accepts_improvement_and_rejects_loss() {
    let (_colors, labs) = line(4);
    let dm = pairwise_delta_matrix(&labs);
    // groups {0,1} and {2,3}: minima 1000 + 1000
    let mut assign = vec![0, 1, 2, 3];
    assert!(try_swap(&mut assign, &dm, 4, 2, 2, 0, 1, 1, 0));
    // now {0,2} and {1,3}: minima 2000 + 2000
    assert_eq!(assign, vec![0, 2, 1, 3]);
    // swapping back would lower the total: rejected and undone
    assert!(!try_swap(&mut assign, &dm, 4, 2, 2, 0, 1, 1, 0));
    assert_eq!(assign, vec![0, 2, 1, 3]);
}

#[test]
fn refinement_never_lowers_the_score() {
    let (_colors, labs) = line(12);
    let dm = pairwise_delta_matrix(&labs);
    let mut assign: Vec<usize> = (0..12).collect();
    let before = score(&dm, 12, &assign, 4);
    let mut rng = StdRng::seed_from_u64(8);
    for _ in 0..20 {
        let prev = score(&dm, 12, &assign, 4);
        refine_assignment(&mut assign, &dm, 12, 3, 4, 25, &mut rng);
        assert!(score(&dm, 12, &assign, 4) >= prev);
    }
    assert!(score(&dm, 12, &assign, 4) > before);
    let mut sorted = assign.clone();
    sorted.sort();
    assert_eq!(sorted, (0..12).collect::<Vec<usize>>());
}

#[test]
fn farthest_pair_takes_the_first_maximum() {
    let (_colors, labs) = line(6);
    let dm = pairwise_delta_matrix(&labs);
    assert_eq!(farthest_pair(&dm, 6, &vec![2, 0, 5, 3]), (1, 2));
    assert_eq!(farthest_pair(&dm, 6, &vec![1, 4, 2, 5]), (0, 3));
    // two pairs at distance 5000: the first in scanning order wins
    assert_eq!(farthest_pair(&dm, 6, &vec![0, 5, 0]), (0, 1));
    assert_eq!(farthest_pair(&dm, 6, &vec![5, 2, 0, 0]), (0, 2));
    assert_eq!(farthest_pair(&dm, 6, &vec![3, 3]), (0, 1));
}

#[test]
fn extension_maximises_the_nearest_member_distance() {
    let (_colors, labs) = line(10);
    let dm = pairwise_delta_matrix(&labs);
    // nearest distances to {0, 9}: 1 -> 1, 4 -> 4, 5 -> 4, 8 -> 1
    assert_eq!(best_extension(&dm, 10, &vec![0, 9], &vec![1, 4, 5, 8]), 1);
    assert_eq!(best_extension(&dm, 10, &vec![0, 9], &vec![8, 5, 4, 1]), 1);
    assert_eq!(best_extension(&dm, 10, &vec![0, 9], &vec![8, 1]), 0);
}

#[test]
fn refinement_makes_the_first_improving_swap() {
    // groups {0,1} and {2,3} on a line: either other pairing scores higher,
    // so every first trial is kept and the start is never seen again
    let (_colors, labs) = line(4);
    let dm = pairwise_delta_matrix(&labs);
    for seed in 0..10 {
        let mut assign = vec![0, 1, 2, 3];
        let mut rng = StdRng::seed_from_u64(seed);
        refine_assignment(&mut assign, &dm, 4, 2, 2, 1, &mut rng);
        assert_ne!(assign, vec![0, 1, 2, 3]);
        assert!(score(&dm, 4, &assign, 2) > score(&dm, 4, &vec![0, 1, 2, 3], 2));
    }
}

#[test]
fn single_group_is_the_greedy_group() {
    let (colors, labs) = line(4);
    let mut rng = StdRng::seed_from_u64(13);
    let groups = group_colors_into_groups_monte_carlo(colors.clone(), labs, 1, 4, 100, &mut rng);
    assert_eq!(groups, vec![vec![colors[0], colors[3], colors[1], colors[2]]]);
    let two = vec![Color::new(16, 16, 16), Color::new(255, 255, 255)];
    let two_labs = vec![LabColor::new(5000, 0, 0), LabColor::new(100000, 0, 0)];
    let groups = group_colors_into_groups_monte_carlo(two.clone(), two_labs, 1, 2, 100, &mut rng);
    assert_eq!(groups, vec![two]);
}
