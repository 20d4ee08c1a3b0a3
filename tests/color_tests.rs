use palette::{FromColor, Lab, Srgb};
use poly_cue::color::{
    candidate_srgb_grid, delta_e, filter_by_lightness, min_pairwise_delta, Color, LabColor,
    LIGHTNESS_MAX, LIGHTNESS_MIN,
};

fn lab_of(c: Color) -> LabColor {
    let srgb = Srgb::new(c.r as f32 / 255.0, c.g as f32 / 255.0, c.b as f32 / 255.0);
    let lab: Lab = Lab::from_color(srgb.into_linear());
    LabColor::new(
        (lab.l * 1000.0).round() as i32,
        (lab.a * 1000.0).round() as i32,
        (lab.b * 1000.0).round() as i32,
    )
}

#[test]
fn distance_to_self_is_zero() {
    for c in candidate_srgb_grid() {
        let l = lab_of(c);
        assert_eq!(delta_e(l, l), 0);
    }
}

#[test]
fn distance_is_symmetric() {
    let grid = candidate_srgb_grid();
    for i in (0..grid.len()).step_by(7) {
        for j in (0..grid.len()).step_by(11) {
            let a = lab_of(grid[i]);
            let b = lab_of(grid[j]);
            assert_eq!(delta_e(a, b), delta_e(b, a));
        }
    }
}

#[test]
fn distance_exact_values() {
    let a = LabColor::new(0, 0, 0);
    assert_eq!(delta_e(a, LabColor::new(3000, 4000, 0)), 5000);
    assert_eq!(delta_e(a, LabColor::new(1, 1, 1)), 1);
    assert_eq!(delta_e(a, LabColor::new(0, 0, -7)), 7);
    assert_eq!(delta_e(LabColor::new(10, 20, 30), LabColor::new(11, 22, 32)), 3);
    assert_eq!(delta_e(a, LabColor::new(2, 2, 2)), 3);
}

#[test]
fn distance_of_extreme_components() {
    let a = LabColor::new(i32::MIN, i32::MIN, i32::MIN);
    let b = LabColor::new(i32::MAX, i32::MAX, i32::MAX);
    let d = delta_e(a, b);
    let exact = ((u32::MAX as f64).powi(2) * 3.0).sqrt();
    assert!((d as f64 - exact).abs() <= 1.0);
}

#[test]
fn grid_has_216_colors_in_channel_order() {
    let grid = candidate_srgb_grid();
    assert_eq!(grid.len(), 216);
    assert_eq!(grid[0], Color::new(16, 16, 16));
    assert_eq!(grid[1], Color::new(16, 16, 64));
    assert_eq!(grid[6], Color::new(16, 64, 16));
    assert_eq!(grid[36], Color::new(64, 16, 16));
    assert_eq!(grid[215], Color::new(255, 255, 255));
    let levels = [16u8, 64, 112, 160, 208, 255];
    for r in 0..6 {
        for g in 0..6 {
            for b in 0..6 {
                assert_eq!(grid[36 * r + 6 * g + b], Color::new(levels[r], levels[g], levels[b]));
            }
        }
    }
}

#[test]
fn filter_keeps_lightness_in_range() {
    let grid = candidate_srgb_grid();
    let labs: Vec<LabColor> = grid.iter().map(|&c| lab_of(c)).collect();
    let (kept, kept_labs) = filter_by_lightness(&grid, &labs, LIGHTNESS_MIN, LIGHTNESS_MAX);
    assert_eq!(kept.len(), kept_labs.len());
    assert!(!kept.is_empty());
    assert!(kept.len() < grid.len());
    for (c, l) in kept.iter().zip(kept_labs.iter()) {
        assert!(l.l >= 20000 && l.l <= 90000);
        assert_eq!(lab_of(*c), *l);
    }
    // white and the darkest grey fall outside [20, 90]
    assert!(!kept.contains(&Color::new(255, 255, 255)));
    assert!(!kept.contains(&Color::new(16, 16, 16)));
    let expected: Vec<Color> = grid
        .iter()
        .copied()
        .filter(|&c| {
            let l = lab_of(c).l;
            (20000..=90000).contains(&l)
        })
        .collect();
    assert_eq!(kept, expected);
}

#[test]
fn filter_bounds_are_inclusive() {
    let pool = vec![Color::new(1, 0, 0), Color::new(2, 0, 0), Color::new(3, 0, 0), Color::new(4, 0, 0)];
    let labs = vec![
        LabColor::new(19999, 0, 0),
        LabColor::new(20000, 0, 0),
        LabColor::new(90000, 0, 0),
        LabColor::new(90001, 0, 0),
    ];
    let (kept, kept_labs) = filter_by_lightness(&pool, &labs, LIGHTNESS_MIN, LIGHTNESS_MAX);
    assert_eq!(kept, vec![Color::new(2, 0, 0), Color::new(3, 0, 0)]);
    assert_eq!(kept_labs, vec![LabColor::new(20000, 0, 0), LabColor::new(90000, 0, 0)]);
}

#[test]
fn min_pairwise_delta_of_group() {
    let labs = vec![LabColor::new(0, 0, 0), LabColor::new(10000, 0, 0), LabColor::new(0, 3000, 4000)];
    assert_eq!(min_pairwise_delta(&labs), 5000);
    assert_eq!(min_pairwise_delta(&labs[..1].to_vec()), u64::MAX);
    assert_eq!(min_pairwise_delta(&Vec::new()), u64::MAX);
}
