use palette::{FromColor, Lab, Srgb};
use poly_cue::color::{
    candidate_srgb_grid, delta_e, filter_by_lightness, Color, LabColor, LIGHTNESS_MAX, LIGHTNESS_MIN,
};
use poly_cue::pipeline::{
    earliest_deadline, generate_tags, max_possible_count, merge_pending, RegenKind, REFINE_ITERATIONS,
};
use poly_cue::render::{draw_marker_polygon, ConfigError, Point};
use rand::rngs::StdRng;
use rand::SeedableRng;

fn lab_of(c: Color) -> LabColor {
    let srgb = Srgb::new(c.r as f32 / 255.0, c.g as f32 / 255.0, c.b as f32 / 255.0);
    let lab: Lab = Lab::from_color(srgb.into_linear());
    LabColor::new(
        (lab.l * 1000.0).round() as i32,
        (lab.a * 1000.0).round() as i32,
        (lab.b * 1000.0).round() as i32,
    )
}

fn pool() -> (Vec<Color>, Vec<LabColor>) {
    let grid = candidate_srgb_grid();
    let labs: Vec<LabColor> = grid.iter().map(|&c| lab_of(c)).collect();
    filter_by_lightness(&grid, &labs, LIGHTNESS_MIN, LIGHTNESS_MAX)
}

fn marker_vertices(width: u32, height: u32, sides: usize) -> Vec<Point> {
    let w = width as f32;
    let h = height as f32;
    let margin = 0.08f32 * w.min(h);
    let radius = ((w - 2.0 * margin) * 0.5).min((h - 2.0 * margin) * 0.5).max(1.0);
    let cx = w * 0.5;
    let cy = h * 0.5;
    let step = std::f32::consts::TAU / (sides as f32);
    let start = -std::f32::consts::FRAC_PI_2;
    (0..sides)
        .map(|i| {
            let a = start + step * (i as f32);
            Point { x: (cx + radius * a.cos()).round() as i32, y: (cy + radius * a.sin()).round() as i32 }
        })
        .collect()
}

#[test]
fn three_square_tags_end_to_end() {
    let (colors, labs) = pool();
    let mut rng = StdRng::seed_from_u64(42);
    let (t, groups) = generate_tags(&colors, &labs, 3, 4, REFINE_ITERATIONS, &mut rng).unwrap();
    assert_eq!(groups.len(), 3);
    let all: Vec<Color> = groups.concat();
    assert_eq!(all.len(), 12);
    for i in 0..all.len() {
        for j in 0..all.len() {
            if i != j {
                assert_ne!(all[i], all[j]);
                assert!(delta_e(lab_of(all[i]), lab_of(all[j])) >= t);
            }
        }
    }
    let verts = marker_vertices(64, 64, 4);
    for g in &groups {
        assert_eq!(g.len(), 4);
        // bright and dark alternate around the square
        let ls: Vec<i32> = g.iter().map(|&c| lab_of(c).l).collect();
        assert!(ls[0] >= ls[1] && ls[2] >= ls[3]);
        assert!(ls[0].min(ls[2]) >= ls[1].max(ls[3]));
        let img = draw_marker_polygon(64, 64, 4, g, &verts, false, 35).unwrap();
        let mut seen: Vec<Color> = Vec::new();
        for y in 0..64 {
            for x in 0..64 {
                let p = img.get_pixel(x, y);
                if p != Color::new(255, 255, 255) {
                    assert!(g.contains(&p));
                    if !seen.contains(&p) {
                        seen.push(p);
                    }
                }
            }
        }
        assert_eq!(seen.len(), 4);
    }
}

#[test]
fn odd_sides_keep_partition_order() {
    let (colors, labs) = pool();
    let mut rng = StdRng::seed_from_u64(9);
    let (_t, groups) = generate_tags(&colors, &labs, 2, 5, 200, &mut rng).unwrap();
    assert_eq!(groups.len(), 2);
    assert!(groups.iter().all(|g| g.len() == 5));
}

#[test]
fn too_many_tags_are_scaled_down() {
    let (colors, labs) = pool();
    let mut rng = StdRng::seed_from_u64(10);
    let (t, groups) = generate_tags(&colors, &labs, 1000, 3, 10, &mut rng).unwrap();
    assert_eq!(groups.len(), labs.len() / 3);
    assert_eq!(t, 0);
    assert!(groups.iter().all(|g| g.len() == 3));
}

#[test]
fn request_errors() {
    let (colors, labs) = pool();
    let mut rng = StdRng::seed_from_u64(11);
    assert!(matches!(generate_tags(&colors, &labs, 3, 2, 10, &mut rng), Err(ConfigError::SidesOutOfRange)));
    assert!(matches!(generate_tags(&colors, &labs, 3, 7, 10, &mut rng), Err(ConfigError::SidesOutOfRange)));
    assert!(matches!(generate_tags(&colors, &labs, 0, 4, 10, &mut rng), Err(ConfigError::NoTags)));
}

#[test]
fn max_count_from_pool_size() {
    let (_colors, labs) = pool();
    let mut rng = StdRng::seed_from_u64(12);
    assert_eq!(max_possible_count(&labs, 4, &mut rng), labs.len() / 4);
    assert_eq!(max_possible_count(&labs[..2].to_vec(), 3, &mut rng), 1);
    assert_eq!(max_possible_count(&Vec::new(), 6, &mut rng), 1);
}

#[test]
fn pending_regeneration_merges() {
    assert_eq!(merge_pending(None, RegenKind::ImagesOnly), RegenKind::ImagesOnly);
    assert_eq!(merge_pending(None, RegenKind::Full), RegenKind::Full);
    assert_eq!(merge_pending(Some(RegenKind::Full), RegenKind::ImagesOnly), RegenKind::Full);
    assert_eq!(merge_pending(Some(RegenKind::ImagesOnly), RegenKind::ImagesOnly), RegenKind::ImagesOnly);
    assert_eq!(merge_pending(Some(RegenKind::ImagesOnly), RegenKind::Full), RegenKind::Full);
}

#[test]
fn deadlines_only_move_earlier() {
    assert_eq!(earliest_deadline(None, 500), 500);
    assert_eq!(earliest_deadline(Some(300), 500), 300);
    assert_eq!(earliest_deadline(Some(700), 500), 500);
}

#[test]
fn same_seed_same_tags() {
    let (colors, labs) = pool();
    let mut first = StdRng::seed_from_u64(77);
    let mut second = StdRng::seed_from_u64(77);
    let a = generate_tags(&colors, &labs, 4, 6, 300, &mut first).unwrap();
    let b = generate_tags(&colors, &labs, 4, 6, 300, &mut second).unwrap();
    assert_eq!(a.0, b.0);
    assert_eq!(a.1, b.1);
}
