use poly_cue::color::Color;
use poly_cue::render::{
    combine_tiles, draw_center_dot, draw_filled_triangle, draw_marker_polygon, grid_shape, paste_tile, Canvas,
    ConfigError, Point,
};

fn marker_vertices(width: u32, height: u32, sides: usize) -> Vec<Point> {
    let w = width as f32;
    let h = height as f32;
    let margin = 0.08f32 * w.min(h);
    let radius = ((w - 2.0 * margin) * 0.5).min((h - 2.0 * margin) * 0.5).max(1.0);
    let cx = w * 0.5;
    let cy = h * 0.5;
    let step = std::f32::consts::TAU / (sides as f32);
    let start = -std::f32::consts::FRAC_PI_2;
    (0..sides)
        .map(|i| {
            let a = start + step * (i as f32);
            Point { x: (cx + radius * a.cos()).round() as i32, y: (cy + radius * a.sin()).round() as i32 }
        })
        .collect()
}

fn four_colors() -> Vec<Color> {
    vec![Color::new(200, 30, 30), Color::new(30, 200, 30), Color::new(30, 30, 200), Color::new(200, 200, 30)]
}

const WHITE: Color = Color { r: 255, g: 255, b: 255 };
const BLACK: Color = Color { r: 0, g: 0, b: 0 };

#[test]
fn canvas_get_and_put() {
    let mut img = Canvas::new(3, 2, WHITE);
    assert_eq!(img.get_pixel(2, 1), WHITE);
    img.put_pixel(2, 1, BLACK);
    assert_eq!(img.get_pixel(2, 1), BLACK);
    assert_eq!(img.get_pixel(1, 1), WHITE);
    assert_eq!(img.pixels.len(), 6);
}

#[test]
fn triangle_scanlines() {
    let mut img = Canvas::new(10, 10, WHITE);
    let red = Color::new(255, 0, 0);
    draw_filled_triangle(&mut img, Point { x: 0, y: 0 }, Point { x: 4, y: 0 }, Point { x: 0, y: 4 }, red);
    // the top row meets the flat edge at its first corner only
    assert_eq!(img.get_pixel(0, 0), red);
    assert_eq!(img.get_pixel(1, 0), WHITE);
    // row 1 runs from x = 0 to round(4 - 1) = 3
    assert_eq!(img.get_pixel(3, 1), red);
    assert_eq!(img.get_pixel(4, 1), WHITE);
    assert_eq!(img.get_pixel(2, 2), red);
    assert_eq!(img.get_pixel(3, 2), WHITE);
    assert_eq!(img.get_pixel(0, 4), red);
    assert_eq!(img.get_pixel(1, 4), WHITE);
    assert_eq!(img.get_pixel(0, 5), WHITE);
}

#[test]
fn triangle_rounds_half_away_from_zero() {
    let mut img = Canvas::new(10, 10, WHITE);
    let red = Color::new(255, 0, 0);
    // edge from (0,0) to (3,2): x = 1.5 on row 1, rounded to 2
    draw_filled_triangle(&mut img, Point { x: 0, y: 0 }, Point { x: 3, y: 2 }, Point { x: 0, y: 2 }, red);
    assert_eq!(img.get_pixel(2, 1), red);
    assert_eq!(img.get_pixel(3, 1), WHITE);
}

#[test]
fn triangle_is_clipped_to_canvas() {
    let mut img = Canvas::new(4, 4, WHITE);
    let red = Color::new(255, 0, 0);
    draw_filled_triangle(&mut img, Point { x: -10, y: -10 }, Point { x: 20, y: -10 }, Point { x: 5, y: 20 }, red);
    assert_eq!(img.get_pixel(0, 0), red);
    assert_eq!(img.get_pixel(3, 3), red);
}

#[test]
fn center_dot_size() {
    let mut img = Canvas::new(100, 100, WHITE);
    draw_center_dot(&mut img, 35);
    // radius 17.5 around (50, 50)
    assert_eq!(img.get_pixel(50, 50), BLACK);
    assert_eq!(img.get_pixel(67, 50), BLACK);
    assert_eq!(img.get_pixel(68, 50), WHITE);
    assert_eq!(img.get_pixel(33, 50), BLACK);
    assert_eq!(img.get_pixel(32, 50), WHITE);
    assert_eq!(img.get_pixel(0, 0), WHITE);
}

#[test]
fn center_dot_size_is_clamped() {
    let mut img = Canvas::new(100, 100, WHITE);
    draw_center_dot(&mut img, 90);
    // clamped to 50 %: radius 25
    assert_eq!(img.get_pixel(75, 50), BLACK);
    assert_eq!(img.get_pixel(76, 50), WHITE);
    let mut tiny = Canvas::new(100, 100, WHITE);
    draw_center_dot(&mut tiny, 0);
    // clamped to 1 %: radius 0.5, raised to one pixel
    assert_eq!(tiny.get_pixel(50, 50), BLACK);
    assert_eq!(tiny.get_pixel(51, 50), BLACK);
    assert_eq!(tiny.get_pixel(52, 50), WHITE);
}

#[test]
fn center_pixel_is_black_with_center_dot() {
    let verts = marker_vertices(100, 100, 4);
    let img = draw_marker_polygon(100, 100, 4, &four_colors(), &verts, true, 35).unwrap();
    assert_eq!(img.get_pixel(50, 50), Color::new(0, 0, 0));
}

#[test]
fn center_pixel_is_a_group_color_without_dots() {
    let verts = marker_vertices(100, 100, 4);
    let colors = four_colors();
    let img = draw_marker_polygon(100, 100, 4, &colors, &verts, false, 35).unwrap();
    let center = img.get_pixel(50, 50);
    assert!(colors.contains(&center));
    assert_eq!(center, colors[3]);
}

#[test]
fn marker_pixels_are_group_colors_or_background() {
    let verts = marker_vertices(64, 64, 4);
    let colors = four_colors();
    let img = draw_marker_polygon(64, 64, 4, &colors, &verts, false, 35).unwrap();
    let mut seen: Vec<Color> = Vec::new();
    for y in 0..64 {
        for x in 0..64 {
            let p = img.get_pixel(x, y);
            assert!(p == WHITE || colors.contains(&p));
            if p != WHITE && !seen.contains(&p) {
                seen.push(p);
            }
        }
    }
    assert_eq!(seen.len(), 4);
    assert_eq!(img.get_pixel(0, 0), WHITE);
    // vertex 0 points straight up: the top wedges meet at the centre column
    assert_eq!(img.get_pixel(40, 20), colors[0]);
    assert_eq!(img.get_pixel(40, 44), colors[1]);
    assert_eq!(img.get_pixel(24, 44), colors[2]);
    assert_eq!(img.get_pixel(24, 20), colors[3]);
}

#[test]
fn fewer_colors_than_sides_repeat() {
    let verts = marker_vertices(64, 64, 4);
    let colors = vec![Color::new(10, 100, 10), Color::new(100, 10, 10)];
    let img = draw_marker_polygon(64, 64, 4, &colors, &verts, false, 35).unwrap();
    assert_eq!(img.get_pixel(40, 20), colors[0]);
    assert_eq!(img.get_pixel(40, 44), colors[1]);
    assert_eq!(img.get_pixel(24, 44), colors[0]);
    assert_eq!(img.get_pixel(24, 20), colors[1]);
}

#[test]
fn bad_configurations_are_rejected() {
    let colors = four_colors();
    let two = marker_vertices(64, 64, 2);
    assert!(matches!(draw_marker_polygon(64, 64, 2, &colors, &two, false, 35), Err(ConfigError::SidesOutOfRange)));
    let seven = marker_vertices(64, 64, 7);
    assert!(matches!(draw_marker_polygon(64, 64, 7, &colors, &seven, false, 35), Err(ConfigError::SidesOutOfRange)));
    let four = marker_vertices(64, 64, 4);
    assert!(matches!(draw_marker_polygon(0, 64, 4, &colors, &four, false, 35), Err(ConfigError::EmptyCanvas)));
    assert!(matches!(draw_marker_polygon(64, 0, 4, &colors, &four, false, 35), Err(ConfigError::EmptyCanvas)));
    assert!(matches!(draw_marker_polygon(64, 64, 4, &Vec::new(), &four, false, 35), Err(ConfigError::NoColors)));
}

#[test]
fn sheet_grid_shapes() {
    assert_eq!(grid_shape(0), (0, 0));
    assert_eq!(grid_shape(1), (1, 1));
    assert_eq!(grid_shape(2), (2, 1));
    assert_eq!(grid_shape(5), (3, 2));
    assert_eq!(grid_shape(9), (3, 3));
    assert_eq!(grid_shape(10), (4, 3));
    assert_eq!(grid_shape(100), (10, 10));
}

#[test]
fn tiles_fill_a_square_sheet_row_by_row() {
    let shades: Vec<Color> = (0..5).map(|k| Color::new(10 * k as u8, 0, 0)).collect();
    let tiles: Vec<Canvas> = shades.iter().map(|&c| Canvas::new(2, 3, c)).collect();
    let sheet = combine_tiles(&tiles).unwrap();
    // five tiles: three columns, two rows
    assert_eq!((sheet.width, sheet.height), (6, 6));
    assert_eq!(sheet.get_pixel(0, 0), shades[0]);
    assert_eq!(sheet.get_pixel(3, 2), shades[1]);
    assert_eq!(sheet.get_pixel(5, 0), shades[2]);
    assert_eq!(sheet.get_pixel(1, 3), shades[3]);
    assert_eq!(sheet.get_pixel(2, 5), shades[4]);
    assert_eq!(sheet.get_pixel(4, 4), WHITE);
    assert!(combine_tiles(&Vec::new()).is_none());
}

#[test]
fn pasting_clips_to_the_sheet() {
    let mut sheet = Canvas::new(4, 4, WHITE);
    let mut tile = Canvas::new(3, 3, BLACK);
    tile.put_pixel(0, 0, Color::new(1, 2, 3));
    paste_tile(&mut sheet, &tile, 2, 2);
    assert_eq!(sheet.get_pixel(2, 2), Color::new(1, 2, 3));
    assert_eq!(sheet.get_pixel(3, 3), BLACK);
    assert_eq!(sheet.get_pixel(1, 1), WHITE);
    assert_eq!(sheet.get_pixel(1, 3), WHITE);
}
