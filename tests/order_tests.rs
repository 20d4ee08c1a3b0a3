use poly_cue::color::{Color, LabColor};
use poly_cue::order::reorder_bright_dark_alternating;

fn swatch(l: i32) -> (Color, LabColor) {
    (Color::new((l / 1000) as u8, 0, 0), LabColor::new(l, 0, 0))
}

#[test]
fn four_colors_alternate_bright_and_dark() {
    let input: Vec<(Color, LabColor)> = [30000, 80000, 50000, 60000].iter().map(|&l| swatch(l)).collect();
    let mut colors: Vec<Color> = input.iter().map(|p| p.0).collect();
    let mut labs: Vec<LabColor> = input.iter().map(|p| p.1).collect();
    reorder_bright_dark_alternating(&mut colors, &mut labs);
    let ls: Vec<i32> = labs.iter().map(|l| l.l).collect();
    assert_eq!(ls, vec![80000, 50000, 60000, 30000]);
    assert_eq!(colors, vec![Color::new(80, 0, 0), Color::new(50, 0, 0), Color::new(60, 0, 0), Color::new(30, 0, 0)]);
}

#[test]
fn six_colors_pairs_bright_over_dark() {
    let input: Vec<(Color, LabColor)> =
        [20000, 90000, 40000, 70000, 55000, 35000].iter().map(|&l| swatch(l)).collect();
    let mut colors: Vec<Color> = input.iter().map(|p| p.0).collect();
    let mut labs: Vec<LabColor> = input.iter().map(|p| p.1).collect();
    reorder_bright_dark_alternating(&mut colors, &mut labs);
    let ls: Vec<i32> = labs.iter().map(|l| l.l).collect();
    assert_eq!(ls, vec![90000, 40000, 70000, 35000, 55000, 20000]);
    for i in 0..3 {
        assert!(ls[2 * i] >= ls[2 * i + 1]);
    }
    let mut sorted_in: Vec<Color> = input.iter().map(|p| p.0).collect();
    let mut sorted_out = colors.clone();
    sorted_in.sort_by_key(|c| c.r);
    sorted_out.sort_by_key(|c| c.r);
    assert_eq!(sorted_in, sorted_out);
}

#[test]
fn odd_and_tiny_groups_are_left_alone() {
    let mut colors = vec![Color::new(1, 0, 0), Color::new(2, 0, 0), Color::new(3, 0, 0)];
    let mut labs = vec![LabColor::new(10, 0, 0), LabColor::new(30, 0, 0), LabColor::new(20, 0, 0)];
    reorder_bright_dark_alternating(&mut colors, &mut labs);
    assert_eq!(colors, vec![Color::new(1, 0, 0), Color::new(2, 0, 0), Color::new(3, 0, 0)]);
    let mut one = vec![Color::new(9, 9, 9)];
    let mut one_lab = vec![LabColor::new(5, 5, 5)];
    reorder_bright_dark_alternating(&mut one, &mut one_lab);
    assert_eq!(one, vec![Color::new(9, 9, 9)]);
}

#[test]
fn equal_lightness_keeps_input_order() {
    let mut colors = vec![Color::new(1, 0, 0), Color::new(2, 0, 0), Color::new(3, 0, 0), Color::new(4, 0, 0)];
    let mut labs = vec![LabColor::new(50, 0, 0), LabColor::new(50, 1, 0), LabColor::new(50, 2, 0), LabColor::new(50, 3, 0)];
    reorder_bright_dark_alternating(&mut colors, &mut labs);
    assert_eq!(colors, vec![Color::new(1, 0, 0), Color::new(3, 0, 0), Color::new(2, 0, 0), Color::new(4, 0, 0)]);
}
