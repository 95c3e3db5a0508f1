use water_sort::game::{Color, Tube};
use water_sort::palette::{parse_rgb, rgb_from_reads, set_color};

fn color(name: &str, r: u8, g: u8, b: u8) -> Color {
    Color::new(name.to_string(), r, g, b)
}

#[test]
fn parse_rgb_three_values() {
    assert_eq!(parse_rgb("255 0 123"), Some((255, 0, 123)));
    assert_eq!(parse_rgb("  7\t8   9 "), Some((7, 8, 9)));
}

#[test]
fn parse_rgb_skips_bad_words() {
    assert_eq!(parse_rgb("1 x 2 3"), Some((1, 2, 3)));
    assert_eq!(parse_rgb("256 1 2 3"), Some((1, 2, 3)));
}

#[test]
fn parse_rgb_word_forms() {
    assert_eq!(parse_rgb("+7 008 9"), Some((7, 8, 9)));
    assert_eq!(parse_rgb("-1 2 3 4"), Some((2, 3, 4)));
    assert_eq!(parse_rgb("+ 1 2 3"), Some((1, 2, 3)));
    assert_eq!(parse_rgb("1\x0B2 3 4"), None);
    assert_eq!(parse_rgb("1\x0C2\r3"), Some((1, 2, 3)));
}

#[test]
fn parse_rgb_needs_exactly_three() {
    assert_eq!(parse_rgb("1 2"), None);
    assert_eq!(parse_rgb("1 2 3 4"), None);
    assert_eq!(parse_rgb(""), None);
}

#[test]
fn rgb_from_reads_keeps_successes() {
    assert_eq!(rgb_from_reads(&vec![Some(1), None, Some(2), Some(3)]), Some((1, 2, 3)));
    assert_eq!(rgb_from_reads(&vec![Some(1), None, Some(2)]), None);
    assert_eq!(rgb_from_reads(&vec![]), None);
}

#[test]
fn set_color_replaces_by_name() {
    let mut p = vec![color("Red", 255, 0, 0), color("Blue", 0, 0, 255)];
    set_color(&mut p, color("Red", 200, 10, 10));
    assert_eq!(p.len(), 2);
    assert_eq!(p[0].rgb(), (200, 10, 10));
    assert_eq!(p[1].get_name(), "Blue");
}

#[test]
fn set_color_appends_new_name() {
    let mut p = vec![color("Red", 255, 0, 0)];
    set_color(&mut p, color("Green", 0, 255, 0));
    assert_eq!(p.len(), 2);
    assert_eq!(p[1].get_name(), "Green");
}

#[test]
fn color_counts_by_first_appearance() {
    let t = Tube::new(
        5,
        vec![color("Blue", 0, 0, 255), color("Red", 255, 0, 0), color("Blue", 0, 0, 255), color("Crimson", 255, 0, 0)],
    );
    assert_eq!(t.color_counts(), vec![2, 1, 1]);
    assert_eq!(Tube::new(3, vec![]).color_counts(), Vec::<usize>::new());
}
