use cmaze::dims::{Dims, Dims3D};
use cmaze::errors::ReportCallbackError;
use cmaze::helpers::{
    box_center, double_line_corner, from_maze_to_real, line_center, maze_render_size,
    round_line_corner,
};
use cmaze::rnd_kruskals::RndKruskals;
use cmaze::ui::{
    box_center_screen, decimal_string, format_days_duration, format_duration, is_release,
    key_pressed, KeyPhase,
};

type Quiet = fn(usize, usize) -> Result<(), ReportCallbackError<(), ()>>;

fn arms(index: usize) -> (bool, bool, bool, bool) {
    (index & 8 != 0, index & 4 != 0, index & 2 != 0, index & 1 != 0)
}

#[test]
fn line_center_of_a_fitting_item() {
    assert_eq!(line_center(0, 10, 4), 3);
    assert_eq!(line_center(5, 15, 4), 8);
    assert_eq!(line_center(0, 80, 80), 0);
    assert_eq!(line_center(0, 10, 0), 5);
}

#[test]
fn line_center_rounds_towards_zero() {
    assert_eq!(line_center(0, 10, 3), 3);
    assert_eq!(line_center(0, 3, 10), -3);
    assert_eq!(line_center(0, 0, 1), 0);
    assert_eq!(line_center(2, 2, 5), 0);
    assert_eq!(line_center(-7, 0, 2), -5);
}

#[test]
fn line_center_near_the_limits() {
    assert_eq!(line_center(0, i32::MAX, 0), i32::MAX / 2);
    assert_eq!(line_center(i32::MIN, i32::MAX, 0), -1);
    assert_eq!(line_center(i32::MIN, i32::MAX, i32::MAX), i32::MIN + (1 << 30));
    assert_eq!(line_center(i32::MAX, i32::MAX, 0), i32::MAX);
}

#[test]
fn box_center_centres_both_axes() {
    assert_eq!(box_center(Dims(0, 0), Dims(80, 24), Dims(10, 4)), Dims(35, 10));
    assert_eq!(box_center(Dims(10, 5), Dims(20, 9), Dims(4, 2)), Dims(13, 6));
    assert_eq!(box_center(Dims(0, 0), Dims(5, 5), Dims(8, 2)), Dims(-1, 1));
}

#[test]
fn box_center_screen_starts_at_the_origin() {
    assert_eq!(box_center_screen(Dims(10, 4), (80, 24)), Dims(35, 10));
    assert_eq!(box_center_screen(Dims(0, 0), (0, 0)), Dims(0, 0));
    assert_eq!(box_center_screen(Dims(100, 30), (80, 24)), Dims(-10, -3));
    assert_eq!(box_center_screen(Dims(1, 1), (u16::MAX, u16::MAX)), Dims(32767, 32767));
    assert_eq!(box_center_screen(Dims(i32::MIN, i32::MAX), (u16::MAX, 0)), Dims(1073774591, -1073741823));
}

#[test]
fn render_size_counts_cells_and_lines() {
    let maze = RndKruskals::generate(Dims3D(3, 2, 5), false, None::<Quiet>).unwrap();
    assert_eq!(maze_render_size(&maze), Dims(7, 5));
    let single = RndKruskals::generate(Dims3D(1, 1, 1), false, None::<Quiet>).unwrap();
    assert_eq!(maze_render_size(&single), Dims(3, 3));
}

#[test]
fn maze_positions_on_screen() {
    assert_eq!(from_maze_to_real(Dims3D(0, 0, 0)), Dims(1, 1));
    assert_eq!(from_maze_to_real(Dims3D(2, 3, 1)), Dims(5, 7));
    assert_eq!(from_maze_to_real(Dims3D(10, 0, 9)), Dims(21, 1));
    assert_eq!(from_maze_to_real(Dims3D(-1, -2, 0)), Dims(-1, -3));
}

#[test]
fn double_line_corners_by_arms() {
    let expected = [
        "#", "#", "#", "╔", "#", "║", "╚", "╠", "#", "╗", "═", "╦", "╝", "╣", "╩", "╬",
    ];
    for index in 0..16 {
        let (left, top, right, bottom) = arms(index);
        assert_eq!(double_line_corner(left, top, right, bottom), expected[index]);
    }
}

#[test]
fn round_line_corners_by_arms() {
    let expected = [
        "#", "#", "#", "╭", "#", "│", "╰", "├", "#", "╮", "─", "┬", "╯", "┤", "┴", "┼",
    ];
    for index in 0..16 {
        let (left, top, right, bottom) = arms(index);
        assert_eq!(round_line_corner(left, top, right, bottom), expected[index]);
    }
}

#[test]
fn corners_named_one_by_one() {
    assert_eq!(double_line_corner(false, false, true, true), "╔");
    assert_eq!(double_line_corner(true, false, true, false), "═");
    assert_eq!(double_line_corner(false, true, false, true), "║");
    assert_eq!(double_line_corner(true, true, true, true), "╬");
    assert_eq!(round_line_corner(false, false, true, true), "╭");
    assert_eq!(round_line_corner(true, false, true, false), "─");
    assert_eq!(round_line_corner(false, true, false, true), "│");
    assert_eq!(round_line_corner(true, true, true, true), "┼");
}

#[test]
fn stubs_are_drawn_as_hash() {
    for (left, top, right, bottom) in [
        (false, false, false, false),
        (true, false, false, false),
        (false, true, false, false),
        (false, false, true, false),
        (false, false, false, true),
    ] {
        assert_eq!(double_line_corner(left, top, right, bottom), "#");
        assert_eq!(round_line_corner(left, top, right, bottom), "#");
    }
}

#[test]
fn decimal_numerals() {
    assert_eq!(decimal_string(0), "0");
    assert_eq!(decimal_string(7), "7");
    assert_eq!(decimal_string(10), "10");
    assert_eq!(decimal_string(1234567890), "1234567890");
    assert_eq!(decimal_string(u64::MAX), "18446744073709551615");
    for n in [0u64, 9, 10, 99, 100, 101, 4096, 999_999, 1_000_000] {
        assert_eq!(decimal_string(n), format!("{}", n));
    }
}

#[test]
fn days_are_whole_days() {
    assert_eq!(format_days_duration(0), "0 days");
    assert_eq!(format_days_duration(86_399), "0 days");
    assert_eq!(format_days_duration(86_400), "1 days");
    assert_eq!(format_days_duration(200_000), "2 days");
    assert_eq!(format_days_duration(86_400 * 365), "365 days");
    assert_eq!(format_days_duration(u64::MAX), "213503982334601 days");
}

#[test]
fn minutes_and_seconds() {
    assert_eq!(format_duration(125, "5.3"), "2m5.3s");
    assert_eq!(format_duration(0, "0.0"), "0m0.0s");
    assert_eq!(format_duration(59, "59.0"), "0m59.0s");
    assert_eq!(format_duration(60, "0.0"), "1m0.0s");
    assert_eq!(format_duration(3599, "59.9"), "59m59.9s");
    assert_eq!(format_duration(360_000, "0.5"), "6000m0.5s");
}

#[test]
fn minutes_with_float_seconds() {
    let seconds = format!("{:.1}", 7f32 + 250f32 / 1000f32);
    assert_eq!(format_duration(187, &seconds), "3m7.2s");
}

#[test]
fn only_a_release_is_a_release() {
    assert!(is_release(KeyPhase::Release));
    assert!(!is_release(KeyPhase::Press));
    assert!(!is_release(KeyPhase::Repeat));
}

#[test]
fn a_pressed_key_ends_the_wait() {
    assert_eq!(key_pressed(Some(('q', KeyPhase::Press))), Some('q'));
    assert_eq!(key_pressed(Some((27u8, KeyPhase::Repeat))), Some(27u8));
}

#[test]
fn releases_and_other_events_are_passed_over() {
    assert_eq!(key_pressed(Some(('q', KeyPhase::Release))), None);
    assert_eq!(key_pressed(None::<(char, KeyPhase)>), None);
}
