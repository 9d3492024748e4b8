use shellshock_tracer::tank::{Direction, Tank};
use shellshock_tracer::window_winapi::{
    bitmap_size_image, dotted_parametric_curve, is_shellshock_title, line_on_surface,
    tank_curve_segments, window_dimensions, WindowsError, WindowsErrorType, DOT_LENGTH,
};
use shellshock_tracer::{Coordinate, Size};

fn units(text: &str) -> Vec<u16> {
    text.encode_utf16().collect()
}

#[test]
fn dotted_line_along_a_level_path() {
    let segments = dotted_parametric_curve(Size(100, 50), 4, |t| Coordinate(1 + t, 5));
    assert_eq!(segments.len(), 12);
    assert_eq!(segments.len(), 99 / (2 * 4));
    assert_eq!(segments[0], (Coordinate(1, 5), Coordinate(5, 5)));
    assert_eq!(segments[1], (Coordinate(9, 5), Coordinate(13, 5)));
    assert_eq!(segments[11], (Coordinate(89, 5), Coordinate(93, 5)));
}

#[test]
fn dotted_line_has_a_gap_after_each_dash() {
    let segments = dotted_parametric_curve(Size(100, 50), 4, |t| Coordinate(1 + t, 5));
    for dash in &segments {
        assert_eq!(dash.1 .0 - dash.0 .0, 4);
    }
    for pair in segments.windows(2) {
        assert_eq!(pair[1].0 .0 - pair[0].1 .0, 4);
    }
}

#[test]
fn dotted_line_calls_the_curve_once_for_each_step() {
    let mut steps = Vec::new();
    let segments = dotted_parametric_curve(Size(10, 10), 3, |t| {
        steps.push(t);
        Coordinate(2 * t + 1, 4)
    });
    assert_eq!(steps, vec![0, 1, 2, 3, 4, 5]);
    assert_eq!(segments, vec![(Coordinate(1, 4), Coordinate(5, 4))]);
}

#[test]
fn dotted_line_measures_along_both_axes() {
    let segments = dotted_parametric_curve(Size(100, 100), 5, |t| Coordinate(1 + 3 * t, 1 + 4 * t));
    assert_eq!(segments.len(), 17);
    assert_eq!(segments[0], (Coordinate(1, 1), Coordinate(4, 5)));
    assert_eq!(segments[16], (Coordinate(97, 129), Coordinate(100, 133)));
    let short = dotted_parametric_curve(Size(100, 100), 6, |t| Coordinate(1 + 3 * t, 1 + 4 * t));
    assert_eq!(short[0], (Coordinate(1, 1), Coordinate(7, 9)));
}

#[test]
fn dotted_line_ends_where_the_curve_leaves_the_view() {
    let right = dotted_parametric_curve(Size(9, 50), 4, |t| Coordinate(1 + 4 * t, 5));
    assert_eq!(right, vec![(Coordinate(1, 5), Coordinate(5, 5))]);
    let left = dotted_parametric_curve(Size(50, 50), 4, |t| Coordinate(9 - 4 * t, 5));
    assert_eq!(left, vec![(Coordinate(9, 5), Coordinate(5, 5))]);
    let down = dotted_parametric_curve(Size(50, 50), 4, |t| Coordinate(5, 9 - 4 * t));
    assert_eq!(down, vec![(Coordinate(5, 9), Coordinate(5, 5))]);
    let up = dotted_parametric_curve(Size(50, 5), 4, |t| {
        if t < 5 {
            Coordinate(5, 1 + 4 * t)
        } else {
            Coordinate(0, 0)
        }
    });
    assert_eq!(
        up,
        vec![(Coordinate(5, 1), Coordinate(5, 5)), (Coordinate(5, 9), Coordinate(5, 13))]
    );
}

#[test]
fn dotted_line_does_not_test_where_the_curve_starts() {
    let segments = dotted_parametric_curve(Size(50, 50), 4, |t| Coordinate(4 * t, 5));
    assert_eq!(segments.len(), 6);
    assert_eq!(segments[0], (Coordinate(0, 5), Coordinate(4, 5)));
    let none = dotted_parametric_curve(Size(50, 50), 4, |_| Coordinate(0, 5));
    assert_eq!(none, vec![]);
}

#[test]
fn dotted_line_with_no_length_breaks_at_each_step() {
    let segments = dotted_parametric_curve(Size(6, 6), 0, |t| Coordinate(1 + t, 1));
    assert_eq!(
        segments,
        vec![
            (Coordinate(1, 1), Coordinate(2, 1)),
            (Coordinate(3, 1), Coordinate(4, 1)),
            (Coordinate(5, 1), Coordinate(6, 1)),
        ]
    );
    let negative = dotted_parametric_curve(Size(6, 6), -3, |t| Coordinate(1 + t, 1));
    assert_eq!(negative, segments);
}

#[test]
fn dashes_are_four_long() {
    assert_eq!(DOT_LENGTH, 4);
}

#[test]
fn dotted_line_of_a_shot() {
    let tank = Tank {
        screen_position: Coordinate(100, 200),
        angle: 45,
        direction: Direction::Right,
        power: 50,
        wind: 0,
    };
    let segments = tank_curve_segments(&tank, Size(1920, 1080));
    assert_eq!(segments.len(), 15);
    assert_eq!(segments[0], (Coordinate(100, 200), Coordinate(127, 225)));
    assert_eq!(segments[1], (Coordinate(153, 249), Coordinate(180, 269)));
    assert_eq!(segments[6], (Coordinate(418, 355), Coordinate(445, 353)));
    assert_eq!(segments[14], (Coordinate(842, 55), Coordinate(869, 17)));
}

#[test]
fn dotted_line_of_a_shot_to_the_left() {
    let tank = Tank {
        screen_position: Coordinate(300, 400),
        angle: 30,
        direction: Direction::Left,
        power: 60,
        wind: -20,
    };
    assert_eq!(
        tank_curve_segments(&tank, Size(1920, 1080)),
        vec![
            (Coordinate(300, 400), Coordinate(261, 421)),
            (Coordinate(222, 440), Coordinate(183, 457)),
            (Coordinate(145, 472), Coordinate(106, 484)),
            (Coordinate(67, 494), Coordinate(29, 502)),
        ]
    );
}

#[test]
fn dotted_line_of_a_level_shot_without_a_fall() {
    let tank = Tank {
        screen_position: Coordinate(0, 5),
        angle: 0,
        direction: Direction::Right,
        power: 1,
        wind: 0,
    };
    let segments = tank_curve_segments(&tank, Size(2560, 0));
    assert_eq!(segments.len(), 2560 / (2 * 4));
    assert_eq!(segments[0], (Coordinate(0, 5), Coordinate(4, 5)));
    assert_eq!(segments[319], (Coordinate(2552, 5), Coordinate(2556, 5)));
}

#[test]
fn error_from_a_code() {
    let error = WindowsError::from(5);
    assert_eq!(error, WindowsError { code: 5, error_type: WindowsErrorType::Other });
    let other: WindowsError = 1400u32.into();
    assert_eq!(other.code, 1400);
    assert_eq!(other.error_type, WindowsErrorType::Other);
}

#[test]
fn window_without_its_border() {
    assert_eq!(window_dimensions(0, 0, 1936, 1096), Size(1920, 1080));
    assert_eq!(window_dimensions(100, 50, 116, 34), Size(0, 0));
    assert_eq!(window_dimensions(-8, -8, 2568, 1448), Size(2560, 1440));
    assert_eq!(window_dimensions(i32::MAX, i32::MIN, i32::MIN, i32::MAX), Size(u32::MAX - 16, u32::MAX - 16));
}

#[test]
fn line_on_the_surface_counts_from_the_top() {
    let ends = line_on_surface(Size(1920, 1080), Coordinate(100, 200), Coordinate(126, 225));
    assert_eq!(ends, (Coordinate(108, 888), Coordinate(134, 863)));
    let low = line_on_surface(Size(10, 10), Coordinate(0, 0), Coordinate(-8, 18));
    assert_eq!(low, (Coordinate(8, 18), Coordinate(0, 0)));
}

#[test]
fn picture_takes_four_bytes_for_a_pixel() {
    assert_eq!(bitmap_size_image(Size(1920, 1080)), 8_294_400);
    assert_eq!(bitmap_size_image(Size(0, 7)), 0);
    assert_eq!(bitmap_size_image(Size(1, 1)), 4);
}

#[test]
fn title_with_the_name_of_the_game() {
    assert!(is_shellshock_title(&units("ShellShock")));
    assert!(is_shellshock_title(&units("ShellShock Live")));
    assert!(is_shellshock_title(&units("Play ShellShock")));
    assert!(is_shellshock_title(&units("ShellShellShock!")));
}

#[test]
fn title_without_the_name_of_the_game() {
    assert!(!is_shellshock_title(&units("")));
    assert!(!is_shellshock_title(&units("ShellShoc")));
    assert!(!is_shellshock_title(&units("shellshock live")));
    assert!(!is_shellshock_title(&units("Shell Shock Live")));
    assert!(!is_shellshock_title(&units("ShellShocShellShoc")));
}
