use shellshock_tracer::tank::{Direction, Tank};
use shellshock_tracer::{Coordinate, Size};

fn tank(position: (u32, u32), angle: i8, direction: Direction, power: u8, wind: i8) -> Tank {
    Tank { screen_position: Coordinate(position.0, position.1), angle, direction, power, wind }
}

#[test]
fn multiplier_of_a_direction() {
    assert_eq!(Direction::Left.as_multiplier(), -1);
    assert_eq!(Direction::Right.as_multiplier(), 1);
}

#[test]
fn curve_starts_at_the_tank() {
    let shooter = tank((500, 300), 45, Direction::Right, 100, 0);
    assert_eq!(shooter.curve_function(0, Size(1920, 1080)), Coordinate(500, 300));
    let other = tank((7, 9), -77, Direction::Left, 37, 23);
    assert_eq!(other.curve_function(0, Size(0, 0)), Coordinate(7, 9));
}

#[test]
fn curve_of_a_shot_to_the_right() {
    let shooter = tank((500, 300), 45, Direction::Right, 100, 0);
    let dimensions = Size(1920, 1080);
    assert_eq!(shooter.curve_function(1, dimensions), Coordinate(553, 352));
    assert_eq!(shooter.curve_function(10, dimensions), Coordinate(1030, 717));
    assert_eq!(shooter.curve_function(40, dimensions), Coordinate(2621, 610));
}

#[test]
fn curve_of_a_shot_to_the_left_against_the_wind() {
    let shooter = tank((500, 300), 60, Direction::Left, 80, -10);
    let dimensions = Size(2560, 1440);
    assert_eq!(shooter.curve_function(1, dimensions), Coordinate(460, 368));
    assert_eq!(shooter.curve_function(5, dimensions), Coordinate(300, 609));
    assert_eq!(shooter.curve_function(20, dimensions), Coordinate(-293, 1082));
}

#[test]
fn curve_of_a_shot_downwards() {
    let shooter = tank((0, 0), -77, Direction::Left, 37, 23);
    let dimensions = Size(1920, 1080);
    assert_eq!(shooter.curve_function(1, dimensions), Coordinate(-6, -28));
    assert_eq!(shooter.curve_function(10, dimensions), Coordinate(-66, -384));
    assert_eq!(shooter.curve_function(40, dimensions), Coordinate(-300, -2893));
}

#[test]
fn curve_at_the_ends_of_the_angles() {
    let dimensions = Size(2560, 1440);
    let at = |angle: i8| tank((10, 10), angle, Direction::Right, 100, 0).curve_function(3, dimensions);
    assert_eq!(at(-128), Coordinate(-175, -240));
    assert_eq!(at(127), Coordinate(-171, 236));
    assert_eq!(at(-90), Coordinate(10, -304));
    assert_eq!(at(90), Coordinate(10, 296));
    assert_eq!(at(91), Coordinate(5, 296));
}

#[test]
fn curve_is_held_to_the_range_of_a_coordinate() {
    let far = tank((u32::MAX, u32::MAX), 0, Direction::Right, 255, 127);
    let dimensions = Size(u32::MAX, u32::MAX);
    assert_eq!(far.curve_function(i32::MAX, dimensions), Coordinate(i32::MAX, i32::MIN));
    let near = tank((0, 0), 0, Direction::Left, 255, 127);
    assert_eq!(near.curve_function(i32::MAX, dimensions), Coordinate(i32::MIN, i32::MIN));
    let up = tank((0, 0), 90, Direction::Left, 255, 127);
    assert_eq!(up.curve_function(i32::MIN, dimensions), Coordinate(i32::MIN, i32::MIN));
}

#[test]
fn level_shot_to_the_right_does_not_move_back() {
    let shooter = tank((5, 1000), 0, Direction::Right, 3, 2);
    let dimensions = Size(2560, 1440);
    assert_eq!(shooter.curve_function(1, dimensions), Coordinate(8, 998));
    assert_eq!(shooter.curve_function(25, dimensions), Coordinate(82, 57));
    let mut last = shooter.curve_function(0, dimensions).0;
    for t in 1..2000 {
        let x = shooter.curve_function(t, dimensions).0;
        assert!(last <= x);
        last = x;
    }
}

#[test]
fn level_shot_falls_the_same_whatever_the_power_and_the_wind() {
    let dimensions = Size(2560, 1440);
    let weak = tank((5, 1000), 0, Direction::Right, 3, 2);
    let strong = tank((900, 1000), 0, Direction::Left, 200, -100);
    for t in [0, 1, 2, 3, 10, 25, 1000] {
        assert_eq!(weak.curve_function(t, dimensions).1, strong.curve_function(t, dimensions).1);
    }
    assert_eq!(strong.curve_function(10, dimensions), Coordinate(-1082, 849));
}

#[test]
fn curve_is_rounded_to_the_nearest_pixel() {
    let level = tank((100, 1000), 0, Direction::Right, 10, 0);
    assert_eq!(level.curve_function(1, Size(2560, 1440)), Coordinate(110, 998));
    let slow = tank((5, 1000), 0, Direction::Right, 3, 2);
    assert_eq!(slow.curve_function(3, Size(2560, 1440)), Coordinate(14, 986));
    assert_eq!(slow.curve_function(10, Size(2560, 1440)), Coordinate(35, 849));
}

#[test]
fn curve_rounds_a_half_away_from_the_tank() {
    let right = tank((10, 10), 0, Direction::Right, 1, 0);
    let left = tank((10, 10), 0, Direction::Left, 1, 0);
    assert_eq!(right.curve_function(1, Size(1280, 0)), Coordinate(11, 10));
    assert_eq!(left.curve_function(1, Size(1280, 0)), Coordinate(9, 10));
    assert_eq!(right.curve_function(3, Size(1280, 0)), Coordinate(12, 10));
    assert_eq!(left.curve_function(3, Size(1280, 0)), Coordinate(8, 10));
    assert_eq!(right.curve_function(1, Size(1279, 0)), Coordinate(10, 10));
}

#[test]
fn tank_from_four_numbers() {
    let entered = Tank::from_input(&[37, -77, 23, 0]).unwrap();
    assert_eq!(entered.screen_position, Coordinate(0, 0));
    assert_eq!(entered.power, 37);
    assert_eq!(entered.angle, -77);
    assert_eq!(entered.wind, 23);
    assert_eq!(entered.direction, Direction::Left);
    let right = Tank::from_input(&[-1, 90, -128, 5, 9, 9]).unwrap();
    assert_eq!(right.power, 255);
    assert_eq!(right.angle, 90);
    assert_eq!(right.wind, -128);
    assert_eq!(right.direction, Direction::Right);
}

#[test]
fn tank_from_too_few_numbers() {
    assert!(Tank::from_input(&[]).is_none());
    assert!(Tank::from_input(&[1, 2, 3]).is_none());
}
