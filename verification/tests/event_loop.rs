use shellshock_tracer::event_loop::{next_frame, read_tank, InputError};
use shellshock_tracer::tank::{Direction, Tank};
use shellshock_tracer::window_winapi::tank_curve_segments;
use shellshock_tracer::{Coordinate, Size};

fn numbers_of(tank: &Tank) -> (u8, i8, i8, Direction, Coordinate<u32>) {
    (tank.power, tank.angle, tank.wind, tank.direction, tank.screen_position)
}

fn by_the_standard_library(line: &str) -> Result<(u8, i8, i8, Direction, Coordinate<u32>), InputError> {
    let mut values = Vec::new();
    for word in line.split_ascii_whitespace().take(4) {
        match word.parse::<i8>() {
            Ok(value) => values.push(value),
            Err(_) => return Err(InputError::NonNumeric),
        }
    }
    if values.len() < 4 {
        return Err(InputError::Missing);
    }
    let direction = if values[3] == 0 { Direction::Left } else { Direction::Right };
    Ok((values[0] as u8, values[1], values[2], direction, Coordinate(0, 0)))
}

fn read(line: &str) -> Result<(u8, i8, i8, Direction, Coordinate<u32>), InputError> {
    read_tank(line.as_bytes()).map(|tank| numbers_of(&tank))
}

#[test]
fn line_of_four_numbers() {
    assert_eq!(read("37 -77 23 0\n"), Ok((37, -77, 23, Direction::Left, Coordinate(0, 0))));
    assert_eq!(read("100 45 0 1"), Ok((100, 45, 0, Direction::Right, Coordinate(0, 0))));
    assert_eq!(read("  +5\t-0 \r\n 007 \x0c -128 "), Ok((5, 0, 7, Direction::Right, Coordinate(0, 0))));
    assert_eq!(read("-1 127 -128 2"), Ok((255, 127, -128, Direction::Right, Coordinate(0, 0))));
}

#[test]
fn line_with_more_than_four_words() {
    assert_eq!(read("1 2 3 0 5 6"), Ok((1, 2, 3, Direction::Left, Coordinate(0, 0))));
    assert_eq!(read("1 2 3 4 five"), Ok((1, 2, 3, Direction::Right, Coordinate(0, 0))));
    assert_eq!(read("1 2 3 4 999"), Ok((1, 2, 3, Direction::Right, Coordinate(0, 0))));
}

#[test]
fn line_with_too_few_words() {
    assert_eq!(read(""), Err(InputError::Missing));
    assert_eq!(read(" \t\r\n"), Err(InputError::Missing));
    assert_eq!(read("1"), Err(InputError::Missing));
    assert_eq!(read("1 2 3"), Err(InputError::Missing));
    assert_eq!(read("1 2 3\n"), Err(InputError::Missing));
}

#[test]
fn line_with_a_word_that_is_no_number() {
    assert_eq!(read("a"), Err(InputError::NonNumeric));
    assert_eq!(read("1 2 x 4"), Err(InputError::NonNumeric));
    assert_eq!(read("1 2 3 4x"), Err(InputError::NonNumeric));
    assert_eq!(read("1 2 -"), Err(InputError::NonNumeric));
    assert_eq!(read("+ 2 3 4"), Err(InputError::NonNumeric));
    assert_eq!(read("1,2,3,4"), Err(InputError::NonNumeric));
    assert_eq!(read("1 2 3 --4"), Err(InputError::NonNumeric));
    assert_eq!(read("1 2 3 4-"), Err(InputError::NonNumeric));
    assert_eq!(read("1.5 2 3 4"), Err(InputError::NonNumeric));
    assert_eq!(read("1\x0b2 3 4 5"), Err(InputError::NonNumeric));
    assert_eq!(read("\u{a0}1 2 3 4"), Err(InputError::NonNumeric));
}

#[test]
fn line_with_a_number_out_of_range() {
    assert_eq!(read("128 0 0 0"), Err(InputError::NonNumeric));
    assert_eq!(read("0 -129 0 0"), Err(InputError::NonNumeric));
    assert_eq!(read("0 0 0128 0"), Err(InputError::NonNumeric));
    assert_eq!(read("0 0 0 99999999999999999999999999"), Err(InputError::NonNumeric));
    assert_eq!(read("0 0 0 1290"), Err(InputError::NonNumeric));
    assert_eq!(read("127 -128 00000000000000000000127 -0000000128").map(|t| (t.0, t.1, t.2)), Ok((127, -128, 127)));
}

#[test]
fn non_number_counts_before_too_few_words() {
    assert_eq!(read("1 x"), Err(InputError::NonNumeric));
    assert_eq!(read("x"), Err(InputError::NonNumeric));
}

#[test]
fn line_reads_as_the_standard_library_reads_it() {
    let lines = [
        "37 -77 23 0", "1 2 3", "", "+1 +2 +3 +4", "-1 -2 -3 -4", "1  2\t3\n4", "12a 1 1 1",
        "127 128", "-128 -129", "0 0 0 0 0", "1 2 3 4 x", "x 1 2 3", "1 - 2 3", "1 + 2 3",
        "99 099 0099 00099", "1\r2\r3\r4", "1\x0c2\x0c3\x0c4", "1\x0b2 3 4 5", "١ 2 3 4",
        "1 2 3 4\u{2003}5", "255 1 1 1", "-0 +0 0 -00", " 5 6 7 8 ", "5 6 7 +", "5 6 7 ++8",
    ];
    for line in lines {
        assert_eq!(read(line), by_the_standard_library(line), "{:?}", line);
    }
}

#[test]
fn what_the_user_is_told() {
    assert_eq!(InputError::NonNumeric.message(), "Non-numeric values");
    assert_eq!(InputError::Missing.message(), "All values not entered");
}

fn shooter(position: (u32, u32), power: u8) -> Tank {
    Tank {
        screen_position: Coordinate(position.0, position.1),
        angle: 30,
        direction: Direction::Left,
        power,
        wind: -20,
    }
}

#[test]
fn tick_with_a_tank_found_moves_the_tank_and_draws() {
    let (tank, dashes) =
        next_frame(shooter((1, 2), 60), None, Some(Coordinate(300, 400)), Size(1920, 1080));
    assert_eq!(tank, shooter((300, 400), 60));
    assert_eq!(
        dashes,
        Some(vec![
            (Coordinate(300, 400), Coordinate(261, 421)),
            (Coordinate(222, 440), Coordinate(183, 457)),
            (Coordinate(145, 472), Coordinate(106, 484)),
            (Coordinate(67, 494), Coordinate(29, 502)),
        ])
    );
}

#[test]
fn tick_takes_the_tank_that_was_entered() {
    let entered = shooter((0, 0), 60);
    let (tank, dashes) = next_frame(
        shooter((1, 2), 7),
        Some(entered.clone()),
        Some(Coordinate(300, 400)),
        Size(1920, 1080),
    );
    assert_eq!(tank, shooter((300, 400), 60));
    assert_eq!(dashes.map(|dashes| dashes.len()), Some(4));
    assert_eq!(dashes_of(&tank), tank_curve_segments(&shooter((300, 400), 60), Size(1920, 1080)));
}

fn dashes_of(tank: &Tank) -> Vec<(Coordinate<i32>, Coordinate<i32>)> {
    next_frame(tank.clone(), None, Some(tank.screen_position), Size(1920, 1080)).1.unwrap()
}

#[test]
fn tick_without_a_tank_found_draws_nothing() {
    let (tank, dashes) = next_frame(shooter((1, 2), 60), None, None, Size(1920, 1080));
    assert_eq!(tank, shooter((1, 2), 60));
    assert_eq!(dashes, None);
    let (tank, dashes) =
        next_frame(shooter((1, 2), 60), Some(shooter((0, 0), 9)), None, Size(1920, 1080));
    assert_eq!(tank, shooter((0, 0), 9));
    assert_eq!(dashes, None);
}
