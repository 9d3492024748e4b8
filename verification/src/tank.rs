//! The tank and the path of its shot.
//!
//! The path is computed in whole numbers: the sine and cosine of the angle are
//! taken from a table in billionths, and every product is formed exactly
//! before the one division that rounds to a number of pixels.

use vstd::prelude::*;

use crate::{Coordinate, Size};

verus! {

/// The sine of each whole angle from 0 to 90 degrees, in billionths.
pub const SINE_BILLIONTHS: [u32; 91] = [
    0, 17_452_406, 34_899_497, 52_335_956, 69_756_474, 87_155_743, 104_528_463,
    121_869_343, 139_173_101, 156_434_465, 173_648_178, 190_808_995, 207_911_691, 224_951_054,
    241_921_896, 258_819_045, 275_637_356, 292_371_705, 309_016_994, 325_568_154, 342_020_143,
    358_367_950, 374_606_593, 390_731_128, 406_736_643, 422_618_262, 438_371_147, 453_990_500,
    469_471_563, 484_809_620, 500_000_000, 515_038_075, 529_919_264, 544_639_035, 559_192_903,
    573_576_436, 587_785_252, 601_815_023, 615_661_475, 629_320_391, 642_787_610, 656_059_029,
    669_130_606, 681_998_360, 694_658_370, 707_106_781, 719_339_800, 731_353_702, 743_144_825,
    754_709_580, 766_044_443, 777_145_961, 788_010_754, 798_635_510, 809_016_994, 819_152_044,
    829_037_573, 838_670_568, 848_048_096, 857_167_301, 866_025_404, 874_619_707, 882_947_593,
    891_006_524, 898_794_046, 906_307_787, 913_545_458, 920_504_853, 927_183_855, 933_580_426,
    939_692_621, 945_518_576, 951_056_516, 956_304_756, 961_261_696, 965_925_826, 970_295_726,
    974_370_065, 978_147_601, 981_627_183, 984_807_753, 987_688_341, 990_268_069, 992_546_152,
    994_521_895, 996_194_698, 997_564_050, 998_629_535, 999_390_827, 999_847_695, 1_000_000_000,
];

/// One, in billionths.
pub const BILLION: u64 = 1_000_000_000;

/// Half the push of one unit of wind on the shot per step, in billionths of a
/// pixel, at the width of the reference frame.
pub const HALF_WIND: u64 = 1_820_000;

/// Half the pull on the shot per step, in billionths of a pixel, at the height
/// of the reference frame.
pub const HALF_GRAVITY: u64 = 1_509_150_000;

/// The width of the frame for which the constants were measured, 2560
/// pixels, in billionths.
pub const REFERENCE_WIDTH: u64 = 2_560_000_000_000;

/// The height of the frame for which the constants were measured, 1440
/// pixels, in billionths.
pub const REFERENCE_HEIGHT: u64 = 1_440_000_000_000;

/// The side to which the tank shoots.
#[derive(Clone, Debug, Copy, PartialEq, Eq, Structural)]
pub enum Direction {
    Left,
    Right,
}

impl Direction {
    /// `-1` for a shot to the left, `1` for one to the right.
    pub open spec fn sign(self) -> int {
        match self {
            Direction::Left => -1,
            Direction::Right => 1,
        }
    }

    /// Returns the factor that turns a distance into a step along the
    /// horizontal axis: `-1` to the left, `1` to the right.
    pub fn as_multiplier(&self) -> (factor: i32)
        ensures
            factor == self.sign(),
    {
        match self {
            Direction::Left => -1,
            Direction::Right => 1,
        }
    }
}

/// The tank: where it stands on the screen and how its shot is set.
#[derive(Clone, Debug, PartialEq, Eq)]
pub struct Tank {
    pub screen_position: Coordinate<u32>,
    pub angle: i8,
    pub direction: Direction,
    pub power: u8,
    pub wind: i8,
}

/// The sine of `degrees`, in billionths, for an angle of half a turn at most.
pub open spec fn sine(degrees: int) -> int {
    let size = if degrees < 0 {
        -degrees
    } else {
        degrees
    };
    let value = if size <= 90 {
        SINE_BILLIONTHS[size] as int
    } else {
        SINE_BILLIONTHS[180 - size] as int
    };
    if degrees < 0 {
        -value
    } else {
        value
    }
}

/// The cosine of `degrees`, in billionths, for an angle of half a turn at most.
pub open spec fn cosine(degrees: int) -> int {
    let size = if degrees < 0 {
        -degrees
    } else {
        degrees
    };
    if size <= 90 {
        SINE_BILLIONTHS[90 - size] as int
    } else {
        -(SINE_BILLIONTHS[size - 90] as int)
    }
}

/// Returns the sine of `angle` degrees in billionths.
fn sine_of(angle: i8) -> (value: i64)
    ensures
        value == sine(angle as int),
        -BILLION <= value <= BILLION,
{
    let size: usize = if angle < 0 {
        (-(angle as i16)) as usize
    } else {
        angle as usize
    };
    let index: usize = if size <= 90 {
        size
    } else {
        180 - size
    };
    let value = SINE_BILLIONTHS[index] as i64;
    proof {
        lemma_table_bound(index as int);
    }
    if angle < 0 {
        -value
    } else {
        value
    }
}

/// No entry of the table is above one.
proof fn lemma_table_bound(index: int)
    requires
        0 <= index <= 90,
    ensures
        SINE_BILLIONTHS[index] <= BILLION,
{
}

/// Returns the cosine of `angle` degrees in billionths.
fn cosine_of(angle: i8) -> (value: i64)
    ensures
        value == cosine(angle as int),
        -BILLION <= value <= BILLION,
{
    let size: usize = if angle < 0 {
        (-(angle as i16)) as usize
    } else {
        angle as usize
    };
    if size <= 90 {
        proof {
            lemma_table_bound(90 - size);
        }
        SINE_BILLIONTHS[90 - size] as i64
    } else {
        proof {
            lemma_table_bound(size - 90);
        }
        -(SINE_BILLIONTHS[size - 90] as i64)
    }
}

/// `numerator / denominator`, for a numerator that is not negative, rounded
/// to the nearest whole number; a half is rounded up.
pub open spec fn rounded_size(numerator: int, denominator: int) -> int {
    (numerator + denominator / 2) / denominator
}

/// `numerator / denominator` rounded to the nearest whole number; a half is
/// rounded away from zero.
pub open spec fn rounded_quotient(numerator: int, denominator: int) -> int {
    if numerator >= 0 {
        rounded_size(numerator, denominator)
    } else {
        -rounded_size(-numerator, denominator)
    }
}

/// `value`, held to what a coordinate of 32 bits can be.
pub open spec fn clamped(value: int) -> i32 {
    if value > i32::MAX {
        i32::MAX
    } else if value < i32::MIN {
        i32::MIN
    } else {
        value as i32
    }
}

impl Tank {
    /// The tank that four numbers entered by hand stand for: the power, the
    /// angle, the wind, and the side of the shot, `0` for the left and any
    /// other number for the right. The tank stands at the origin.
    pub open spec fn entered(values: Seq<i8>) -> Tank {
        Tank {
            screen_position: Coordinate(0, 0),
            power: values[0] as u8,
            angle: values[1],
            wind: values[2],
            direction: if values[3] == 0 {
                Direction::Left
            } else {
                Direction::Right
            },
        }
    }

    /// Returns the tank that the first four of `values` stand for, or `None`
    /// where fewer than four were entered.
    pub fn from_input(values: &[i8]) -> (tank: Option<Tank>)
        ensures
            values@.len() < 4 ==> tank.is_none(),
            values@.len() >= 4 ==> tank == Some(Tank::entered(values@)),
    {
        if values.len() < 4 {
            return None;
        }
        let direction = if values[3] == 0 {
            Direction::Left
        } else {
            Direction::Right
        };
        Some(
            Tank {
                screen_position: Coordinate(0, 0),
                power: #[verifier::truncate]
                (values[0] as u8),
                angle: values[1],
                wind: values[2],
                direction,
            },
        )
    }

    /// How far the shot is along the horizontal axis after `t` steps, in
    /// billionths of a pixel of the reference frame: the power along the
    /// angle for `t` steps, and the wind's push, which grows with `t * t`;
    /// all of it turned to the side of the shot.
    pub open spec fn reach(self, t: int) -> int {
        let forward = self.power * cosine(self.angle as int) * t + self.wind * HALF_WIND * t * t;
        match self.direction {
            Direction::Left => -forward,
            Direction::Right => forward,
        }
    }

    /// How high the shot is after `t` steps, in billionths of a pixel of the
    /// reference frame: the power along the angle for `t` steps, less the
    /// pull down, which grows with `t * t`.
    pub open spec fn rise(self, t: int) -> int {
        self.power * sine(self.angle as int) * t - HALF_GRAVITY * t * t
    }

    /// The horizontal distance of the shot from the tank after `t` steps, in
    /// pixels of a frame that is `width` wide, rounded to the nearest pixel.
    pub open spec fn x_offset(self, t: int, width: int) -> int {
        rounded_quotient(width * self.reach(t), REFERENCE_WIDTH as int)
    }

    /// The vertical distance of the shot from the tank after `t` steps, in
    /// pixels of a frame that is `height` high, rounded to the nearest pixel.
    pub open spec fn y_offset(self, t: int, height: int) -> int {
        rounded_quotient(height * self.rise(t), REFERENCE_HEIGHT as int)
    }

    /// Where the shot is after `t` steps in a frame of `dimensions`.
    pub open spec fn curve_point(self, t: int, dimensions: Size<u32>) -> Coordinate<i32> {
        Coordinate(
            clamped(self.screen_position.0 + self.x_offset(t, dimensions.0 as int)),
            clamped(self.screen_position.1 + self.y_offset(t, dimensions.1 as int)),
        )
    }

    /// Returns the place of the shot after `t` steps in a frame of
    /// `dimensions` (width first, then height): the tank's place and the
    /// shot's distance from it along each axis, rounded to the nearest pixel.
    pub fn curve_function(&self, t: i32, dimensions: Size<u32>) -> (point: Coordinate<i32>)
        ensures
            point == self.curve_point(t as int, dimensions),
    {
        let direction_multiplier = self.direction.as_multiplier() as i128;
        let power = self.power as i128;
        let wind = self.wind as i128;
        let time = t as i128;
        let cos = cosine_of(self.angle) as i128;
        let sin = sine_of(self.angle) as i128;
        let width = dimensions.0 as i128;
        let height = dimensions.1 as i128;

        proof {
            lemma_products(power as int, cos as int, time as int, 255, BILLION as int);
            lemma_products(power as int, sin as int, time as int, 255, BILLION as int);
            lemma_squares(wind as int, HALF_WIND as int, time as int, 128);
            lemma_squares(1, HALF_GRAVITY as int, time as int, 1);
        }
        let x_t = power * cos * time;
        let x_t2 = wind * HALF_WIND as i128 * time * time;
        let y_t = power * sin * time;
        let y_t2 = HALF_GRAVITY as i128 * time * time;

        let reach = direction_multiplier * (x_t + x_t2);
        let rise = y_t - y_t2;
        proof {
            lemma_scaled(width as int, reach as int);
            lemma_scaled(height as int, rise as int);
        }
        let x = quotient(width * reach, REFERENCE_WIDTH as i128);
        let y = quotient(height * rise, REFERENCE_HEIGHT as i128);

        Coordinate(
            clamp(x + self.screen_position.0 as i128),
            clamp(y + self.screen_position.1 as i128),
        )
    }
}

/// The bound on a product of an amount, a sine or cosine, and a time.
proof fn lemma_products(amount: int, ratio: int, time: int, most: int, unit: int)
    requires
        0 <= amount <= most,
        -unit <= ratio <= unit,
        -0x8000_0000 <= time <= 0x8000_0000,
        0 <= unit,
    ensures
        -(most * unit) <= amount * ratio <= most * unit,
        -(most * unit * 0x8000_0000) <= amount * ratio * time <= most * unit * 0x8000_0000,
{
    assert(-(most * unit) <= amount * ratio <= most * unit) by (nonlinear_arith)
        requires
            0 <= amount <= most,
            -unit <= ratio <= unit,
            0 <= unit,
    ;
    let product = amount * ratio;
    let bound = most * unit;
    assert(-(bound * 0x8000_0000) <= product * time <= bound * 0x8000_0000) by (nonlinear_arith)
        requires
            -bound <= product <= bound,
            -0x8000_0000 <= time <= 0x8000_0000,
    ;
}

/// The bound on a product of an amount, a constant, and the square of a time.
proof fn lemma_squares(amount: int, constant: int, time: int, most: int)
    requires
        -most <= amount <= most,
        0 <= constant,
        -0x8000_0000 <= time <= 0x8000_0000,
    ensures
        -(most * constant) <= amount * constant <= most * constant,
        -(most * constant * 0x8000_0000) <= amount * constant * time <= most * constant
            * 0x8000_0000,
        -(most * constant * 0x4000_0000_0000_0000) <= amount * constant * time * time <= most
            * constant * 0x4000_0000_0000_0000,
{
    assert(-(most * constant) <= amount * constant <= most * constant) by (nonlinear_arith)
        requires
            -most <= amount <= most,
            0 <= constant,
    ;
    let product = amount * constant;
    let bound = most * constant;
    assert(-(bound * 0x8000_0000) <= product * time <= bound * 0x8000_0000) by (nonlinear_arith)
        requires
            -bound <= product <= bound,
            -0x8000_0000 <= time <= 0x8000_0000,
    ;
    let second = product * time;
    let wider = bound * 0x8000_0000;
    assert(-(wider * 0x8000_0000) <= second * time <= wider * 0x8000_0000) by (nonlinear_arith)
        requires
            -wider <= second <= wider,
            -0x8000_0000 <= time <= 0x8000_0000,
    ;
}

/// The bound on a distance scaled by a side of the frame.
proof fn lemma_scaled(side: int, distance: int)
    requires
        0 <= side <= u32::MAX,
        -0x2000_0000_0000_0000_0000_0000 <= distance <= 0x2000_0000_0000_0000_0000_0000,
    ensures
        -0x2000_0000_0000_0000_0000_0000_0000_0000 <= side * distance
            <= 0x2000_0000_0000_0000_0000_0000_0000_0000,
{
    assert(-0x2000_0000_0000_0000_0000_0000_0000_0000 <= side * distance
        <= 0x2000_0000_0000_0000_0000_0000_0000_0000) by (nonlinear_arith)
        requires
            0 <= side <= 0x1_0000_0000,
            -0x2000_0000_0000_0000_0000_0000 <= distance <= 0x2000_0000_0000_0000_0000_0000,
    ;
}

/// Rounding a quotient that is not negative gives a whole number that is not
/// negative and not above the numerator, and keeps the order of two numerators.
pub proof fn lemma_rounded_size(lower: int, upper: int, denominator: int)
    requires
        0 <= lower <= upper,
        denominator > 0,
    ensures
        0 <= denominator / 2 < denominator,
        0 <= rounded_size(lower, denominator) <= rounded_size(upper, denominator) <= upper,
{
    let half = denominator / 2;
    assert(0 <= (lower + half) / denominator <= (upper + half) / denominator) by (nonlinear_arith)
        requires
            0 <= lower + half <= upper + half,
            denominator > 0,
    ;
    assert((upper + half) / denominator <= upper) by (nonlinear_arith)
        requires
            0 <= upper,
            0 <= half < denominator,
    ;
}

/// Divides and rounds to the nearest whole number, a half away from zero.
fn quotient(numerator: i128, denominator: i128) -> (result: i128)
    requires
        0 < denominator <= 0x4000_0000_0000_0000,
        -0x2000_0000_0000_0000_0000_0000_0000_0000 <= numerator
            <= 0x2000_0000_0000_0000_0000_0000_0000_0000,
    ensures
        result == rounded_quotient(numerator as int, denominator as int),
        numerator >= 0 ==> 0 <= result <= numerator,
        numerator < 0 ==> numerator <= result <= 0,
{
    let by: u128 = denominator as u128;
    if numerator >= 0 {
        let size = numerator as u128;
        proof {
            lemma_rounded_size(size as int, size as int, by as int);
        }
        ((size + by / 2) / by) as i128
    } else {
        let size = (-numerator) as u128;
        proof {
            lemma_rounded_size(size as int, size as int, by as int);
        }
        -(((size + by / 2) / by) as i128)
    }
}

/// Holds a value to the range of a coordinate.
fn clamp(value: i128) -> (held: i32)
    ensures
        held == clamped(value as int),
{
    if value > i32::MAX as i128 {
        i32::MAX
    } else if value < i32::MIN as i128 {
        i32::MIN
    } else {
        value as i32
    }
}

/// Rounding keeps the order of two numerators.
pub proof fn lemma_rounded_quotient_monotone(lower: int, upper: int, denominator: int)
    requires
        lower <= upper,
        denominator > 0,
    ensures
        rounded_quotient(lower, denominator) <= rounded_quotient(upper, denominator),
{
    if lower >= 0 {
        lemma_rounded_size(lower, upper, denominator);
    } else if upper >= 0 {
        lemma_rounded_size(-lower, -lower, denominator);
        lemma_rounded_size(upper, upper, denominator);
    } else {
        lemma_rounded_size(-upper, -lower, denominator);
    }
}

/// A shot fired level to the right, with some power and no wind against it,
/// never moves back: from step to step its horizontal place stays or grows.
pub proof fn lemma_level_shot_moves_right(
    tank: Tank,
    earlier: int,
    later: int,
    dimensions: Size<u32>,
)
    requires
        tank.angle == 0,
        tank.direction == Direction::Right,
        tank.power > 0,
        tank.wind >= 0,
        0 <= earlier <= later,
    ensures
        tank.curve_point(earlier, dimensions).0 <= tank.curve_point(later, dimensions).0,
{
    let width = dimensions.0 as int;
    let drive = tank.power * cosine(0);
    let push = tank.wind * HALF_WIND;
    assert(cosine(0) == BILLION);
    assert(drive * earlier <= drive * later) by (nonlinear_arith)
        requires
            0 <= drive,
            0 <= earlier <= later,
    ;
    assert(push * earlier * earlier <= push * later * later) by (nonlinear_arith)
        requires
            0 <= push,
            0 <= earlier <= later,
    ;
    assert(tank.reach(earlier) == drive * earlier + push * earlier * earlier);
    assert(tank.reach(later) == drive * later + push * later * later);
    assert(width * tank.reach(earlier) <= width * tank.reach(later)) by (nonlinear_arith)
        requires
            0 <= width,
            tank.reach(earlier) <= tank.reach(later),
    ;
    lemma_rounded_quotient_monotone(
        width * tank.reach(earlier),
        width * tank.reach(later),
        REFERENCE_WIDTH as int,
    );
}

/// The height of a shot fired level depends on the pull down alone: neither
/// the power nor the wind nor the side of the shot changes it.
pub proof fn lemma_level_shot_falls_alike(first: Tank, second: Tank, t: int, dimensions: Size<u32>)
    requires
        first.angle == 0,
        second.angle == 0,
        first.screen_position.1 == second.screen_position.1,
    ensures
        first.rise(t) == -(HALF_GRAVITY * t * t),
        first.curve_point(t, dimensions).1 == second.curve_point(t, dimensions).1,
{
    assert(sine(0) == 0);
    assert(first.power * sine(0) * t == 0) by (nonlinear_arith)
        requires
            sine(0) == 0,
    ;
    assert(second.power * sine(0) * t == 0) by (nonlinear_arith)
        requires
            sine(0) == 0,
    ;
}

} // verus!
