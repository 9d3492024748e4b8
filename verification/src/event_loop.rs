//! What the loop decides: what a line of input stands for, and what a tick
//! makes of the tank that was entered and the tank that was found.

use vstd::prelude::*;

use crate::tank::Tank;
use crate::window_winapi::{dotted_path, tank_curve_segments, DOT_LENGTH};
use crate::{Coordinate, Size};

verus! {

/// Why a line of input gives no tank.
#[derive(Clone, Copy, Debug, PartialEq, Eq, Structural)]
pub enum InputError {
    /// One of the first four words is no number, or none that fits in 8 bits.
    NonNumeric,
    /// The line holds fewer than four words.
    Missing,
}

impl InputError {
    /// Returns what the user is told.
    pub fn message(self) -> (text: &'static str)
        ensures
            self == InputError::NonNumeric ==> text@ == "Non-numeric values"@,
            self == InputError::Missing ==> text@ == "All values not entered"@,
    {
        match self {
            InputError::NonNumeric => "Non-numeric values",
            InputError::Missing => "All values not entered",
        }
    }
}

/// Whether a byte is white space: a blank, a tab, a line feed, a form feed or
/// a carriage return.
pub open spec fn is_space(byte: u8) -> bool {
    byte == 0x20 || byte == 0x09 || byte == 0x0a || byte == 0x0c || byte == 0x0d
}

/// Whether a byte is one of the digits `0` to `9`.
pub open spec fn is_digit(byte: u8) -> bool {
    0x30 <= byte <= 0x39
}

/// The number of bytes before the first white space of `line`.
pub open spec fn word_length(line: Seq<u8>) -> int
    decreases line.len(),
{
    if line.len() == 0 || is_space(line[0]) {
        0
    } else {
        1 + word_length(line.skip(1))
    }
}

/// The words of `line`: its longest runs of bytes without white space, in
/// their order.
pub open spec fn words(line: Seq<u8>) -> Seq<Seq<u8>>
    decreases line.len(),
{
    if line.len() == 0 {
        Seq::empty()
    } else if is_space(line[0]) {
        words(line.skip(1))
    } else if 0 < word_length(line) <= line.len() {
        seq![line.take(word_length(line))] + words(line.skip(word_length(line)))
    } else {
        Seq::empty()
    }
}

/// The number that a run of digits writes in base ten.
pub open spec fn digits_value(digits: Seq<u8>) -> int
    decreases digits.len(),
{
    if digits.len() == 0 {
        0
    } else {
        digits_value(digits.drop_last()) * 10 + (digits.last() - 0x30)
    }
}

/// The digits of a word: the word without the sign that it may start with.
pub open spec fn digits_of(word: Seq<u8>) -> Seq<u8> {
    if word.len() > 0 && (word[0] == 0x2d || word[0] == 0x2b) {
        word.skip(1)
    } else {
        word
    }
}

/// The number that a word writes: a `+` or a `-` or neither, then digits, one
/// at least, for a number from -128 to 127. `None` for any other word.
pub open spec fn number(word: Seq<u8>) -> Option<i8> {
    let digits = digits_of(word);
    let value = if word.len() > 0 && word[0] == 0x2d {
        -digits_value(digits)
    } else {
        digits_value(digits)
    };
    if digits.len() > 0 && (forall|k: int| 0 <= k < digits.len() ==> is_digit(#[trigger] digits[k]))
        && -128 <= value <= 127 {
        Some(value as i8)
    } else {
        None
    }
}

/// The numbers that the words write, for words that all write one.
pub open spec fn numbers(words: Seq<Seq<u8>>) -> Seq<i8> {
    Seq::new(words.len(), |k: int| number(words[k]).unwrap())
}

/// The words of a line that count: the first four, or all where there are
/// fewer.
pub open spec fn first_words(line: Seq<u8>) -> Seq<Seq<u8>> {
    if words(line).len() > 4 {
        words(line).take(4)
    } else {
        words(line)
    }
}

/// Whether every word writes a number.
pub open spec fn all_numbers(words: Seq<Seq<u8>>) -> bool {
    forall|k: int| 0 <= k < words.len() ==> number(#[trigger] words[k]).is_some()
}

/// What a line of input stands for. Of its words the first four count. Where
/// one of them writes no number the line is `NonNumeric`; else, where they are
/// fewer than four, something is `Missing`; else they give the tank's power,
/// angle, wind and side.
pub open spec fn line_tank(line: Seq<u8>) -> Result<Tank, InputError> {
    let first = first_words(line);
    if !all_numbers(first) {
        Err(InputError::NonNumeric)
    } else if first.len() < 4 {
        Err(InputError::Missing)
    } else {
        Ok(Tank::entered(numbers(first)))
    }
}

/// Returns whether a byte is white space.
fn space(byte: u8) -> (yes: bool)
    ensures
        yes == is_space(byte),
{
    byte == 0x20 || byte == 0x09 || byte == 0x0a || byte == 0x0c || byte == 0x0d
}

/// One more digit puts the number ten times up and adds the digit.
proof fn lemma_digits_value_step(digits: Seq<u8>, count: int)
    requires
        0 <= count < digits.len(),
    ensures
        digits_value(digits.take(count + 1)) == digits_value(digits.take(count)) * 10 + (
        digits[count] - 0x30),
{
    assert(digits.take(count + 1).drop_last() =~= digits.take(count));
}

/// Returns the number that `word` writes.
fn parse_number(word: &[u8]) -> (value: Option<i8>)
    ensures
        value == number(word@),
{
    if word.len() == 0 {
        return None;
    }
    let negative = word[0] == 0x2d;
    let start: usize = if negative || word[0] == 0x2b {
        1
    } else {
        0
    };
    if start == word.len() {
        return None;
    }
    let ghost digits = digits_of(word@);
    assert(digits =~= word@.skip(start as int));
    let mut total: i16 = 0;
    let mut too_large = false;
    let mut k: usize = start;
    while k < word.len()
        invariant
            start <= k <= word@.len(),
            start <= 1,
            word@.len() > 0,
            negative == (word@[0] == 0x2d),
            digits == digits_of(word@),
            digits == word@.skip(start as int),
            forall|d: int| 0 <= d < k - start ==> is_digit(#[trigger] digits[d]),
            0 <= total <= 128,
            !too_large ==> total == digits_value(digits.take(k - start)),
            too_large ==> digits_value(digits.take(k - start)) > 128,
        decreases word@.len() - k,
    {
        let byte = word[k];
        assert(digits[k - start] == byte);
        if byte < 0x30 || byte > 0x39 {
            assert(!is_digit(digits[k - start]));
            return None;
        }
        proof {
            lemma_digits_value_step(digits, k - start);
        }
        if !too_large {
            let next = total * 10 + (byte - 0x30) as i16;
            if next > 128 {
                too_large = true;
            } else {
                total = next;
            }
        }
        k += 1;
    }
    assert(digits.take(digits.len() as int) =~= digits);
    if too_large || (!negative && total > 127) {
        None
    } else if negative {
        Some((-total) as i8)
    } else {
        Some(total as i8)
    }
}

/// A line that starts with white space holds the words of what follows it.
proof fn lemma_words_after_space(line: Seq<u8>, at: int)
    requires
        0 <= at < line.len(),
        is_space(line[at]),
    ensures
        words(line.skip(at)) == words(line.skip(at + 1)),
{
    assert(line.skip(at).skip(1) =~= line.skip(at + 1));
}

/// A word goes on as long as no white space comes.
proof fn lemma_word_length(line: Seq<u8>, from: int, to: int)
    requires
        0 <= from <= to <= line.len(),
        forall|k: int| from <= k < to ==> !is_space(#[trigger] line[k]),
        to == line.len() || is_space(line[to]),
    ensures
        word_length(line.skip(from)) == to - from,
    decreases to - from,
{
    if from < to {
        assert(line.skip(from)[0] == line[from]);
        assert(line.skip(from).skip(1) =~= line.skip(from + 1));
        lemma_word_length(line, from + 1, to);
    } else if to < line.len() {
        assert(line.skip(from)[0] == line[to]);
    }
}

/// A line that starts with a word holds that word and the words of what
/// follows it.
proof fn lemma_words_after_word(line: Seq<u8>, from: int, to: int)
    requires
        0 <= from < to <= line.len(),
        forall|k: int| from <= k < to ==> !is_space(#[trigger] line[k]),
        to == line.len() || is_space(line[to]),
    ensures
        words(line.skip(from)) == seq![line.subrange(from, to)] + words(line.skip(to)),
{
    lemma_word_length(line, from, to);
    let rest = line.skip(from);
    assert(rest[0] == line[from]);
    assert(rest.take(to - from) =~= line.subrange(from, to));
    assert(rest.skip(to - from) =~= line.skip(to));
}

/// Returns the tank that a line of input stands for, or what is wrong with
/// the line.
pub fn read_tank(line: &[u8]) -> (tank: Result<Tank, InputError>)
    ensures
        tank == line_tank(line@),
{
    let mut values: Vec<i8> = Vec::new();
    let ghost mut found: Seq<Seq<u8>> = Seq::empty();
    let mut at: usize = 0;
    proof {
        assert(line@.skip(0) =~= line@);
        assert(found + words(line@) =~= words(line@));
    }
    while at < line.len() && values.len() < 4
        invariant
            at <= line@.len(),
            values@.len() <= 4,
            found.len() == values@.len(),
            words(line@) == found + words(line@.skip(at as int)),
            forall|k: int| 0 <= k < found.len() ==> number(#[trigger] found[k]) == Some(values@[k]),
        decreases line@.len() - at,
    {
        if space(line[at]) {
            proof {
                lemma_words_after_space(line@, at as int);
            }
            at += 1;
        } else {
            let mut end: usize = at + 1;
            while end < line.len() && !space(line[end])
                invariant
                    at < end <= line@.len(),
                    forall|k: int| at <= k < end ==> !is_space(#[trigger] line@[k]),
                decreases line@.len() - end,
            {
                end += 1;
            }
            let word = &line[at..end];
            proof {
                lemma_words_after_word(line@, at as int, end as int);
                assert(words(line@) == found.push(word@) + words(line@.skip(end as int)));
            }
            match parse_number(word) {
                None => {
                    proof {
                        let first = first_words(line@);
                        let k = found.len() as int;
                        assert(words(line@)[k] == word@);
                        assert(first[k] == word@);
                        assert(!all_numbers(first));
                    }
                    return Err(InputError::NonNumeric);
                },
                Some(value) => {
                    values.push(value);
                    proof {
                        found = found.push(word@);
                    }
                },
            }
            at = end;
        }
    }
    proof {
        let first = first_words(line@);
        if values@.len() < 4 {
            assert(line@.skip(at as int).len() == 0);
            assert(words(line@) =~= found);
        }
        assert(first =~= found);
        assert(values@ =~= numbers(first));
    }
    match Tank::from_input(values.as_slice()) {
        None => Err(InputError::Missing),
        Some(tank) => Ok(tank),
    }
}

/// The tank after a tick: the tank that was entered since the last tick, or
/// else the tank of the last tick, at the place where the frame shows it. A
/// frame that shows no tank leaves the place as it is.
pub open spec fn frame_tank(
    current: Tank,
    entered: Option<Tank>,
    found: Option<Coordinate<u32>>,
) -> Tank {
    let tank = match entered {
        Some(new_tank) => new_tank,
        None => current,
    };
    match found {
        Some(location) => Tank { screen_position: location, ..tank },
        None => tank,
    }
}

/// Returns what a tick makes of the tank of the last tick, the tank that was
/// entered since, if any, and the place where the frame shows the tank, if it
/// shows one: the tank from now on, and the dashes to draw. A frame that shows
/// no tank gets no dashes.
pub fn next_frame(
    current: Tank,
    entered: Option<Tank>,
    found: Option<Coordinate<u32>>,
    dimensions: Size<u32>,
) -> (step: (Tank, Option<Vec<(Coordinate<i32>, Coordinate<i32>)>>))
    ensures
        step.0 == frame_tank(current, entered, found),
        found.is_none() ==> step.1.is_none(),
        found.is_some() ==> step.1.is_some() && step.1.unwrap()@ == dotted_path(
            |t: int| step.0.curve_point(t, dimensions),
            dimensions,
            DOT_LENGTH as int,
        ),
{
    let mut tank = match entered {
        Some(new_tank) => new_tank,
        None => current,
    };
    match found {
        None => (tank, None),
        Some(location) => {
            tank.screen_position = location;
            let segments = tank_curve_segments(&tank, dimensions);
            (tank, Some(segments))
        },
    }
}

} // verus!
