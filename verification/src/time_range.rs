//! Times, steps and durations as they are written in requests.
use crate::names::{chars_of, same_text};
use crate::number::{all_digits, is_all_digits, parse_i64, parsed_i64};
use vstd::prelude::*;
use vstd::string::StrSliceExecFns;

verus! {

broadcast use vstd::string::group_string_axioms;

/// A result with its message as characters.
pub open spec fn outcome(result: Result<i64, &'static str>) -> Result<i64, Seq<char>> {
    match result {
        Ok(value) => Ok(value),
        Err(message) => Err(message@),
    }
}

/// The milliseconds of a unit: a second, a minute or an hour.
pub open spec fn unit_millis(unit: char) -> Option<i64> {
    if unit == 's' {
        Some(1_000)
    } else if unit == 'm' {
        Some(60_000)
    } else if unit == 'h' {
        Some(3_600_000)
    } else {
        None
    }
}

/// The milliseconds of a positive number with a unit behind it.
pub open spec fn unit_duration(text: Seq<char>) -> Result<i64, Seq<char>> {
    if text.len() == 0 || unit_millis(text.last()) is None {
        Err("invalid duration"@)
    } else {
        match parsed_i64(text.drop_last()) {
            None => Err("invalid duration"@),
            Some(number) => {
                let millis = number * unit_millis(text.last())->0;
                if number <= 0 {
                    Err("duration must be greater than zero"@)
                } else if millis > i64::MAX {
                    Err("duration is out of range"@)
                } else {
                    Ok(millis as i64)
                }
            },
        }
    }
}

/// The time that a text stands for: `now`, a duration before now, or
/// milliseconds since the epoch.
pub open spec fn time_at(text: Seq<char>, now: i64) -> Result<i64, Seq<char>> {
    if text == "now"@ {
        Ok(now)
    } else if text.len() > 0 && text[0] == '-' {
        match unit_duration(text.skip(1)) {
            Ok(offset) => if now - offset < i64::MIN {
                Err("relative time is out of range"@)
            } else {
                Ok((now - offset) as i64)
            },
            Err(message) => Err(message),
        }
    } else {
        match parsed_i64(text) {
            Some(value) => Ok(value),
            None => Err("invalid time"@),
        }
    }
}

/// The step that a text stands for: a number of milliseconds, or a number with
/// a unit.
pub open spec fn step_of(text: Seq<char>) -> Result<i64, Seq<char>> {
    let step = if all_digits(text) {
        parsed_i64(text)
    } else {
        match unit_duration(text) {
            Ok(step) => Some(step),
            Err(_) => None,
        }
    };
    match step {
        None => Err("invalid step"@),
        Some(step) => if step > 0 {
            Ok(step)
        } else {
            Err("step must be greater than zero"@)
        },
    }
}

/// Reads a time.
pub fn parse_time(value: &str, now: i64) -> (result: Result<i64, &'static str>)
    ensures
        outcome(result) == time_at(value@, now),
{
    if same_text(value, "now") {
        return Ok(now);
    }
    let chars = chars_of(value);
    if chars.len() > 0 && chars[0] == '-' {
        let relative = value.substring_char(1, chars.len());
        assert(relative@ =~= value@.skip(1));
        match parse_unit_duration(relative) {
            Ok(offset) => match now.checked_sub(offset) {
                Some(time) => Ok(time),
                None => Err("relative time is out of range"),
            },
            Err(message) => Err(message),
        }
    } else {
        match parse_i64(value) {
            Some(time) => Ok(time),
            None => Err("invalid time"),
        }
    }
}

/// Reads a step.
pub fn parse_step(value: &str) -> (result: Result<i64, &'static str>)
    ensures
        outcome(result) == step_of(value@),
{
    let step: i64 = if is_all_digits(value) {
        match parse_i64(value) {
            Some(step) => step,
            None => return Err("invalid step"),
        }
    } else {
        match parse_unit_duration(value) {
            Ok(step) => step,
            Err(_) => return Err("invalid step"),
        }
    };
    if step > 0 {
        Ok(step)
    } else {
        Err("step must be greater than zero")
    }
}

/// Reads a positive number with a unit behind it.
pub fn parse_unit_duration(value: &str) -> (result: Result<i64, &'static str>)
    ensures
        outcome(result) == unit_duration(value@),
{
    let chars = chars_of(value);
    let len: usize = chars.len();
    if len == 0 {
        return Err("invalid duration");
    }
    let multiplier: i64 = match chars[len - 1] {
        's' => 1_000,
        'm' => 60_000,
        'h' => 3_600_000,
        _ => return Err("invalid duration"),
    };
    let number_text = value.substring_char(0, len - 1);
    assert(number_text@ =~= value@.drop_last());
    let number: i64 = match parse_i64(number_text) {
        Some(number) => number,
        None => return Err("invalid duration"),
    };
    if number <= 0 {
        return Err("duration must be greater than zero");
    }
    match number.checked_mul(multiplier) {
        Some(millis) => Ok(millis),
        None => {
            assert(number * multiplier >= 0) by (nonlinear_arith)
                requires
                    number > 0,
                    multiplier > 0,
            ;
            Err("duration is out of range")
        },
    }
}

/// A duration is positive.
pub proof fn durations_are_positive(text: Seq<char>)
    ensures
        unit_duration(text) matches Ok(millis) ==> millis > 0,
{
    if unit_duration(text) is Ok {
        let number = parsed_i64(text.drop_last())->0;
        let unit = unit_millis(text.last())->0;
        assert(number * unit > 0) by (nonlinear_arith)
            requires
                number > 0,
                unit > 0,
        ;
    }
}

/// A step is positive.
pub proof fn steps_are_positive(text: Seq<char>)
    ensures
        step_of(text) matches Ok(step) ==> step > 0,
{
}

/// A relative time lies before now.
pub proof fn relative_times_are_past(text: Seq<char>, now: i64)
    requires
        text.len() > 0,
        text[0] == '-',
    ensures
        time_at(text, now) matches Ok(time) ==> time < now,
{
    reveal_strlit("now");
    durations_are_positive(text.skip(1));
}

} // verus!
