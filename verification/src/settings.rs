//! Settings as they are written in the environment.
use crate::number::{parse_u64, parsed_u64};
use vstd::prelude::*;

verus! {

/// Why a setting is refused.
#[derive(Clone, Copy, Debug, Eq, PartialEq, Structural)]
pub enum SettingError {
    /// It is not an unsigned integer.
    NotUnsigned,
    /// It is zero.
    Zero,
}

/// The seconds that a setting asks for, or the default if it is not set.
pub open spec fn seconds_of(value: Option<Seq<char>>, default: u64) -> Result<u64, SettingError> {
    let seconds = match value {
        Some(text) => parsed_u64(text),
        None => Some(default),
    };
    match seconds {
        None => Err(SettingError::NotUnsigned),
        Some(seconds) => if seconds > 0 {
            Ok(seconds)
        } else {
            Err(SettingError::Zero)
        },
    }
}

/// Reads a number of seconds, which has to be positive.
pub fn env_secs(value: Option<&str>, default: u64) -> (result: Result<u64, SettingError>)
    ensures
        result == seconds_of(
            match value {
                Some(text) => Some(text@),
                None => None,
            },
            default,
        ),
{
    let seconds: u64 = match value {
        Some(text) => match parse_u64(text) {
            Some(seconds) => seconds,
            None => return Err(SettingError::NotUnsigned),
        },
        None => default,
    };
    if seconds > 0 {
        Ok(seconds)
    } else {
        Err(SettingError::Zero)
    }
}

} // verus!
