//! Command-line configuration of a crossing-angle computation: the structure
//! file's name and the four residue numbers delimiting the two helices.

use crate::numtext::spec_parse_i32;
use vstd::prelude::*;

verus! {

/// The validated inputs: a file name and four residue numbers, kept as text.
#[derive(Debug)]
pub struct Config {
    pub filename: String,
    pub res1: String,
    pub res2: String,
    pub res3: String,
    pub res4: String,
}

/// Why a set of arguments was rejected.
#[derive(Clone, Copy, PartialEq, Eq, Structural, Debug)]
pub enum ConfigError {
    /// Fewer than six arguments were supplied.
    NotEnoughArguments,
    /// A residue argument is not a decimal integer that fits in 32 bits.
    BadResidueNumber,
    /// A helix spans fewer than six residues, too short for a direction.
    HelixTooShort,
}

/// Magnitude of an integer.
pub open spec fn abs_val(v: int) -> int {
    if v < 0 {
        -v
    } else {
        v
    }
}

/// The outcome of validating an argument list, `None` when it is accepted.
/// Residue numbers are read in the order the length checks need them:
/// each helix's end before its start, second helix only when the first
/// is long enough.
pub open spec fn spec_config_error(args: Seq<Seq<char>>) -> Option<ConfigError> {
    if args.len() < 6 {
        Some(ConfigError::NotEnoughArguments)
    } else if spec_parse_i32(args[3]) is None || spec_parse_i32(args[2]) is None {
        Some(ConfigError::BadResidueNumber)
    } else if abs_val(spec_parse_i32(args[3])->Some_0 - spec_parse_i32(args[2])->Some_0) < 6 {
        Some(ConfigError::HelixTooShort)
    } else if spec_parse_i32(args[5]) is None || spec_parse_i32(args[4]) is None {
        Some(ConfigError::BadResidueNumber)
    } else if abs_val(spec_parse_i32(args[5])->Some_0 - spec_parse_i32(args[4])->Some_0) < 6 {
        Some(ConfigError::HelixTooShort)
    } else {
        None
    }
}

impl Config {
    /// Validates the argument list (program name first) and keeps the file
    /// name and the four residue numbers. Both helices must span at least
    /// six residues, measured as the difference of each pair of residue
    /// numbers.
    pub fn new(args: &[String]) -> (r: Result<Config, ConfigError>)
        ensures
            r matches Err(e) ==> spec_config_error(args.deep_view()) == Some(e),
            r matches Ok(c) ==> spec_config_error(args.deep_view()) is None && c.filename@
                == args[1]@ && c.res1@ == args[2]@ && c.res2@ == args[3]@ && c.res3@ == args[4]@
                && c.res4@ == args[5]@,
    {
        proof {
            assert(args.deep_view().len() == args@.len());
        }
        if args.len() < 6 {
            return Err(ConfigError::NotEnoughArguments);
        }
        proof {
            assert(forall|i: int|
                0 <= i < args@.len() ==> args.deep_view()[i] == #[trigger] args@[i]@);
        }
        let v2 = match crate::numtext::parse_i32(slice_index(args, 3).as_str()) {
            Some(v) => v,
            None => {
                return Err(ConfigError::BadResidueNumber);
            },
        };
        let v1 = match crate::numtext::parse_i32(slice_index(args, 2).as_str()) {
            Some(v) => v,
            None => {
                return Err(ConfigError::BadResidueNumber);
            },
        };
        let d1 = v2 as i64 - v1 as i64;
        let d1 = if d1 < 0 {
            -d1
        } else {
            d1
        };
        if d1 < 6 {
            return Err(ConfigError::HelixTooShort);
        }
        let v4 = match crate::numtext::parse_i32(slice_index(args, 5).as_str()) {
            Some(v) => v,
            None => {
                return Err(ConfigError::BadResidueNumber);
            },
        };
        let v3 = match crate::numtext::parse_i32(slice_index(args, 4).as_str()) {
            Some(v) => v,
            None => {
                return Err(ConfigError::BadResidueNumber);
            },
        };
        let d2 = v4 as i64 - v3 as i64;
        let d2 = if d2 < 0 {
            -d2
        } else {
            d2
        };
        if d2 < 6 {
            return Err(ConfigError::HelixTooShort);
        }
        Ok(
            Config {
                filename: slice_index(args, 1).clone(),
                res1: slice_index(args, 2).clone(),
                res2: slice_index(args, 3).clone(),
                res3: slice_index(args, 4).clone(),
                res4: slice_index(args, 5).clone(),
            },
        )
    }
}

impl ConfigError {
    /// A short diagnostic line for the rejected arguments.
    pub fn message(&self) -> (m: &'static str)
        ensures
            *self == ConfigError::NotEnoughArguments ==> m@ == "not enough arguments"@,
            *self == ConfigError::BadResidueNumber ==> m@ == "invalid digit found in string"@,
            *self == ConfigError::HelixTooShort ==> m@ == "Helix not long enough"@,
    {
        match self {
            ConfigError::NotEnoughArguments => "not enough arguments",
            ConfigError::BadResidueNumber => "invalid digit found in string",
            ConfigError::HelixTooShort => "Helix not long enough",
        }
    }
}

/// One element of a slice.
fn slice_index<'a>(s: &'a [String], i: usize) -> (r: &'a String)
    requires
        i < s@.len(),
    ensures
        *r == s@[i as int],
{
    &s[i]
}

} // verus!
