//! One line of a track file: a header, or a sample of a star at one age.

use vstd::prelude::*;
use crate::error::ParsecAccessError;
use crate::number::{fixed_value, parse_fixed};
use crate::text::{fields, split_fields, views, chars_of};

verus! {

/// Whether a character is alphabetic, as Unicode's Alphabetic property says.
pub uninterp spec fn alphabetic(c: char) -> bool;

/// Relies on `char::is_alphabetic`: whether `c` has Unicode's Alphabetic
/// property, a fact of the character alone.
#[verifier::external_body]
fn is_alphabetic(c: char) -> (r: bool)
    ensures
        r == alphabetic(c),
{
    c.is_alphabetic()
}

/// A header line holds a letter other than the exponent marks `e` and `E`.
pub open spec fn is_header_line(s: Seq<char>) -> bool {
    exists|i: int| 0 <= i < s.len() && alphabetic(#[trigger] s[i]) && s[i] != 'e' && s[i] != 'E'
}

/// Whether `line` is a header rather than data.
pub fn is_header(line: &str) -> (r: bool)
    ensures
        r == is_header_line(line@),
{
    let chars = chars_of(line);
    let mut i: usize = 0;
    while i < chars.len()
        invariant
            i <= chars@.len(),
            chars@ == line@,
            forall|k: int|
                0 <= k < i ==> !(alphabetic(#[trigger] chars@[k]) && chars@[k] != 'e' && chars@[k]
                    != 'E'),
        decreases chars@.len() - i,
    {
        let c = chars[i];
        if is_alphabetic(c) && c != 'e' && c != 'E' {
            return true;
        }
        i = i + 1;
    }
    false
}

/// One sample of a track: a star of one composition and initial mass at one
/// age. Mass is in millionths of a solar mass, age in millionths of a year;
/// luminosity (in solar luminosities), effective temperature (in kelvin) and
/// radius (in centimetres) are base-10 logarithms, in millionths of a dex.
#[derive(Debug, Clone, Copy, PartialEq, Eq, Structural)]
pub struct ParsecLine {
    pub mass: i64,
    pub age: i64,
    pub log_luminosity: i64,
    pub log_temperature: i64,
    pub log_radius: i64,
}

/// Column of the current mass.
pub const MASS_INDEX: usize = 1;
/// Column of the age.
pub const AGE_INDEX: usize = 2;
/// Column of the logarithm of the luminosity.
pub const LOG_L_INDEX: usize = 3;
/// Column of the logarithm of the effective temperature.
pub const LOG_TE_INDEX: usize = 4;
/// Column of the logarithm of the radius.
pub const LOG_R_INDEX: usize = 5;
/// The last column that is read.
pub const LARGEST_REQUIRED_INDEX: usize = 5;

/// The sample that the fields `f` of a data line give, where all five
/// columns are present and each is a number.
pub open spec fn sample_of_fields(f: Seq<Seq<char>>) -> Option<ParsecLine> {
    if f.len() > LARGEST_REQUIRED_INDEX && fixed_value(f[MASS_INDEX as int]) is Some
        && fixed_value(f[AGE_INDEX as int]) is Some && fixed_value(f[LOG_L_INDEX as int]) is Some
        && fixed_value(f[LOG_TE_INDEX as int]) is Some && fixed_value(
        f[LOG_R_INDEX as int],
    ) is Some {
        Some(
            ParsecLine {
                mass: fixed_value(f[MASS_INDEX as int])->Some_0 as i64,
                age: fixed_value(f[AGE_INDEX as int])->Some_0 as i64,
                log_luminosity: fixed_value(f[LOG_L_INDEX as int])->Some_0 as i64,
                log_temperature: fixed_value(f[LOG_TE_INDEX as int])->Some_0 as i64,
                log_radius: fixed_value(f[LOG_R_INDEX as int])->Some_0 as i64,
            },
        )
    } else {
        None
    }
}

/// The sample that a data line gives, if any.
pub open spec fn sample_of(s: Seq<char>) -> Option<ParsecLine> {
    sample_of_fields(fields(s))
}

/// What a line that gives no sample reports: the first missing column, or
/// else the first column that is no number.
pub open spec fn read_error_message(s: Seq<char>) -> Seq<char> {
    let n = fields(s).len();
    if n <= MASS_INDEX {
        "mass"@
    } else if n <= AGE_INDEX {
        "age"@
    } else if n <= LOG_L_INDEX {
        "log_l"@
    } else if n <= LOG_TE_INDEX {
        "log_te"@
    } else if n <= LOG_R_INDEX {
        "log_r"@
    } else if fixed_value(fields(s)[MASS_INDEX as int]) is None {
        "mass"@
    } else if fixed_value(fields(s)[AGE_INDEX as int]) is None {
        "age"@
    } else if fixed_value(fields(s)[LOG_L_INDEX as int]) is None {
        "log_l"@
    } else if fixed_value(fields(s)[LOG_TE_INDEX as int]) is None {
        "log_te"@
    } else {
        "log_r"@
    }
}

fn missing(name: &str) -> (r: ParsecAccessError)
    ensures
        r matches ParsecAccessError::DataNotAvailable(m) && m@ == name@,
{
    ParsecAccessError::DataNotAvailable(name.to_string())
}

impl ParsecLine {
    /// Reads the sample on a data line.
    pub fn read(line: &str) -> (r: Result<ParsecLine, ParsecAccessError>)
        ensures
            r matches Ok(p) ==> sample_of(line@) == Some(p),
            r is Err <==> sample_of(line@) is None,
            r matches Err(e) ==> e matches ParsecAccessError::DataNotAvailable(m) && m@
                == read_error_message(line@),
    {
        let entries = split_fields(line);
        let ghost f = fields(line@);
        assert(views(entries@).len() == entries@.len());
        if entries.len() <= MASS_INDEX {
            return Err(missing("mass"));
        }
        if entries.len() <= AGE_INDEX {
            return Err(missing("age"));
        }
        if entries.len() <= LOG_L_INDEX {
            return Err(missing("log_l"));
        }
        if entries.len() <= LOG_TE_INDEX {
            return Err(missing("log_te"));
        }
        if entries.len() <= LOG_R_INDEX {
            return Err(missing("log_r"));
        }
        assert(f[MASS_INDEX as int] == entries@[MASS_INDEX as int]@);
        assert(f[AGE_INDEX as int] == entries@[AGE_INDEX as int]@);
        assert(f[LOG_L_INDEX as int] == entries@[LOG_L_INDEX as int]@);
        assert(f[LOG_TE_INDEX as int] == entries@[LOG_TE_INDEX as int]@);
        assert(f[LOG_R_INDEX as int] == entries@[LOG_R_INDEX as int]@);
        let mass = match parse_fixed(&entries[MASS_INDEX]) {
            Some(v) => v,
            None => return Err(missing("mass")),
        };
        let age = match parse_fixed(&entries[AGE_INDEX]) {
            Some(v) => v,
            None => return Err(missing("age")),
        };
        let log_l = match parse_fixed(&entries[LOG_L_INDEX]) {
            Some(v) => v,
            None => return Err(missing("log_l")),
        };
        let log_te = match parse_fixed(&entries[LOG_TE_INDEX]) {
            Some(v) => v,
            None => return Err(missing("log_te")),
        };
        let log_r = match parse_fixed(&entries[LOG_R_INDEX]) {
            Some(v) => v,
            None => return Err(missing("log_r")),
        };
        Ok(
            ParsecLine {
                mass,
                age,
                log_luminosity: log_l,
                log_temperature: log_te,
                log_radius: log_r,
            },
        )
    }
}

} // verus!
