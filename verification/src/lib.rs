//! Parser, renderer, validator and exporter for the `logbook` decision-log
//! format: one Markdown file of dated decision entries.
use vstd::prelude::*;

pub mod append;
pub mod color;
pub mod commands;
pub mod editor;
pub mod error;
pub mod export;
pub mod json_laws;
pub mod location;
pub mod parse;
pub mod query;
pub mod roundtrip;
pub mod store;
pub mod summary;
pub mod validate;
pub mod text;

pub use crate::color::{colorize_block, should_colorize, ColorChoice};
pub use crate::error::{Error, Result};
pub use crate::export::{check_report_to_json, entries_to_json, entries_to_json_lines};
pub use crate::parse::{parse_entries, Entry};
pub use crate::store::{render_entry_block, RenderInput};
pub use crate::validate::{validate_entries, ValidationIssue};
use crate::text::chars_of;

verus! {

/// Default decision-log filename.
pub const DEFAULT_LOGBOOK_FILE: &'static str = "logbook.md";

/// Environment variable that overrides [`DEFAULT_LOGBOOK_FILE`].
pub const ENV_VAR: &'static str = "LOGBOOK_FILE";

/// Header written to a new logbook.
pub const HEADER: &'static str = "# logbook\n\nAppend-only record of decisions for this project.\nNewest entries are at the bottom.\n\n";

/// Whether `c` is an ASCII decimal digit.
pub open spec fn is_digit(c: char) -> bool {
    '0' <= c && c <= '9'
}

/// The byte shape `YYYY-MM-DD`: ten characters, dashes at 4 and 7, digits elsewhere.
pub open spec fn date_shaped(s: Seq<char>) -> bool {
    &&& s.len() == 10
    &&& s[4] == '-'
    &&& s[7] == '-'
    &&& forall|i: int| 0 <= i < 10 && i != 4 && i != 7 ==> is_digit(#[trigger] s[i])
}

/// The value of the decimal digit `c`.
pub open spec fn digit_value(c: char) -> int {
    c as int - '0' as int
}

/// The year of a date-shaped `s`.
pub open spec fn year_of(s: Seq<char>) -> int {
    1000 * digit_value(s[0]) + 100 * digit_value(s[1]) + 10 * digit_value(s[2]) + digit_value(s[3])
}

/// The month of a date-shaped `s`.
pub open spec fn month_of(s: Seq<char>) -> int {
    10 * digit_value(s[5]) + digit_value(s[6])
}

/// The day of a date-shaped `s`.
pub open spec fn day_of(s: Seq<char>) -> int {
    10 * digit_value(s[8]) + digit_value(s[9])
}

/// Gregorian leap years.
pub open spec fn is_leap_year(y: int) -> bool {
    (y % 4 == 0 && y % 100 != 0) || y % 400 == 0
}

/// Number of days in month `m` (1..=12) of year `y`.
pub open spec fn days_in_month(y: int, m: int) -> int {
    if m == 2 {
        if is_leap_year(y) {
            29
        } else {
            28
        }
    } else if m == 4 || m == 6 || m == 9 || m == 11 {
        30
    } else {
        31
    }
}

/// A real (proleptic Gregorian) calendar date written `YYYY-MM-DD`.
pub open spec fn calendar_date(s: Seq<char>) -> bool {
    &&& date_shaped(s)
    &&& 1 <= month_of(s) <= 12
    &&& 1 <= day_of(s) <= days_in_month(year_of(s), month_of(s))
}

/// Whether the characters `s` have the shape `YYYY-MM-DD`.
pub fn date_shaped_chars(s: &[char]) -> (r: bool)
    ensures
        r == date_shaped(s@),
{
    if s.len() != 10 || s[4] != '-' || s[7] != '-' {
        return false;
    }
    let mut i: usize = 0;
    while i < 10
        invariant
            s@.len() == 10,
            i <= 10,
            forall|j: int| 0 <= j < i && j != 4 && j != 7 ==> is_digit(#[trigger] s@[j]),
        decreases 10 - i,
    {
        if i != 4 && i != 7 && !('0' <= s[i] && s[i] <= '9') {
            assert(!is_digit(s@[i as int]));
            return false;
        }
        i = i + 1;
    }
    true
}

/// Check the byte shape `YYYY-MM-DD` without calendar validation.
pub fn is_date_shaped(s: &str) -> (r: bool)
    ensures
        r == date_shaped(s@),
{
    let chars = chars_of(s);
    date_shaped_chars(chars.as_slice())
}

/// `chrono::NaiveDate`, the value a successful date parse holds; nothing is
/// read from it.
#[verifier::external_type_specification]
#[verifier::external_body]
pub struct ExNaiveDate(chrono::NaiveDate);

/// `chrono::ParseError`, the value a failed date parse holds; nothing is read
/// from it.
#[verifier::external_type_specification]
#[verifier::external_body]
pub struct ExChronoParseError(chrono::ParseError);

/// `chrono::NaiveDate::parse_from_str(value, "%Y-%m-%d")`. On a `YYYY-MM-DD`
/// shaped input, chrono reads four year digits, a month it requires to be in
/// 1..=12, a day in 1..=31, and then accepts the date exactly when the day
/// exists in that month of that proleptic Gregorian year; that is the claim.
#[verifier::external_body]
fn parse_ymd(value: &str) -> (r: std::result::Result<chrono::NaiveDate, chrono::ParseError>)
    requires
        date_shaped(value@),
    ensures
        r is Ok <==> calendar_date(value@),
{
    chrono::NaiveDate::parse_from_str(value, "%Y-%m-%d")
}

/// Check that a value is a real calendar date in `YYYY-MM-DD` form.
pub fn is_valid_date(value: &str) -> (r: bool)
    ensures
        r == calendar_date(value@),
{
    if !is_date_shaped(value) {
        return false;
    }
    parse_ymd(value).is_ok()
}

} // verus!
