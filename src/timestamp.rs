use vstd::prelude::*;

use crate::model::AppError;

verus! {

/// How timestamps are written in storage.
pub const TIME_FORMAT: &'static str = "%Y-%m-%d %H:%M:%S";

/// The seconds since the epoch that a stored timestamp text names, read as
/// UTC; `None` when the text is not a timestamp in the stored format.
pub uninterp spec fn naive_seconds(text: Seq<char>) -> Option<i64>;

/// The stored-format text of a count of seconds since the epoch, read as
/// UTC; `None` when it lies outside the representable dates.
pub uninterp spec fn naive_text(secs: i64) -> Option<Seq<char>>;

/// Relies on chrono's `NaiveDateTime::parse_from_str` with `TIME_FORMAT`,
/// converted to seconds by `and_utc().timestamp()`.
#[verifier::external_body]
fn parse_naive(text: &str) -> (r: Option<i64>)
    ensures
        r == naive_seconds(text@),
{
    match chrono::NaiveDateTime::parse_from_str(text, TIME_FORMAT) {
        Ok(t) => Some(t.and_utc().timestamp()),
        Err(_) => None,
    }
}

/// Relies on chrono's `DateTime::from_timestamp` (UTC), written out by
/// `format(TIME_FORMAT)`.
#[verifier::external_body]
fn format_naive(secs: i64) -> (r: Option<String>)
    ensures
        r matches Some(s) ==> naive_text(secs) == Some(s@),
        r is None ==> naive_text(secs) is None,
{
    match chrono::DateTime::from_timestamp(secs, 0) {
        Some(t) => Some(t.naive_utc().format(TIME_FORMAT).to_string()),
        None => None,
    }
}

/// Reads a stored timestamp; a malformed one is corrupt data.
pub fn parse_timestamp(text: &str) -> (r: Result<i64, AppError>)
    ensures
        naive_seconds(text@) matches Some(t) ==> r == Ok::<i64, AppError>(t),
        naive_seconds(text@) is None ==> r == Err::<i64, AppError>(AppError::DataCorruption),
{
    match parse_naive(text) {
        Some(t) => Ok(t),
        None => Err(AppError::DataCorruption),
    }
}

/// Writes a timestamp for storage; one outside the representable dates is
/// refused.
pub fn format_timestamp(secs: i64) -> (r: Result<String, AppError>)
    ensures
        naive_text(secs) matches Some(s) ==> r matches Ok(t) && t@ == s,
        naive_text(secs) is None ==> r == Err::<String, AppError>(AppError::InvalidInput),
{
    match format_naive(secs) {
        Some(s) => Ok(s),
        None => Err(AppError::InvalidInput),
    }
}

} // verus!
