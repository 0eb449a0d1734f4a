//! Names and rules for snapshots of the store's files. A snapshot is a copy
//! of the store's directory in a folder named by the local date and time,
//! down to the second, inside a sibling directory of backups.
//!
//! Copying is the caller's part. What is decided here is what the folders
//! are called and which results of making one count as success.

use crate::error::StoreError;
use vstd::prelude::*;
use vstd::string::StringExecFns;

verus! {

/// The layout of a snapshot's time stamp, in the notation of the `time`
/// crate.
pub const STAMP_LAYOUT: &'static str = "[year]-[month]-[day]_T[hour]H-[minute]M-[second]S";

/// A local date and time of day, down to the second.
#[derive(Debug, Clone, Copy, PartialEq, Eq, Structural)]
pub struct Stamp {
    pub year: i32,
    pub month: u8,
    pub day: u8,
    pub hour: u8,
    pub minute: u8,
    pub second: u8,
}

/// How an attempt to make a directory ended.
#[derive(Debug, Clone, Copy, PartialEq, Eq, Structural)]
pub enum DirectoryAttempt {
    /// It was made.
    Created,
    /// It was there before.
    AlreadyThere,
    /// The file system refused for any other reason.
    Failed,
}

/// Whether a year of the Gregorian calendar is a leap year.
pub open spec fn is_leap_year(year: int) -> bool {
    year % 4 == 0 && (year % 100 != 0 || year % 400 == 0)
}

/// The number of days of a month, counted from 1.
pub open spec fn days_in_month(year: int, month: int) -> int {
    if month == 2 {
        if is_leap_year(year) {
            29
        } else {
            28
        }
    } else if month == 4 || month == 6 || month == 9 || month == 11 {
        30
    } else {
        31
    }
}

/// Whether a stamp names a day of the calendar, in the years the `time`
/// crate covers, and a time of that day.
pub open spec fn is_calendar_time(stamp: Stamp) -> bool {
    &&& -9999 <= stamp.year <= 9999
    &&& 1 <= stamp.month <= 12
    &&& 1 <= stamp.day <= days_in_month(stamp.year as int, stamp.month as int)
    &&& stamp.hour <= 23
    &&& stamp.minute <= 59
    &&& stamp.second <= 59
}

/// The last `width` decimal digits of `value`, with leading zeros.
pub open spec fn decimal(value: int, width: nat) -> Seq<char>
    decreases width,
{
    if width == 0 {
        Seq::empty()
    } else {
        decimal(value / 10, (width - 1) as nat).push("0123456789"@[value % 10])
    }
}

/// A stamp as text: the year in four digits, behind a minus sign where it is
/// negative, then month, day, hour, minute and second in two digits each, as
/// in `2024-03-09_T07H-05M-01S`.
pub open spec fn stamp_text(stamp: Stamp) -> Seq<char> {
    let sign = if stamp.year < 0 {
        seq!['-']
    } else {
        Seq::empty()
    };
    let year = if stamp.year < 0 {
        -stamp.year
    } else {
        stamp.year as int
    };
    sign + decimal(year, 4) + "-"@ + decimal(stamp.month as int, 2) + "-"@ + decimal(
        stamp.day as int,
        2,
    ) + "_T"@ + decimal(stamp.hour as int, 2) + "H-"@ + decimal(stamp.minute as int, 2) + "M-"@
        + decimal(stamp.second as int, 2) + "S"@
}

/// Formats a stamp with `time::PrimitiveDateTime::format`, in the layout
/// [`STAMP_LAYOUT`] as `time::format_description::parse_borrowed` reads it. The date
/// and the time of day are built with `time::Date::from_calendar_date` and
/// `time::Time::from_hms`, which refuse what is no day of the calendar or no
/// time of day.
///
/// Not proved: that the text is `stamp_text` of the stamp where the stamp is a
/// calendar time, and that there is no text where it is not.
#[verifier::external_body]
fn format_stamp(stamp: &Stamp) -> (text: Option<String>)
    ensures
        is_calendar_time(*stamp) ==> text is Some && text->0@ == stamp_text(*stamp),
        !is_calendar_time(*stamp) ==> text is None,
{
    let month = time::Month::try_from(stamp.month).ok()?;
    let date = time::Date::from_calendar_date(stamp.year, month, stamp.day).ok()?;
    let clock = time::Time::from_hms(stamp.hour, stamp.minute, stamp.second).ok()?;
    let layout = time::format_description::parse_borrowed::<1>(STAMP_LAYOUT).ok()?;
    time::PrimitiveDateTime::new(date, clock).format(&layout).ok()
}

/// The name of the folder that holds the snapshot taken at `stamp`, or `None`
/// where `stamp` is no calendar time.
pub fn snapshot_name(stamp: &Stamp) -> (name: Option<String>)
    ensures
        is_calendar_time(*stamp) ==> name is Some && name->0@ == "database-backup_"@ + stamp_text(
            *stamp,
        ),
        !is_calendar_time(*stamp) ==> name is None,
{
    match format_stamp(stamp) {
        Some(text) => Some(String::from_str("database-backup_").concat(text.as_str())),
        None => None,
    }
}

/// The name of the directory of backups that goes with a store's directory:
/// its sibling with `_backups` behind the name.
pub fn backups_directory(store_directory: &str) -> (name: String)
    ensures
        name@ == store_directory@ + "_backups"@,
{
    String::from_str(store_directory).concat("_backups")
}

/// Whether a directory is there after an attempt to make it: it is where it
/// was made and where it was there before. Any other refusal of the file
/// system is an `IoFailure`.
pub fn ensure_directory(attempt: DirectoryAttempt) -> (ensured: Result<(), StoreError>)
    ensures
        attempt != DirectoryAttempt::Failed ==> ensured == Ok::<(), StoreError>(()),
        attempt == DirectoryAttempt::Failed ==> ensured == Err::<(), StoreError>(
            StoreError::IoFailure,
        ),
{
    match attempt {
        DirectoryAttempt::Created => Ok(()),
        DirectoryAttempt::AlreadyThere => Ok(()),
        DirectoryAttempt::Failed => Err(StoreError::IoFailure),
    }
}

} // verus!
