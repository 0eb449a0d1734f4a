use focusboard::backup::{
    backups_directory, ensure_directory, snapshot_name, DirectoryAttempt, Stamp, STAMP_LAYOUT,
};
use focusboard::error::StoreError;

fn stamp(year: i32, month: u8, day: u8, hour: u8, minute: u8, second: u8) -> Stamp {
    Stamp { year, month, day, hour, minute, second }
}

#[test]
fn snapshot_is_named_by_date_and_time() {
    assert_eq!(
        snapshot_name(&stamp(2024, 3, 9, 7, 5, 1)),
        Some("database-backup_2024-03-09_T07H-05M-01S".to_string())
    );
    assert_eq!(
        snapshot_name(&stamp(1999, 12, 31, 23, 59, 59)),
        Some("database-backup_1999-12-31_T23H-59M-59S".to_string())
    );
}

#[test]
fn snapshot_name_pads_small_years_and_signs_negative_ones() {
    assert_eq!(
        snapshot_name(&stamp(7, 1, 1, 0, 0, 0)),
        Some("database-backup_0007-01-01_T00H-00M-00S".to_string())
    );
    assert_eq!(
        snapshot_name(&stamp(-44, 3, 15, 12, 0, 0)),
        Some("database-backup_-0044-03-15_T12H-00M-00S".to_string())
    );
    assert_eq!(
        snapshot_name(&stamp(9999, 12, 31, 0, 0, 0)),
        Some("database-backup_9999-12-31_T00H-00M-00S".to_string())
    );
}

#[test]
fn snapshot_name_knows_leap_years() {
    assert!(snapshot_name(&stamp(2024, 2, 29, 0, 0, 0)).is_some());
    assert!(snapshot_name(&stamp(2000, 2, 29, 0, 0, 0)).is_some());
    assert_eq!(snapshot_name(&stamp(2023, 2, 29, 0, 0, 0)), None);
    assert_eq!(snapshot_name(&stamp(1900, 2, 29, 0, 0, 0)), None);
}

#[test]
fn leap_day_follows_the_gregorian_rule_in_every_year() {
    for year in -9999..=9999 {
        let leap = year % 4 == 0 && (year % 100 != 0 || year % 400 == 0);
        assert_eq!(snapshot_name(&stamp(year, 2, 29, 0, 0, 0)).is_some(), leap, "year {}", year);
        assert!(snapshot_name(&stamp(year, 2, 28, 0, 0, 0)).is_some());
        assert!(snapshot_name(&stamp(year, 2, 30, 0, 0, 0)).is_none());
    }
}

#[test]
fn every_year_is_written_in_four_digits() {
    for year in -9999..=9999 {
        let sign = if year < 0 { "-" } else { "" };
        let digits: i32 = if year < 0 { -year } else { year };
        assert_eq!(
            snapshot_name(&stamp(year, 6, 15, 8, 9, 10)).unwrap(),
            format!("database-backup_{}{:04}-06-15_T08H-09M-10S", sign, digits)
        );
    }
}

#[test]
fn every_time_of_day_is_written_in_two_digits() {
    for hour in 0..24 {
        for minute in 0..60 {
            let second = (hour + minute) % 60;
            assert_eq!(
                snapshot_name(&stamp(2024, 1, 1, hour, minute, second)).unwrap(),
                format!("database-backup_2024-01-01_T{:02}H-{:02}M-{:02}S", hour, minute, second)
            );
        }
    }
}

#[test]
fn stamp_that_is_no_calendar_time_has_no_name() {
    assert_eq!(snapshot_name(&stamp(2024, 0, 1, 0, 0, 0)), None);
    assert_eq!(snapshot_name(&stamp(2024, 13, 1, 0, 0, 0)), None);
    assert_eq!(snapshot_name(&stamp(2024, 4, 31, 0, 0, 0)), None);
    assert_eq!(snapshot_name(&stamp(2024, 4, 0, 0, 0, 0)), None);
    assert_eq!(snapshot_name(&stamp(2024, 1, 1, 24, 0, 0)), None);
    assert_eq!(snapshot_name(&stamp(2024, 1, 1, 0, 60, 0)), None);
    assert_eq!(snapshot_name(&stamp(2024, 1, 1, 0, 0, 60)), None);
    assert_eq!(snapshot_name(&stamp(10000, 1, 1, 0, 0, 0)), None);
    assert_eq!(snapshot_name(&stamp(-10000, 1, 1, 0, 0, 0)), None);
}

#[test]
fn every_day_of_a_leap_year_and_a_common_year_has_a_name() {
    let lengths =
        |leap: bool| [31, if leap { 29 } else { 28 }, 31, 30, 31, 30, 31, 31, 30, 31, 30, 31];
    for (year, leap) in [(2024, true), (2023, false)] {
        for (index, days) in lengths(leap).iter().enumerate() {
            let month = index as u8 + 1;
            for day in 1..=*days {
                let name = snapshot_name(&stamp(year, month, day, 1, 2, 3)).unwrap();
                assert_eq!(
                    name,
                    format!("database-backup_{}-{:02}-{:02}_T01H-02M-03S", year, month, day)
                );
            }
            assert_eq!(snapshot_name(&stamp(year, month, days + 1, 1, 2, 3)), None);
        }
    }
}

#[test]
fn backups_live_beside_the_store() {
    assert_eq!(backups_directory("database"), "database_backups");
    assert_eq!(backups_directory(""), "_backups");
}

#[test]
fn directory_that_exists_counts_as_made() {
    assert_eq!(ensure_directory(DirectoryAttempt::Created), Ok(()));
    assert_eq!(ensure_directory(DirectoryAttempt::AlreadyThere), Ok(()));
    assert_eq!(ensure_directory(DirectoryAttempt::Failed), Err(StoreError::IoFailure));
}

#[test]
fn stamp_layout_is_the_documented_one() {
    assert_eq!(STAMP_LAYOUT, "[year]-[month]-[day]_T[hour]H-[minute]M-[second]S");
}
