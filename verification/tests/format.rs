//! Tests of the date formatter and of dates read through chrono.

use chrono::Datelike;
use chrono::TimeZone;
use mdbook_newday::summary_line_for_date;
use mdbook_newday::todays_line;
use mdbook_newday::Date;

/// The library's date for a chrono date.
fn date_of<D: Datelike>(d: &D) -> Date {
    Date::new(
        d.year(),
        d.month(),
        d.day(),
        d.weekday().num_days_from_monday(),
    )
    .unwrap()
}

#[test]
fn test_summary_line_format() {
    let dt = chrono::Utc.timestamp_opt(1, 0).unwrap();
    let formatted = summary_line_for_date(&date_of(&dt));
    assert_eq!(
        formatted,
        "- [Thursday, Jan 01, 1970](./1970/1970-01/1970-01-01.md)"
    );
}

#[test]
fn test_todays_line() {
    // There's no fixed value here because it depends on the time and local timezone.
    // So rather than create a test this just allows for quick inspection.
    println!("{:?}", todays_line());
}

#[test]
fn test_todays_line_shape() {
    // Whatever the clock says, the line is an entry line for the sigil.
    let line = todays_line();
    assert!(line.starts_with("- ["));
    assert!(line.ends_with(".md)"));
}

#[test]
fn test_zero_padding() {
    let date = Date::new(987, 3, 9, 1).unwrap();
    assert_eq!(
        summary_line_for_date(&date),
        "- [Tuesday, Mar 09, 0987](./0987/0987-03/0987-03-09.md)"
    );
}

#[test]
fn test_each_weekday_name() {
    let names = [
        "Monday",
        "Tuesday",
        "Wednesday",
        "Thursday",
        "Friday",
        "Saturday",
        "Sunday",
    ];
    for (w, name) in names.iter().enumerate() {
        let date = Date::new(2024, 1, 15, w as u32).unwrap();
        let line = summary_line_for_date(&date);
        assert_eq!(
            line,
            format!("- [{}, Jan 15, 2024](./2024/2024-01/2024-01-15.md)", name)
        );
    }
}

#[test]
fn test_each_month_abbrev() {
    let abbrevs = [
        "Jan", "Feb", "Mar", "Apr", "May", "Jun", "Jul", "Aug", "Sep", "Oct", "Nov", "Dec",
    ];
    for (i, abbrev) in abbrevs.iter().enumerate() {
        let m = (i + 1) as u32;
        let date = Date::new(2024, m, 1, 0).unwrap();
        let line = summary_line_for_date(&date);
        assert_eq!(
            line,
            format!(
                "- [Monday, {} 01, 2024](./2024/2024-{:02}/2024-{:02}-01.md)",
                abbrev, m, m
            )
        );
    }
}

#[test]
fn test_date_new_rejects_out_of_range() {
    assert!(Date::new(-1, 1, 1, 0).is_none());
    assert!(Date::new(10000, 1, 1, 0).is_none());
    assert!(Date::new(2024, 0, 1, 0).is_none());
    assert!(Date::new(2024, 13, 1, 0).is_none());
    assert!(Date::new(2024, 1, 0, 0).is_none());
    assert!(Date::new(2024, 1, 32, 0).is_none());
    assert!(Date::new(2024, 1, 1, 7).is_none());
    assert!(Date::new(0, 1, 1, 0).is_some());
    assert!(Date::new(9999, 12, 31, 6).is_some());
}

#[test]
fn test_formatter_agrees_with_chrono_format() {
    // The verified formatter and chrono's own formatting of the same
    // pattern agree on an ordinary date.
    let dt = chrono::Utc.timestamp_opt(86_400 * 100, 0).unwrap();
    let formatted = summary_line_for_date(&date_of(&dt));
    let by_chrono = dt
        .format("- [%A, %b %d, %Y](./%Y/%Y-%m/%Y-%m-%d.md)")
        .to_string();
    assert_eq!(formatted, by_chrono);
}
