use activity_stats::calendar::civil_from_days;
use activity_stats::insights::format_date;
use activity_stats::stats::chrono_lite_date;

#[test]
fn epoch_is_first_of_january_1970() {
    assert_eq!(civil_from_days(0), (1970, 1, 1));
    assert_eq!(format_date(0), "1970-01-01");
}

#[test]
fn day_before_epoch() {
    assert_eq!(civil_from_days(-1), (1969, 12, 31));
    assert_eq!(format_date(-86400), "1969-12-31");
}

#[test]
fn seconds_before_epoch_fall_on_earlier_days() {
    assert_eq!(format_date(-1), "1969-12-31");
    assert_eq!(format_date(-86399), "1969-12-31");
    assert_eq!(format_date(-86401), "1969-12-30");
}

#[test]
fn leap_days() {
    assert_eq!(civil_from_days(11016), (2000, 2, 29));
    assert_eq!(civil_from_days(-719469), (0, 2, 29));
    assert_eq!(civil_from_days(-719835), (-1, 2, 28));
}

#[test]
fn known_dates() {
    assert_eq!(civil_from_days(19000), (2022, 1, 8));
    assert_eq!(civil_from_days(2932896), (9999, 12, 31));
    assert_eq!(civil_from_days(-719468), (0, 3, 1));
    assert_eq!(civil_from_days(-1000000), (-768, 2, 4));
}

#[test]
fn year_padding() {
    assert_eq!(format_date(-719468 * 86400), "0000-03-01");
    assert_eq!(format_date(-719834 * 86400), "-001-03-01");
    assert_eq!(format_date(2932897 * 86400), "10000-01-01");
}

#[test]
fn date_and_hour() {
    assert_eq!(chrono_lite_date(1777243547), ("2026-04-26".to_string(), 22));
    assert_eq!(chrono_lite_date(5 * 3600 + 59), ("1970-01-01".to_string(), 5));
}

#[test]
fn hour_before_epoch() {
    assert_eq!(chrono_lite_date(-3600), ("1969-12-31".to_string(), 23));
    assert_eq!(chrono_lite_date(-1), ("1969-12-31".to_string(), 23));
    assert_eq!(chrono_lite_date(-90000), ("1969-12-30".to_string(), 23));
    assert_eq!(chrono_lite_date(-86400), ("1969-12-31".to_string(), 0));
}

#[test]
fn consecutive_days_have_consecutive_dates() {
    let mut prev = civil_from_days(-800000);
    for d in -799999i64..-700000 {
        let cur = civil_from_days(d);
        assert!(cur > prev);
        prev = cur;
    }
}

#[test]
fn date_texts_sort_in_calendar_order() {
    let days: [i64; 8] = [-719528, -1, 0, 19722, 19723, 19782, 20000, 2932896];
    for a in days {
        for b in days {
            let (ta, tb) = (format_date(a * 86400), format_date(b * 86400));
            assert_eq!(ta < tb, a < b, "{ta} {tb}");
        }
    }
    assert_eq!(format_date(19722 * 86400), "2023-12-31");
    assert_eq!(format_date(19723 * 86400), "2024-01-01");
    assert_eq!(format_date(-719528 * 86400), "0000-01-01");
}
