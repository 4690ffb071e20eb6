use trmnl_rtd::clock::{denver_now, format_time_hhmm, parse_gtfs_time, wrapping_add_seconds};
use trmnl_rtd::schedule::Weekday;
use trmnl_rtd::text::{chars_of, lines_of, parse_unsigned, split_chars, string_from, trim_chars};

fn chars(s: &str) -> Vec<char> {
    s.chars().collect()
}

fn texts(v: &[Vec<char>]) -> Vec<String> {
    v.iter().map(|c| c.iter().collect()).collect()
}

#[test]
fn gtfs_time_parses_hours_minutes_seconds() {
    assert_eq!(parse_gtfs_time("07:15:00"), Some(7 * 3600 + 15 * 60));
    assert_eq!(parse_gtfs_time("00:00:00"), Some(0));
    assert_eq!(parse_gtfs_time("23:59:59"), Some(86399));
}

#[test]
fn gtfs_time_past_midnight_wraps_to_next_day() {
    assert_eq!(parse_gtfs_time("25:10:00"), Some(3600 + 600));
    assert_eq!(parse_gtfs_time("24:00:00"), Some(0));
    assert_eq!(parse_gtfs_time("25:10:00"), parse_gtfs_time("01:10:00"));
}

#[test]
fn gtfs_time_trims_and_accepts_single_digits() {
    assert_eq!(parse_gtfs_time(" 7:05:09 "), Some(7 * 3600 + 5 * 60 + 9));
    assert_eq!(parse_gtfs_time("\t07:05:09\r"), Some(7 * 3600 + 5 * 60 + 9));
    assert_eq!(parse_gtfs_time("+7:05:09"), Some(7 * 3600 + 5 * 60 + 9));
}

#[test]
fn gtfs_time_rejects_malformed_fields() {
    assert_eq!(parse_gtfs_time("07:60:00"), None);
    assert_eq!(parse_gtfs_time("07:15:60"), None);
    assert_eq!(parse_gtfs_time("7:15"), None);
    assert_eq!(parse_gtfs_time("07:15:00:00"), None);
    assert_eq!(parse_gtfs_time("a:b:c"), None);
    assert_eq!(parse_gtfs_time("07: 15:00"), None);
    assert_eq!(parse_gtfs_time("-7:15:00"), None);
    assert_eq!(parse_gtfs_time(""), None);
    assert_eq!(parse_gtfs_time("99999999999:00:00"), None);
}

#[test]
fn time_formats_as_two_digit_hour_and_minute() {
    assert_eq!(format_time_hhmm(7 * 3600 + 15 * 60), "07:15");
    assert_eq!(format_time_hhmm(0), "00:00");
    assert_eq!(format_time_hhmm(86399), "23:59");
    assert_eq!(format_time_hhmm(13 * 3600 + 5 * 60 + 59), "13:05");
}

#[test]
fn hhmm_of_parsed_time_drops_the_seconds() {
    let t = parse_gtfs_time("07:15:59").unwrap();
    assert_eq!(format_time_hhmm(t), "07:15");
    let t = parse_gtfs_time("26:45:30").unwrap();
    assert_eq!(format_time_hhmm(t), "02:45");
}

#[test]
fn adding_seconds_goes_round_midnight() {
    assert_eq!(wrapping_add_seconds(86340, 120), 60);
    assert_eq!(wrapping_add_seconds(30, -60), 86370);
    assert_eq!(wrapping_add_seconds(7 * 3600 + 45 * 60, 180), 7 * 3600 + 48 * 60);
    assert_eq!(wrapping_add_seconds(0, i32::MIN), ((i32::MIN as i64).rem_euclid(86400)) as u32);
    assert_eq!(wrapping_add_seconds(0, i32::MAX), ((i32::MAX as i64).rem_euclid(86400)) as u32);
}

#[test]
fn unsigned_parse_follows_str_parse() {
    for s in ["0", "255", "256", "+1", "+", "", "-1", "01", "1a", " 1", "4294967295", "4294967296"] {
        let expected: Option<u8> = s.parse().ok();
        assert_eq!(parse_unsigned(&chars(s), u8::MAX as u64), expected.map(|v| v as u64), "{}", s);
        let expected: Option<u32> = s.parse().ok();
        assert_eq!(parse_unsigned(&chars(s), u32::MAX as u64), expected.map(|v| v as u64), "{}", s);
    }
    assert_eq!(parse_unsigned(&chars("18446744073709551615"), u64::MAX), Some(u64::MAX));
    assert_eq!(parse_unsigned(&chars("18446744073709551616"), u64::MAX), None);
}

#[test]
fn trimming_and_splitting_follow_str() {
    for s in ["  a b  ", "\u{a0}x\u{3000}", "", "   ", "\"q\"", "\"\"x\"\""] {
        let t: String = trim_chars(&chars(s), false).iter().collect();
        assert_eq!(t, s.trim());
        let q: String = trim_chars(&chars(s), true).iter().collect();
        assert_eq!(q, s.trim_matches('"'));
    }
    for s in ["a,b,,c", "", ",", "abc", "a,"] {
        let pieces = texts(&split_chars(&chars(s), ','));
        let expected: Vec<String> = s.split(',').map(|p| p.to_string()).collect();
        assert_eq!(pieces, expected);
    }
}

#[test]
fn lines_follow_str_lines() {
    for s in ["a\nb\n", "a\r\nb", "", "\n", "a\rb", "x\r", "a\n\nb\r\n\r\n", "end\r\n"] {
        let got = texts(&lines_of(&chars(s)));
        let expected: Vec<String> = s.lines().map(|l| l.to_string()).collect();
        assert_eq!(got, expected, "{:?}", s);
    }
}

#[test]
fn chars_round_trip_through_strings() {
    let s = "Wheat Ridge · Ward Rd";
    assert_eq!(string_from(&chars_of(s)), s);
}

#[test]
fn every_written_time_reads_back() {
    for h in 0..24u32 {
        for m in 0..60u32 {
            for s in 0..60u32 {
                let t = h * 3600 + m * 60 + s;
                assert_eq!(parse_gtfs_time(&format!("{:02}:{:02}:{:02}", h, m, s)), Some(t));
                assert_eq!(parse_gtfs_time(&format!("{}:{:02}:{:02}", h + 24, m, s)), Some(t));
            }
        }
    }
}

#[test]
fn the_denver_clock_reads_the_instant() {
    // 2024-01-01T14:30:15Z is 07:30:15 on a Monday in Denver (UTC-7).
    let (t, wd, text) = denver_now(1704119415, 0).unwrap();
    assert_eq!(t, 7 * 3600 + 30 * 60 + 15);
    assert_eq!(wd, Weekday::Mon);
    assert_eq!(text, "2024-01-01T07:30:15-07:00");
    // Part of a second later, the first whole second at or after it is the next.
    let (t, _, _) = denver_now(1704119415, 500_000_000).unwrap();
    assert_eq!(t, 7 * 3600 + 30 * 60 + 16);
    // 2024-07-01T06:00:00Z is midnight, Monday, in Denver daylight time (UTC-6).
    let (t, wd, _) = denver_now(1719813600, 0).unwrap();
    assert_eq!(t, 0);
    assert_eq!(wd, Weekday::Mon);
}
