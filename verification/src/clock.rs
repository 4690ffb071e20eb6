//! Times of day, held as seconds since midnight, and the conversions that the
//! schedule and the realtime feed need.
use vstd::prelude::*;
use crate::text::{
    all_digits, char_seqs, chars_of, digits_value, is_unicode_whitespace, lemma_split_after_sep,
    lemma_split_without_sep, parse_unsigned, push_char, spec_parse_unsigned, spec_split, spec_trim,
    split_chars, trim_by, trim_chars, trim_end_by, trim_pred, trim_start_by, unsigned_body,
};
use chrono::Datelike;
use chrono::TimeZone;
use chrono::Timelike;
use crate::schedule::{weekday_index, Weekday};

verus! {

/// Seconds in a day: every time of day is below it.
pub const SECONDS_PER_DAY: u32 = 86400;

/// The time of day `hour:min:sec`, when each part is in range.
pub open spec fn hms_seconds(hour: int, min: int, sec: int) -> Option<int> {
    if 0 <= hour < 24 && 0 <= min < 60 && 0 <= sec < 60 {
        Some(hour * 3600 + min * 60 + sec)
    } else {
        None
    }
}

/// What a GTFS `departure_time` field means as a time of day: `H:M:S` after
/// trimming, each part an unsigned number, the hour taken modulo 24 (GTFS
/// hours run past 24 for service after midnight).
pub open spec fn spec_parse_gtfs_time(s: Seq<char>) -> Option<int> {
    let parts = spec_split(spec_trim(s), ':');
    if parts.len() != 3 {
        None
    } else {
        match (
            spec_parse_unsigned(parts[0], u32::MAX as nat),
            spec_parse_unsigned(parts[1], u32::MAX as nat),
            spec_parse_unsigned(parts[2], u32::MAX as nat),
        ) {
            (Some(h), Some(m), Some(sec)) => hms_seconds((h % 24) as int, m as int, sec as int),
            _ => None,
        }
    }
}

/// The character of a decimal digit.
pub open spec fn digit_char(d: int) -> char {
    (('0' as u32) + d) as char
}

/// A number below 100 as two digits, zero-padded.
pub open spec fn two_digits(n: int) -> Seq<char> {
    seq![digit_char(n / 10), digit_char(n % 10)]
}

/// A time of day as `HH:MM`, the hour and minute zero-padded to two digits.
pub open spec fn spec_hhmm(t: int) -> Seq<char> {
    two_digits(t / 3600) + seq![':'] + two_digits((t % 3600) / 60)
}

/// The time of day `delta` seconds after `t`, going round midnight as often as needed.
pub open spec fn spec_wrapping_add(t: int, delta: int) -> int {
    (t + delta) % (SECONDS_PER_DAY as int)
}

/// The time of day on a Denver clock at the Unix time `unix`, if chrono can represent that instant.
pub uninterp spec fn denver_clock(unix: i64) -> Option<u32>;

/// The day number (days from the first day of the common era, counting it as 1)
/// of a date written as `%Y%m%d`, if chrono parses it.
pub uninterp spec fn calendar_day(text: Seq<char>) -> Option<i32>;

/// The weekday, as days after Monday, on a Denver clock at the Unix time `unix`,
/// if chrono can represent that instant.
pub uninterp spec fn denver_weekday(unix: i64) -> Option<u32>;

/// The RFC 3339 text of the Denver clock at `unix` seconds and `nanos`
/// nanoseconds after the Unix epoch, if chrono can represent that instant.
pub uninterp spec fn denver_rfc3339(unix: i64, nanos: u32) -> Option<Seq<char>>;

/// The seconds since midnight of `hour:min:sec`, when each part is in range:
/// what `chrono::NaiveTime::from_hms_opt` accepts and `num_seconds_from_midnight`
/// then gives.
pub(crate) fn time_from_hms(hour: u32, min: u32, sec: u32) -> (res: Option<u32>)
    ensures
        match hms_seconds(hour as int, min as int, sec as int) {
            Some(t) => res == Some(t as u32),
            None => res is None,
        },
{
    if hour < 24 && min < 60 && sec < 60 {
        Some(hour * 3600 + min * 60 + sec)
    } else {
        None
    }
}

/// `chrono::TimeZone::timestamp_opt` on `chrono_tz::America::Denver`, then
/// `single`: the local time of day at a Unix time. Its value is named
/// `denver_clock`; the time zone rules that decide it are not stated. A
/// `NaiveTime` holds fewer than 86400 seconds since midnight.
#[verifier::external_body]
pub(crate) fn denver_time_of_day(unix: i64) -> (res: Option<u32>)
    ensures
        res == denver_clock(unix),
        res matches Some(t) ==> t < SECONDS_PER_DAY,
{
    match chrono_tz::America::Denver.timestamp_opt(unix, 0).single() {
        Some(dt) => Some(dt.time().num_seconds_from_midnight()),
        None => None,
    }
}

/// `chrono::TimeZone::timestamp_opt` on `chrono_tz::America::Denver`, then
/// `single`, then `Datelike::weekday` and `num_days_from_monday`: the local
/// weekday at a Unix time. Its value is named `denver_weekday`; chrono numbers
/// the days from Monday below 7.
#[verifier::external_body]
pub(crate) fn denver_day_of_week(unix: i64) -> (res: Option<u32>)
    ensures
        res == denver_weekday(unix),
        res matches Some(d) ==> d < 7,
{
    match chrono_tz::America::Denver.timestamp_opt(unix, 0).single() {
        Some(dt) => Some(dt.weekday().num_days_from_monday()),
        None => None,
    }
}

/// `chrono::TimeZone::timestamp_opt` on `chrono_tz::America::Denver`, then
/// `single`, then `DateTime::to_rfc3339`: the local date and time as text.
/// Its value is named `denver_rfc3339`; the text's form is not stated.
#[verifier::external_body]
pub(crate) fn denver_text(unix: i64, nanos: u32) -> (res: Option<String>)
    ensures
        match denver_rfc3339(unix, nanos) {
            Some(t) => res matches Some(x) && x@ == t,
            None => res is None,
        },
{
    match chrono_tz::America::Denver.timestamp_opt(unix, nanos).single() {
        Some(dt) => Some(dt.to_rfc3339()),
        None => None,
    }
}

/// The Denver clock at the instant `unix` seconds and `nanos` nanoseconds
/// after the Unix epoch, as the board reads it: the first whole second of the
/// day at or after the instant (so that a departure counts as upcoming exactly
/// when it is at or after the instant), the weekday, and the RFC 3339 text;
/// none where chrono cannot place the instant.
pub fn denver_now(unix: i64, nanos: u32) -> (res: Option<(u32, Weekday, String)>)
    ensures
        match (denver_clock(unix), denver_weekday(unix), denver_rfc3339(unix, nanos)) {
            (Some(t), Some(d), Some(x)) => res matches Some(r) && r.0 == (if nanos > 0 {
                t + 1
            } else {
                t as int
            }) && weekday_index(r.1) == d && r.2@ == x,
            _ => res is None,
        },
{
    let t = match denver_time_of_day(unix) {
        Some(t) => t,
        None => return None,
    };
    let d = match denver_day_of_week(unix) {
        Some(d) => d,
        None => return None,
    };
    let text = match denver_text(unix, nanos) {
        Some(x) => x,
        None => return None,
    };
    let first_second = if nanos > 0 {
        t + 1
    } else {
        t
    };
    Some((first_second, Weekday::from_index(d as usize), text))
}

/// `chrono::NaiveDate::parse_from_str` with the format `%Y%m%d`, the date handed
/// back as `num_days_from_ce`. What chrono accepts is named `calendar_day`, not stated.
#[verifier::external_body]
pub(crate) fn parse_calendar_day(text: &str) -> (res: Option<i32>)
    ensures
        res == calendar_day(text@),
{
    match chrono::NaiveDate::parse_from_str(text, "%Y%m%d") {
        Ok(d) => Some(d.num_days_from_ce()),
        Err(_) => None,
    }
}

fn digit(d: u32) -> (c: char)
    requires
        d < 10,
    ensures
        c == digit_char(d as int),
{
    ((d as u8) + 48u8) as char
}

/// Formats a time of day as `HH:MM`.
pub fn format_time_hhmm(t: u32) -> (res: String)
    requires
        t < SECONDS_PER_DAY,
    ensures
        res@ == spec_hhmm(t as int),
{
    let h = t / 3600;
    let m = (t % 3600) / 60;
    let mut res = String::new();
    push_char(&mut res, digit(h / 10));
    push_char(&mut res, digit(h % 10));
    push_char(&mut res, ':');
    push_char(&mut res, digit(m / 10));
    push_char(&mut res, digit(m % 10));
    assert(res@ =~= spec_hhmm(t as int));
    res
}

/// The time of day `delta` seconds after `t`, as chrono adds a duration to a
/// `NaiveTime`: going round midnight.
pub fn wrapping_add_seconds(t: u32, delta: i32) -> (res: u32)
    requires
        t < SECONDS_PER_DAY,
    ensures
        res == spec_wrapping_add(t as int, delta as int),
        res < SECONDS_PER_DAY,
{
    // A whole number of days that lifts any i32 above zero.
    let lift: i64 = 86400 * 24856;
    let x: i64 = t as i64 + delta as i64 + lift;
    assert(x >= 0);
    let r: u64 = (x as u64) % 86400;
    assert((t + delta + 86400 * 24856) % 86400 == (t + delta) % 86400) by (nonlinear_arith);
    r as u32
}

/// Parses a GTFS time field (`H:M:S`, hours possibly past 24) into a time of day.
pub fn parse_gtfs_time(s: &str) -> (res: Option<u32>)
    ensures
        match spec_parse_gtfs_time(s@) {
            Some(t) => res == Some(t as u32),
            None => res is None,
        },
        res matches Some(t) ==> t < SECONDS_PER_DAY,
{
    let cs = chars_of(s);
    let trimmed = trim_chars(&cs, false);
    let parts = split_chars(&trimmed, ':');
    if parts.len() != 3 {
        return None;
    }
    assert(parts[0]@ == char_seqs(parts@)[0]);
    assert(parts[1]@ == char_seqs(parts@)[1]);
    assert(parts[2]@ == char_seqs(parts@)[2]);
    let h = match parse_unsigned(&parts[0], u32::MAX as u64) {
        Some(v) => v as u32,
        None => return None,
    };
    let m = match parse_unsigned(&parts[1], u32::MAX as u64) {
        Some(v) => v as u32,
        None => return None,
    };
    let sec = match parse_unsigned(&parts[2], u32::MAX as u64) {
        Some(v) => v as u32,
        None => return None,
    };
    time_from_hms(h % 24, m, sec)
}

proof fn lemma_digit_char_injective(x: int, y: int)
    requires
        0 <= x < 10,
        0 <= y < 10,
        digit_char(x) == digit_char(y),
    ensures
        x == y,
{
    assert(digit_char(x) as u32 == 48 + x);
    assert(digit_char(y) as u32 == 48 + y);
}

proof fn lemma_minute_parts(a: int)
    requires
        0 <= a < 86400,
    ensures
        a / 60 == (a / 3600) * 60 + (a % 3600) / 60,
        0 <= a / 3600 < 24,
        0 <= (a % 3600) / 60 < 60,
{
    assert(a / 60 == (a / 3600) * 60 + (a % 3600) / 60) by (nonlinear_arith)
        requires
            0 <= a < 86400,
    ;
    assert(0 <= a / 3600 < 24) by (nonlinear_arith)
        requires
            0 <= a < 86400,
    ;
    assert(0 <= (a % 3600) / 60 < 60) by (nonlinear_arith)
        requires
            0 <= a < 86400,
    ;
}

proof fn lemma_two_digits_injective(x: int, y: int)
    requires
        0 <= x < 100,
        0 <= y < 100,
        two_digits(x) == two_digits(y),
    ensures
        x == y,
{
    assert(two_digits(x)[0] == digit_char(x / 10));
    assert(two_digits(y)[0] == digit_char(y / 10));
    assert(two_digits(x)[1] == digit_char(x % 10));
    assert(two_digits(y)[1] == digit_char(y % 10));
    lemma_digit_char_injective(x / 10, y / 10);
    lemma_digit_char_injective(x % 10, y % 10);
}

/// Two times of day read the same as `HH:MM` exactly when they fall in the same minute.
pub proof fn law_hhmm_same_minute(a: int, b: int)
    requires
        0 <= a < SECONDS_PER_DAY,
        0 <= b < SECONDS_PER_DAY,
    ensures
        (spec_hhmm(a) == spec_hhmm(b)) == (a / 60 == b / 60),
{
    lemma_minute_parts(a);
    lemma_minute_parts(b);
    if spec_hhmm(a) == spec_hhmm(b) {
        let ha = two_digits(a / 3600);
        let hb = two_digits(b / 3600);
        let ma = two_digits((a % 3600) / 60);
        let mb = two_digits((b % 3600) / 60);
        assert(spec_hhmm(a)[0] == ha[0] && spec_hhmm(a)[1] == ha[1]);
        assert(spec_hhmm(b)[0] == hb[0] && spec_hhmm(b)[1] == hb[1]);
        assert(spec_hhmm(a)[3] == ma[0] && spec_hhmm(a)[4] == ma[1]);
        assert(spec_hhmm(b)[3] == mb[0] && spec_hhmm(b)[4] == mb[1]);
        assert(ha =~= hb);
        assert(ma =~= mb);
        lemma_two_digits_injective(a / 3600, b / 3600);
        lemma_two_digits_injective((a % 3600) / 60, (b % 3600) / 60);
    } else {
        if a / 60 == b / 60 {
            assert(a / 3600 == b / 3600) by (nonlinear_arith)
                requires
                    a / 60 == b / 60,
                    a / 60 == (a / 3600) * 60 + (a % 3600) / 60,
                    b / 60 == (b / 3600) * 60 + (b % 3600) / 60,
                    0 <= (a % 3600) / 60 < 60,
                    0 <= (b % 3600) / 60 < 60,
            ;
            assert((a % 3600) / 60 == (b % 3600) / 60);
        }
    }
}

/// The `HH:MM` of a time given as hours, minutes and seconds is the hour and
/// the minute, each as two digits: the seconds do not show.
pub proof fn law_hhmm_of_hms(hour: int, min: int, sec: int)
    requires
        0 <= hour < 24,
        0 <= min < 60,
        0 <= sec < 60,
    ensures
        spec_hhmm(hour * 3600 + min * 60 + sec) == two_digits(hour) + seq![':'] + two_digits(min),
{
    let t = hour * 3600 + min * 60 + sec;
    assert(t / 3600 == hour) by (nonlinear_arith)
        requires
            t == hour * 3600 + min * 60 + sec,
            0 <= min < 60,
            0 <= sec < 60,
            0 <= hour,
    ;
    assert((t % 3600) / 60 == min) by (nonlinear_arith)
        requires
            t == hour * 3600 + min * 60 + sec,
            0 <= min < 60,
            0 <= sec < 60,
            0 <= hour,
    ;
}

/// A time written `HH:MM:SS`, each part as two digits.
#[verifier::opaque]
pub open spec fn hms_text(hour: int, min: int, sec: int) -> Seq<char> {
    two_digits(hour) + seq![':'] + two_digits(min) + seq![':'] + two_digits(sec)
}

/// The two characters of a number below 100 are decimal digits.
proof fn lemma_two_digits_chars(n: int)
    requires
        0 <= n < 100,
    ensures
        two_digits(n).len() == 2,
        two_digits(n)[0] as u32 == 48 + n / 10,
        two_digits(n)[1] as u32 == 48 + n % 10,
        !two_digits(n).contains(':'),
{
    assert(digit_char(n / 10) as u32 == 48 + n / 10);
    assert(digit_char(n % 10) as u32 == 48 + n % 10);
    if two_digits(n).contains(':') {
        let i = choose|i: int| 0 <= i < two_digits(n).len() && two_digits(n)[i] == ':';
        assert(i == 0 || i == 1);
    }
}

/// Two digits parse back as the number they show.
proof fn lemma_parse_two_digits(n: int)
    requires
        0 <= n < 100,
    ensures
        spec_parse_unsigned(two_digits(n), u32::MAX as nat) == Some(n as nat),
{
    let s = two_digits(n);
    lemma_two_digits_chars(n);
    assert(unsigned_body(s) == s);
    assert(all_digits(s)) by {
        assert forall|i: int| 0 <= i < s.len() implies crate::text::is_digit(#[trigger] s[i]) by {
            assert(i == 0 || i == 1);
        }
    }
    let first = s.drop_last();
    assert(first.drop_last() =~= Seq::<char>::empty());
    assert(first.last() == s[0]);
    assert(digits_value(first.drop_last()) == 0);
    assert(digits_value(first) == n / 10);
    assert(s.last() == s[1]);
    assert(digits_value(s) == n);
}

/// `HH:MM:SS` with two-digit parts reads as those parts, the hour modulo 24.
proof fn lemma_parse_hms_text(hour: int, min: int, sec: int)
    requires
        0 <= hour < 100,
        0 <= min < 100,
        0 <= sec < 100,
    ensures
        spec_parse_gtfs_time(hms_text(hour, min, sec)) == hms_seconds(hour % 24, min, sec),
{
    let a = two_digits(hour);
    let b = two_digits(min);
    let c = two_digits(sec);
    let t = hms_text(hour, min, sec);
    reveal(hms_text);
    lemma_two_digits_chars(hour);
    lemma_two_digits_chars(min);
    lemma_two_digits_chars(sec);
    assert(t[0] == a[0]);
    assert(t.last() == c[1]);
    assert(!is_unicode_whitespace(t[0]));
    assert(!is_unicode_whitespace(t.last()));
    assert(trim_start_by(t, trim_pred(false)) == t);
    assert(trim_end_by(t, trim_pred(false)) == t);
    assert(spec_trim(t) == t);
    lemma_split_without_sep(a, ':');
    lemma_split_after_sep(a, b, ':');
    lemma_split_after_sep(a + seq![':'] + b, c, ':');
    assert(spec_split(t, ':') =~= seq![a, b, c]);
    lemma_parse_two_digits(hour);
    lemma_parse_two_digits(min);
    lemma_parse_two_digits(sec);
}

/// A time of day written `HH:MM:SS` reads back as itself, and so does the same
/// time written with 24 added to the hour, as GTFS writes service after
/// midnight.
pub proof fn law_parse_reads_back(hour: int, min: int, sec: int)
    requires
        0 <= hour < 24,
        0 <= min < 60,
        0 <= sec < 60,
    ensures
        spec_parse_gtfs_time(hms_text(hour, min, sec)) == Some(hour * 3600 + min * 60 + sec),
        spec_parse_gtfs_time(hms_text(hour + 24, min, sec)) == Some(hour * 3600 + min * 60 + sec),
{
    let t = hour * 3600 + min * 60 + sec;
    assert(hms_seconds(hour, min, sec) == Some(t));
    assert(spec_parse_gtfs_time(hms_text(hour, min, sec)) == Some(t)) by {
        lemma_parse_hms_text(hour, min, sec);
        assert(hour % 24 == hour);
    }
    assert(spec_parse_gtfs_time(hms_text(hour + 24, min, sec)) == Some(t)) by {
        lemma_parse_hms_text(hour + 24, min, sec);
        assert((hour + 24) % 24 == hour);
    }
}

} // verus!
