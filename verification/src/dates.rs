//! Calendar arithmetic and due-date expressions.
//!
//! A calendar date is represented as a day number: the number of days since
//! the day before 0001-01-01 in the proleptic Gregorian calendar, so
//! 0001-01-01 is day 1 (which is a Monday). A timestamp is a day number plus
//! a second-of-day. Due-date expressions are absolute dates (`YYYY-MM-DD`),
//! the keywords `today` and `tomorrow`, relative offsets (`+3d`, `+1w`), and
//! weekday names (`friday`, `fri`), all case-insensitive.

use vstd::prelude::*;

use crate::error::TaskCtlError;
use crate::numtext::{
    all_digits, all_digits_range, digits_val, is_digit, lower_char, lower_seq,
    lower_digits_range, spec_parse_u64, parse_u64_range, eq_ignore_ascii,
};

verus! {

broadcast use vstd::string::group_string_axioms;

/// A point in local civil time: a day number and a second of that day.
#[derive(Debug, Clone, Copy, PartialEq, Eq, Structural)]
pub struct Timestamp {
    pub day: u32,
    pub secs: u32,
}

/// A well-formed timestamp lies on a real calendar day.
pub open spec fn wf_timestamp(t: Timestamp) -> bool {
    1 <= t.day && t.secs < 86400
}

/// Timestamp order: by day, then by second of day.
pub open spec fn ts_le(a: Timestamp, b: Timestamp) -> bool {
    a.day < b.day || (a.day == b.day && a.secs <= b.secs)
}

/// Order on optional pin times: an absent time sorts before every present one.
pub open spec fn opt_ts_le(a: Option<Timestamp>, b: Option<Timestamp>) -> bool {
    match (a, b) {
        (None, _) => true,
        (Some(_), None) => false,
        (Some(x), Some(y)) => ts_le(x, y),
    }
}

/// Compare two timestamps.
pub fn timestamp_le(a: &Timestamp, b: &Timestamp) -> (r: bool)
    ensures
        r == ts_le(*a, *b),
{
    a.day < b.day || (a.day == b.day && a.secs <= b.secs)
}

/// Whether `y` is a leap year in the proleptic Gregorian calendar.
pub open spec fn spec_is_leap(y: int) -> bool {
    y % 4 == 0 && (y % 100 != 0 || y % 400 == 0)
}

/// The number of days in month `m` of year `y`.
pub open spec fn spec_days_in_month(y: int, m: int) -> int {
    if m == 2 {
        if spec_is_leap(y) { 29 } else { 28 }
    } else if m == 4 || m == 6 || m == 9 || m == 11 {
        30
    } else {
        31
    }
}

/// A valid calendar date: years 1 through 9999.
pub open spec fn valid_date(y: int, m: int, d: int) -> bool {
    1 <= y <= 9999 && 1 <= m <= 12 && 1 <= d <= spec_days_in_month(y, m)
}

/// The day number of a calendar date (0001-01-01 is day 1).
pub open spec fn date_to_day(y: int, m: int, d: int) -> int {
    let yy = if m <= 2 { y - 1 } else { y };
    let era = yy / 400;
    let yoe = yy - era * 400;
    let mp = if m > 2 { m - 3 } else { m + 9 };
    let doy = (153 * mp + 2) / 5 + d - 1;
    let doe = yoe * 365 + yoe / 4 - yoe / 100 + doy;
    era * 146097 + doe - 305
}

/// The largest day number of a valid date: 9999-12-31.
pub const LAST_DAY: u32 = 3652059;

/// Compute the day number of a valid calendar date.
pub fn days_from_civil(y: u32, m: u32, d: u32) -> (day: u32)
    requires
        valid_date(y as int, m as int, d as int),
    ensures
        day == date_to_day(y as int, m as int, d as int),
        1 <= day <= LAST_DAY,
{
    let yy: u32 = if m <= 2 { y - 1 } else { y };
    let era: u32 = yy / 400;
    let yoe: u32 = yy - era * 400;
    let mp: u32 = if m > 2 { m - 3 } else { m + 9 };
    let doy: u32 = (153 * mp + 2) / 5 + d - 1;
    let doe: u32 = yoe * 365 + yoe / 4 - yoe / 100 + doy;
    let day = era * 146097 + doe - 305;
    proof {
        assert(mp <= 11 && doy <= 367);
        assert(yoe <= 399 && doe <= 399 * 365 + 99 + 367);
        assert(era <= 24);
        assert(day >= 1) by {
            if m <= 2 {
                assert(mp >= 10);
                assert(doy >= (153 * 10 + 2) / 5);
            } else if era >= 1 {
                assert(era * 146097 >= 146097);
            } else {
                assert(yy == y && yoe >= 1);
                assert(doe >= 365);
            }
        };
        assert(day == date_to_day(y as int, m as int, d as int));
        assert(day <= LAST_DAY) by {
            if era == 24 {
                assert(yy >= 9600);
                if m <= 2 {
                    assert(yy == y - 1 <= 9998);
                    assert(yoe <= 398);
                } else {
                    assert(mp <= 9);
                    assert(doy <= (153 * 9 + 2) / 5 + 30);
                }
            }
        };
    }
    day
}

/// Check whether `y` is a leap year.
pub fn is_leap(y: u32) -> (r: bool)
    ensures
        r == spec_is_leap(y as int),
{
    y % 4 == 0 && (y % 100 != 0 || y % 400 == 0)
}

/// The number of days in month `m` of year `y`.
pub fn days_in_month(y: u32, m: u32) -> (r: u32)
    requires
        1 <= m <= 12,
    ensures
        r == spec_days_in_month(y as int, m as int),
{
    if m == 2 {
        if is_leap(y) { 29 } else { 28 }
    } else if m == 4 || m == 6 || m == 9 || m == 11 {
        30
    } else {
        31
    }
}

/// The weekday of a day number, as an index with 0 = Monday .. 6 = Sunday.
pub open spec fn weekday_of(day: int) -> int {
    (day - 1) % 7
}

/// Whether `c` is ASCII whitespace for the purpose of trimming input.
pub open spec fn is_ws(c: char) -> bool {
    c == ' ' || c == '\t' || c == '\r' || c == '\n'
}

/// `s` with leading and trailing ASCII whitespace removed.
pub open spec fn trim(s: Seq<char>) -> Seq<char>
    decreases s.len(),
{
    if s.len() == 0 {
        s
    } else if is_ws(s[0]) {
        trim(s.drop_first())
    } else if is_ws(s.last()) {
        trim(s.drop_last())
    } else {
        s
    }
}

/// Trim ASCII whitespace from both ends of `s`.
pub fn trim_str<'a>(s: &'a str) -> (r: &'a str)
    ensures
        r@ == trim(s@),
{
    let n = s.unicode_len();
    let mut i: usize = 0;
    while i < n
        invariant
            0 <= i <= n == s@.len(),
            forall|k: int| 0 <= k < i ==> is_ws(s@[k]),
        ensures
            0 <= i <= n,
            forall|k: int| 0 <= k < i ==> is_ws(s@[k]),
            i < n ==> !is_ws(s@[i as int]),
        decreases n - i,
    {
        let c = s.get_char(i);
        if !(c == ' ' || c == '\t' || c == '\r' || c == '\n') {
            break;
        }
        i += 1;
    }
    if i == n {
        proof {
            lemma_trim_head(s@, i as int);
            assert(s@.subrange(i as int, n as int) =~= Seq::<char>::empty());
            assert("".view() =~= trim(s@)) by {
                reveal_strlit("");
            };
        }
        return "";
    }
    let mut j: usize = n;
    while j > i + 1
        invariant
            i < j <= n == s@.len(),
            forall|k: int| j <= k < n ==> is_ws(s@[k]),
        ensures
            i < j <= n,
            forall|k: int| j <= k < n ==> is_ws(s@[k]),
            j > i + 1 ==> !is_ws(s@[j - 1]),
        decreases j,
    {
        let c = s.get_char(j - 1);
        if !(c == ' ' || c == '\t' || c == '\r' || c == '\n') {
            break;
        }
        j -= 1;
    }
    let r = s.substring_char(i, j);
    proof {
        lemma_trim_head(s@, i as int);
        lemma_trim_tail(s@, i as int, j as int, n as int);
        let fin = s@.subrange(i as int, j as int);
        assert(!is_ws(fin[0]));
        assert(!is_ws(fin.last()));
        assert(trim(fin) == fin);
    }
    r
}

/// Dropping a whitespace-only head does not change the trimmed value.
proof fn lemma_trim_head(s: Seq<char>, i: int)
    requires
        0 <= i <= s.len(),
        forall|k: int| 0 <= k < i ==> is_ws(s[k]),
    ensures
        trim(s) == trim(s.subrange(i, s.len() as int)),
    decreases i,
{
    if i > 0 {
        assert(is_ws(s[0]));
        assert(trim(s) == trim(s.drop_first()));
        let t = s.drop_first();
        lemma_trim_head(t, i - 1);
        assert(t.subrange(i - 1, t.len() as int) =~= s.subrange(i, s.len() as int));
    } else {
        assert(s.subrange(0, s.len() as int) =~= s);
    }
}

/// Dropping a whitespace-only tail does not change the trimmed value, as
/// long as the first kept character is not whitespace.
proof fn lemma_trim_tail(s: Seq<char>, i: int, j: int, k: int)
    requires
        0 <= i < j <= k <= s.len(),
        !is_ws(s[i]),
        forall|t: int| j <= t < k ==> is_ws(s[t]),
    ensures
        trim(s.subrange(i, k)) == trim(s.subrange(i, j)),
    decreases k - j,
{
    if k > j {
        let cur = s.subrange(i, k);
        assert(cur.last() == s[k - 1] && is_ws(cur.last()));
        assert(!is_ws(cur[0]));
        assert(cur.drop_last() =~= s.subrange(i, k - 1));
        lemma_trim_tail(s, i, j, k - 1);
    }
}

/// The absolute form: ten characters `YYYY-MM-DD`.
pub open spec fn abs_form(t: Seq<char>) -> bool {
    t.len() == 10 && t[4] == '-' && t[7] == '-'
        && all_digits(t.subrange(0, 4))
        && all_digits(t.subrange(5, 7))
        && all_digits(t.subrange(8, 10))
}

/// The day number denoted by an absolute form, when it is a valid date.
pub open spec fn abs_day(t: Seq<char>) -> Option<u32> {
    let y = digits_val(t.subrange(0, 4)) as int;
    let m = digits_val(t.subrange(5, 7)) as int;
    let d = digits_val(t.subrange(8, 10)) as int;
    if valid_date(y, m, d) {
        Some(date_to_day(y, m, d) as u32)
    } else {
        None
    }
}

/// The relative form: `+N` or `+-N` followed by `d` (days) or `w` (weeks),
/// over the already lower-cased input.
pub open spec fn rel_form(t: Seq<char>) -> bool {
    t.len() >= 3 && t[0] == '+' && (t.last() == 'd' || t.last() == 'w')
        && {
        let body = t.subrange(1, t.len() - 1);
        if body[0] == '-' {
            body.len() >= 2 && all_digits(body.subrange(1, body.len() as int))
                && digits_val(body.subrange(1, body.len() as int)) <= i64::MAX
        } else {
            all_digits(body) && digits_val(body) <= i64::MAX
        }
    }
}

/// The signed day offset denoted by a relative form.
pub open spec fn rel_offset(t: Seq<char>) -> int {
    let body = t.subrange(1, t.len() - 1);
    let mag = if body[0] == '-' {
        -(digits_val(body.subrange(1, body.len() as int)) as int)
    } else {
        digits_val(body) as int
    };
    if t.last() == 'w' { 7 * mag } else { mag }
}

/// The weekday index named by a lower-cased word, if any.
pub open spec fn weekday_name(t: Seq<char>) -> Option<int> {
    if t == "monday"@ || t == "mon"@ { Some(0int) }
    else if t == "tuesday"@ || t == "tue"@ { Some(1int) }
    else if t == "wednesday"@ || t == "wed"@ { Some(2int) }
    else if t == "thursday"@ || t == "thu"@ { Some(3int) }
    else if t == "friday"@ || t == "fri"@ { Some(4int) }
    else if t == "saturday"@ || t == "sat"@ { Some(5int) }
    else if t == "sunday"@ || t == "sun"@ { Some(6int) }
    else { None }
}

/// The next strictly-future day with the given weekday index.
pub open spec fn next_weekday_day(today: int, w: int) -> int {
    let cur = weekday_of(today);
    if w <= cur {
        today + 7 - (cur - w)
    } else {
        today + (w - cur)
    }
}

/// What parsing a due-date expression means, over the trimmed, lower-cased
/// input. `None` is a rejection.
pub open spec fn spec_parse_due(s: Seq<char>, today: u32) -> Option<u32> {
    let t = lower_seq(trim(s));
    if abs_form(t) {
        abs_day(t)
    } else if t == "today"@ {
        Some(today)
    } else if t == "tomorrow"@ {
        if today + 1 <= u32::MAX { Some((today + 1) as u32) } else { None }
    } else if rel_form(t) {
        let r = today + rel_offset(t);
        if 1 <= r <= u32::MAX { Some(r as u32) } else { None }
    } else if weekday_name(t) is Some {
        let r = next_weekday_day(today as int, weekday_name(t)->Some_0);
        if r <= u32::MAX { Some(r as u32) } else { None }
    } else {
        None
    }
}

/// Lower-casing a character never produces a digit, a dash, a plus sign, or
/// any character outside `a..z` unless it started as that character.
proof fn lemma_lower_char_shape(c: char)
    ensures
        ('A' <= c && c <= 'Z') ==> ('a' <= lower_char(c) && lower_char(c) <= 'z'),
        !('A' <= c && c <= 'Z') ==> lower_char(c) == c,
{
}

/// On ranges that lower-case to digits, lower-casing was the identity.
proof fn lemma_lower_digit_range(t: Seq<char>, a: int, b: int)
    requires
        0 <= a <= b <= t.len(),
        all_digits(lower_seq(t).subrange(a, b)),
    ensures
        lower_seq(t).subrange(a, b) == t.subrange(a, b),
        all_digits(t.subrange(a, b)),
{
    assert forall|k: int| a <= k < b implies lower_seq(t)[k] == t[k] by {
        assert(is_digit(lower_seq(t).subrange(a, b)[k - a]));
        assert(lower_seq(t)[k] == lower_char(t[k]));
        lemma_lower_char_shape(t[k]);
    };
    assert(lower_seq(t).subrange(a, b) =~= t.subrange(a, b));
    assert forall|k: int| 0 <= k < b - a implies is_digit(#[trigger] t.subrange(a, b)[k]) by {
        assert(t.subrange(a, b)[k] == lower_seq(t).subrange(a, b)[k]);
    };
}

/// Check the ten-character `YYYY-MM-DD` shape against the lower-cased view.
fn check_abs(t: &str) -> (r: bool)
    ensures
        r == abs_form(lower_seq(t@)),
{
    let ghost lt = lower_seq(t@);
    let n = t.unicode_len();
    if n != 10 {
        return false;
    }
    let c4 = t.get_char(4);
    proof {
        lemma_lower_char_shape(t@[4]);
        assert(lt[4] == lower_char(t@[4]));
    }
    if c4 != '-' {
        return false;
    }
    let c7 = t.get_char(7);
    proof {
        lemma_lower_char_shape(t@[7]);
        assert(lt[7] == lower_char(t@[7]));
    }
    if c7 != '-' {
        return false;
    }
    let d1 = lower_digits_range(t, 0, 4);
    let d2 = lower_digits_range(t, 5, 7);
    let d3 = lower_digits_range(t, 8, 10);
    d1 && d2 && d3
}

/// Look a lower-cased word up in the weekday names, full or three-letter.
fn weekday_lookup(t: &str) -> (r: Option<u32>)
    ensures
        match weekday_name(lower_seq(t@)) {
            Some(w) => r == Some(w as u32),
            None => r is None,
        },
{
    proof {
        reveal_strlit("monday");
        reveal_strlit("mon");
        reveal_strlit("tuesday");
        reveal_strlit("tue");
        reveal_strlit("wednesday");
        reveal_strlit("wed");
        reveal_strlit("thursday");
        reveal_strlit("thu");
        reveal_strlit("friday");
        reveal_strlit("fri");
        reveal_strlit("saturday");
        reveal_strlit("sat");
        reveal_strlit("sunday");
        reveal_strlit("sun");
        assert(lower_seq("monday"@) =~= "monday"@);
        assert(lower_seq("mon"@) =~= "mon"@);
        assert(lower_seq("tuesday"@) =~= "tuesday"@);
        assert(lower_seq("tue"@) =~= "tue"@);
        assert(lower_seq("wednesday"@) =~= "wednesday"@);
        assert(lower_seq("wed"@) =~= "wed"@);
        assert(lower_seq("thursday"@) =~= "thursday"@);
        assert(lower_seq("thu"@) =~= "thu"@);
        assert(lower_seq("friday"@) =~= "friday"@);
        assert(lower_seq("fri"@) =~= "fri"@);
        assert(lower_seq("saturday"@) =~= "saturday"@);
        assert(lower_seq("sat"@) =~= "sat"@);
        assert(lower_seq("sunday"@) =~= "sunday"@);
        assert(lower_seq("sun"@) =~= "sun"@);
    }
    if eq_ignore_ascii(t, "monday") || eq_ignore_ascii(t, "mon") {
        Some(0)
    } else if eq_ignore_ascii(t, "tuesday") || eq_ignore_ascii(t, "tue") {
        Some(1)
    } else if eq_ignore_ascii(t, "wednesday") || eq_ignore_ascii(t, "wed") {
        Some(2)
    } else if eq_ignore_ascii(t, "thursday") || eq_ignore_ascii(t, "thu") {
        Some(3)
    } else if eq_ignore_ascii(t, "friday") || eq_ignore_ascii(t, "fri") {
        Some(4)
    } else if eq_ignore_ascii(t, "saturday") || eq_ignore_ascii(t, "sat") {
        Some(5)
    } else if eq_ignore_ascii(t, "sunday") || eq_ignore_ascii(t, "sun") {
        Some(6)
    } else {
        None
    }
}

/// The error every rejected due-date expression maps to.
fn due_error() -> (r: TaskCtlError)
    ensures
        r is InvalidArgument,
{
    TaskCtlError::InvalidArgument(String::from_str("Cannot parse date"))
}

/// Parse a due-date expression relative to `today`, which must be a real
/// calendar day. Accepts exactly the absolute, keyword, relative-offset and
/// weekday forms; everything else is an invalid argument.
pub fn parse_due(input: &str, today: u32) -> (r: Result<u32, TaskCtlError>)
    requires
        1 <= today,
    ensures
        match spec_parse_due(input@, today) {
            Some(d) => r == Ok::<u32, TaskCtlError>(d),
            None => r is Err && r->Err_0 is InvalidArgument,
        },
{
    let t = trim_str(input);
    let ghost lt = lower_seq(t@);
    let n = t.unicode_len();

    // Absolute form: YYYY-MM-DD.
    if check_abs(t) {
        proof {
            assert(lt.subrange(0, 4) == t@.subrange(0, 4)
                && lt.subrange(5, 7) == t@.subrange(5, 7)
                && lt.subrange(8, 10) == t@.subrange(8, 10)) by {
                lemma_lower_digit_range(t@, 0, 4);
                lemma_lower_digit_range(t@, 5, 7);
                lemma_lower_digit_range(t@, 8, 10);
            };
            crate::numtext::lemma_digits_val_bound(t@.subrange(0, 4));
            crate::numtext::lemma_digits_val_bound(t@.subrange(5, 7));
            crate::numtext::lemma_digits_val_bound(t@.subrange(8, 10));
            assert(crate::numtext::pow10(0) == 1);
            assert(crate::numtext::pow10(1) == 10);
            assert(crate::numtext::pow10(2) == 100);
            assert(crate::numtext::pow10(3) == 1000);
            assert(crate::numtext::pow10(4) == 10000);
            assert(lt.len() == t@.len());
            assert(all_digits(t@.subrange(0, 4)));
            assert(all_digits(t@.subrange(5, 7)));
            assert(all_digits(t@.subrange(8, 10)));
        }
        let y = match parse_u64_range(t, 0, 4) {
            Some(v) => v,
            None => {
                proof { assert(false); }
                return Err(due_error());
            },
        };
        let m = match parse_u64_range(t, 5, 7) {
            Some(v) => v,
            None => {
                proof { assert(false); }
                return Err(due_error());
            },
        };
        let d = match parse_u64_range(t, 8, 10) {
            Some(v) => v,
            None => {
                proof { assert(false); }
                return Err(due_error());
            },
        };
        let y = y as u32;
        let m = m as u32;
        let d = d as u32;
        if 1 <= y && 1 <= m && m <= 12 && 1 <= d && d <= days_in_month(y, m) {
            return Ok(days_from_civil(y, m, d));
        } else {
            return Err(due_error());
        }
    }

    // Keywords.
    proof {
        reveal_strlit("today");
        reveal_strlit("tomorrow");
        assert(lower_seq("today"@) =~= "today"@);
        assert(lower_seq("tomorrow"@) =~= "tomorrow"@);
    }
    if eq_ignore_ascii(t, "today") {
        return Ok(today);
    }
    if eq_ignore_ascii(t, "tomorrow") {
        if today == u32::MAX {
            return Err(due_error());
        }
        return Ok(today + 1);
    }

    // Relative offsets: +Nd / +Nw, with an optional minus sign. Every path
    // that rules the relative form out falls through to the weekday names.
    if n >= 3 && t.get_char(0) == '+' {
        proof {
            lemma_lower_char_shape(t@[0]);
            assert(lt[0] == lower_char(t@[0]));
        }
        let cl = t.get_char(n - 1);
        let unit = if cl >= 'A' && cl <= 'Z' { ((cl as u8) + 32) as char } else { cl };
        proof {
            lemma_lower_char_shape(t@[n - 1]);
            assert(lt.last() == lower_char(t@[n - 1]));
            assert(unit == lower_char(t@[n - 1]));
        }
        if unit == 'd' || unit == 'w' {
            let c1 = t.get_char(1);
            proof {
                lemma_lower_char_shape(t@[1]);
                assert(lt[1] == lower_char(t@[1]));
                assert(lt.subrange(1, n - 1)[0] == lt[1]);
            }
            let neg = c1 == '-';
            let from: usize = if neg { 2 } else { 1 };
            let ghost body = lt.subrange(1, n as int - 1);
            let ghost a = from as int;
            let ghost b = n as int - 1;
            proof {
                if neg {
                    assert(body.subrange(1, body.len() as int) =~= lt.subrange(2, b));
                } else {
                    assert(body =~= lt.subrange(1, b));
                }
            }
            let digits_ok = lower_digits_range(t, from, n - 1);
            if digits_ok {
                match parse_u64_range(t, from, n - 1) {
                    Some(mag) => {
                        proof {
                            assert(digits_val(lt.subrange(a, b)) == mag);
                        }
                        if mag <= (i64::MAX) as u64 {
                            proof {
                                assert(rel_form(lt));
                            }
                            if mag > u32::MAX as u64 {
                                // Any such offset leaves the day-number range.
                                proof {
                                    if neg {
                                        assert(rel_offset(lt) <= -(mag as int));
                                    } else {
                                        assert(rel_offset(lt) >= mag);
                                    }
                                }
                                return Err(due_error());
                            }
                            let mult: i64 = if unit == 'w' { 7 } else { 1 };
                            let off: i64 = (mag as i64) * mult;
                            let res: i64 = if neg {
                                today as i64 - off
                            } else {
                                today as i64 + off
                            };
                            proof {
                                assert(res == today + rel_offset(lt));
                            }
                            if 1 <= res && res <= u32::MAX as i64 {
                                return Ok(res as u32);
                            } else {
                                return Err(due_error());
                            }
                        }
                        // Beyond a signed count: the relative form is out.
                        proof {
                            assert(!rel_form(lt));
                        }
                    },
                    None => {
                        proof {
                            // The digit run was empty or too large to count.
                            assert(!rel_form(lt));
                        }
                    },
                }
            } else {
                proof {
                    assert(!rel_form(lt));
                }
            }
        }
    }

    // Weekday names.
    match weekday_lookup(t) {
        Some(w) => {
            let cur: u32 = (today - 1) % 7;
            let ahead: u32 = if w <= cur { 7 - (cur - w) } else { w - cur };
            if today > u32::MAX - ahead {
                return Err(due_error());
            }
            Ok(today + ahead)
        },
        None => Err(due_error()),
    }
}

} // verus!
