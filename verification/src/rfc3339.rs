use vstd::prelude::*;

use crate::text::{is_first_of, all_digits, digits_value, is_digit, chars_of, decimal, find_char, nth_part, parse_i32_in, parse_unsigned_in, part_range, push_chars, push_decimal, split_once_spec, string_of};

verus! {

/// A point in time as whole seconds and nanoseconds since the Unix epoch.
#[derive(Debug, Clone, Copy, PartialEq, Eq, Structural)]
pub struct Timestamp {
    pub secs: u64,
    pub nanos: u32,
}

// ---------------------------------------------------------------------------
// Civil calendar (proleptic Gregorian, days counted from 1970-01-01)
// ---------------------------------------------------------------------------

/// Year (before narrowing to `i32`), month and day of day number `z`.
pub open spec fn civil_spec(z: int) -> (int, int, int) {
    let zz = z + 719468;
    let era = zz / 146097;
    let doe = zz - era * 146097;
    let yoe = (doe - doe / 1460 + doe / 36524 - doe / 146096) / 365;
    let y = yoe + era * 400;
    let doy = doe - (365 * yoe + yoe / 4 - yoe / 100);
    let mp = (5 * doy + 2) / 153;
    let d = doy - (153 * mp + 2) / 5 + 1;
    let m = if mp < 10 {
        mp + 3
    } else {
        mp - 9
    };
    let y = if m <= 2 {
        y + 1
    } else {
        y
    };
    (y, m, d)
}

/// Day number of a date whose month lies in `1..=12`.
pub open spec fn days_from_civil_spec(year: int, month: int, day: int) -> int {
    let y = if month <= 2 {
        year - 1
    } else {
        year
    };
    let era = y / 400;
    let yoe = y - era * 400;
    let mp = if month > 2 {
        month - 3
    } else {
        month + 9
    };
    let doy = (153 * mp + 2) / 5 + day - 1;
    let doe = yoe * 365 + yoe / 4 - yoe / 100 + doy;
    era * 146097 + doe - 719468
}

/// The calendar date of any day number has a month in `1..=12` and a day in
/// `1..=31`, and converting it back gives the day number again.
pub proof fn law_civil_round_trip(z: int)
    ensures
        ({
            let (y, m, d) = civil_spec(z);
            &&& 1 <= m <= 12
            &&& 1 <= d <= 31
            &&& days_from_civil_spec(y, m, d) == z
        }),
{
    let zz = z + 719468;
    let era = zz / 146097;
    let doe = zz - era * 146097;
    assert(0 <= doe < 146097);
    let yoe = (doe - doe / 1460 + doe / 36524 - doe / 146096) / 365;
    let doy = doe - (365 * yoe + yoe / 4 - yoe / 100);
    assert(0 <= yoe <= 399 && 0 <= doy <= 365);
    let mp = (5 * doy + 2) / 153;
    assert(0 <= mp <= 11);
    let d = doy - (153 * mp + 2) / 5 + 1;
    assert(1 <= d <= 31);
    let y0 = yoe + era * 400;
    assert(y0 / 400 == era);
}

/// `civil_from_unix_days`: the year, month and day of day number `z`.
#[verifier::rlimit(40)]
pub fn civil_from_unix_days(z: i64) -> (r: (i32, u32, u32))
    requires
        z + 719468 <= i64::MAX,
        z + 719468 - 146096 > i64::MIN,
    ensures
        r.0 == civil_spec(z as int).0 as i32,
        r.1 == civil_spec(z as int).1,
        r.2 == civil_spec(z as int).2,
{
    let z = z + 719468;
    let era: i64 = if z >= 0 {
        z / 146097
    } else {
        -((146096 - z) / 146097)
    };
    proof {
        if z < 0 {
            assert(-((146096 - z) / 146097) == z / 146097);
        }
    }
    let doe = (z - era * 146097) as u64;
    let yoe = (doe - doe / 1460 + doe / 36524 - doe / 146096) / 365;
    let y = yoe as i64 + era * 400;
    let doy = doe - (365 * yoe + yoe / 4 - yoe / 100);
    let mp = (5 * doy + 2) / 153;
    let d = doy - (153 * mp + 2) / 5 + 1;
    let m = if mp < 10 {
        mp + 3
    } else {
        mp - 9
    };
    let y = if m <= 2 {
        y + 1
    } else {
        y
    };
    proof {
        law_civil_round_trip(z - 719468);
    }
    (y as i32, m as u32, d as u32)
}

/// Floor of `y / 400` for any `i64`.
fn floor_div_400(y: i64) -> (r: i64)
    ensures
        r == y / 400,
{
    if y >= 0 {
        y / 400
    } else {
        let q = ((-(y + 1)) / 400) as i64;
        proof {
            assert(-q - 1 == y / 400);
        }
        -q - 1
    }
}

/// The message for a date that fails the calendar check.
pub open spec fn invalid_date_message(year: i32, month: u32, day: u32) -> Seq<char> {
    "invalid calendar date "@ + signed_padded(year as int, 1) + "-"@ + padded(month as nat, 2) + "-"@
        + padded(day as nat, 2)
}

/// `days_from_civil`: the day number of a date, or an error when the month is
/// outside `1..=12` or the day outside `1..=31`.
pub fn days_from_civil(year: i32, month: u32, day: u32) -> (r: Result<i64, String>)
    ensures
        (1 <= month <= 12 && 1 <= day <= 31) ==> r == Ok::<i64, String>(
            days_from_civil_spec(year as int, month as int, day as int) as i64,
        ),
        !(1 <= month <= 12 && 1 <= day <= 31) ==> (r matches Err(msg) && msg@
            == invalid_date_message(year, month, day)),
{
    if !(1 <= month && month <= 12) || !(1 <= day && day <= 31) {
        let mut msg = string_of("invalid calendar date ");
        push_signed_padded(&mut msg, year as i64, 1);
        msg.append("-");
        push_padded(&mut msg, month as u64, 2);
        msg.append("-");
        push_padded(&mut msg, day as u64, 2);
        return Err(msg);
    }
    let y: i64 = if month <= 2 {
        year as i64 - 1
    } else {
        year as i64
    };
    let era = floor_div_400(y);
    let yoe = (y - era * 400) as u64;
    let mp: u64 = if month > 2 {
        month as u64 - 3
    } else {
        month as u64 + 9
    };
    let doy = (153 * mp + 2) / 5 + day as u64 - 1;
    let doe = yoe * 365 + yoe / 4 - yoe / 100 + doy;
    Ok(era * 146097 + doe as i64 - 719468)
}

/// Year, month, day, hour, minute and second of a Unix time in seconds.
pub open spec fn civil_from_days_spec(unix_secs: u64) -> (i32, u32, u32, u32, u32, u32) {
    let (y, m, d) = civil_spec((unix_secs / 86400) as int);
    let rem = unix_secs % 86400;
    (y as i32, m as u32, d as u32, (rem / 3600) as u32, ((rem % 3600) / 60) as u32, (rem % 60) as u32)
}

/// `civil_from_days`: splits a Unix time in seconds into its UTC calendar fields.
pub fn civil_from_days(unix_secs: u64) -> (r: (i32, u32, u32, u32, u32, u32))
    ensures
        r == civil_from_days_spec(unix_secs),
{
    let days = (unix_secs / 86400) as i64;
    let rem = (unix_secs % 86400) as u32;
    let hour = rem / 3600;
    let min = (rem % 3600) / 60;
    let sec = rem % 60;
    let (year, month, day) = civil_from_unix_days(days);
    (year, month, day, hour, min, sec)
}

// ---------------------------------------------------------------------------
// Formatting
// ---------------------------------------------------------------------------

/// `s` with `'0'`s in front up to `width` characters.
pub open spec fn zero_pad(s: Seq<char>, width: nat) -> Seq<char> {
    if s.len() < width {
        Seq::new((width - s.len()) as nat, |i: int| '0') + s
    } else {
        s
    }
}

/// `n` in decimal, zero-padded to `width` characters (`{:0width$}`).
pub open spec fn padded(n: nat, width: nat) -> Seq<char> {
    zero_pad(decimal(n), width)
}

/// A signed number zero-padded to `width` characters counting its sign.
pub open spec fn signed_padded(n: int, width: nat) -> Seq<char> {
    if n < 0 {
        seq!['-'] + zero_pad(decimal((-n) as nat), if width > 0 { (width - 1) as nat } else { 0 })
    } else {
        zero_pad(decimal(n as nat), width)
    }
}

/// Appends `n` zero-padded to `width` characters.
pub fn push_padded(out: &mut String, n: u64, width: usize)
    ensures
        final(out)@ == old(out)@ + padded(n as nat, width as nat),
{
    let digits = crate::text::decimal_string(n);
    let len = digits.as_str().unicode_len();
    let mut i = len;
    let ghost start = out@;
    while i < width
        invariant
            len <= i <= width || (i == len && len >= width),
            len == decimal(n as nat).len(),
            digits@ == decimal(n as nat),
            out@ == start + Seq::new((i - len) as nat, |k: int| '0'),
        decreases width - i,
    {
        out.append("0");
        proof {
            reveal_strlit("0");
            assert(start + Seq::new((i - len) as nat, |k: int| '0') + "0"@ =~= start + Seq::new(
                (i + 1 - len) as nat,
                |k: int| '0',
            ));
        }
        i += 1;
    }
    out.append(digits.as_str());
    proof {
        if len < width {
            assert(out@ =~= start + padded(n as nat, width as nat));
        } else {
            assert(Seq::new(0, |k: int| '0') =~= Seq::<char>::empty());
            assert(out@ =~= start + padded(n as nat, width as nat));
        }
    }
}

/// Appends a signed number zero-padded to `width` characters counting its sign.
pub fn push_signed_padded(out: &mut String, n: i64, width: usize)
    ensures
        final(out)@ == old(out)@ + signed_padded(n as int, width as nat),
{
    if n < 0 {
        out.append("-");
        let magnitude: u64 = if n == i64::MIN {
            9223372036854775808u64
        } else {
            (-n) as u64
        };
        let w = if width > 0 {
            width - 1
        } else {
            0
        };
        let ghost mid = out@;
        push_padded(out, magnitude, w);
        proof {
            reveal_strlit("-");
            assert(out@ =~= old(out)@ + signed_padded(n as int, width as nat));
        }
    } else {
        push_padded(out, n as u64, width);
    }
}

pub open spec fn format_rfc3339_spec(t: Timestamp) -> Seq<char> {
    fmt_date(t) + seq!['T'] + (fmt_clock(t) + seq!['Z'])
}

/// Appends `sep` then `n` zero-padded to two digits.
fn push_sep_two(out: &mut String, sep: char, n: u64)
    ensures
        final(out)@ == old(out)@ + seq![sep] + padded(n as nat, 2),
{
    crate::text::push_char(out, sep);
    push_padded(out, n, 2);
    proof {
        assert(old(out)@.push(sep) =~= old(out)@ + seq![sep]);
    }
}

fn push_date(out: &mut String, year: i32, month: u32, day: u32)
    ensures
        final(out)@ == old(out)@ + (signed_padded(year as int, 4) + seq!['-'] + padded(month as nat, 2)
            + seq!['-'] + padded(day as nat, 2)),
{
    push_signed_padded(out, year as i64, 4);
    push_sep_two(out, '-', month as u64);
    push_sep_two(out, '-', day as u64);
    proof {
        assert(final(out)@ =~= old(out)@ + (signed_padded(year as int, 4) + seq!['-'] + padded(
            month as nat,
            2,
        ) + seq!['-'] + padded(day as nat, 2)));
    }
}

fn push_hms(out: &mut String, hour: u32, min: u32, sec: u32)
    ensures
        final(out)@ == old(out)@ + (padded(hour as nat, 2) + seq![':'] + padded(min as nat, 2)
            + seq![':'] + padded(sec as nat, 2)),
{
    push_padded(out, hour as u64, 2);
    push_sep_two(out, ':', min as u64);
    push_sep_two(out, ':', sec as u64);
    proof {
        assert(final(out)@ =~= old(out)@ + (padded(hour as nat, 2) + seq![':'] + padded(
            min as nat,
            2,
        ) + seq![':'] + padded(sec as nat, 2)));
    }
}

/// `YYYY-MM-DDTHH:MM:SSZ`, with nine fraction digits when the nanoseconds are
/// not zero.
pub fn format_rfc3339(time: Timestamp) -> (s: String)
    ensures
        s@ == format_rfc3339_spec(time),
{
    let (year, month, day, hour, min, sec) = civil_from_days(time.secs);
    let mut s = String::new();
    push_date(&mut s, year, month, day);
    crate::text::push_char(&mut s, 'T');
    let ghost before_clock = s@;
    push_hms(&mut s, hour, min, sec);
    if time.nanos != 0 {
        crate::text::push_char(&mut s, '.');
        push_padded(&mut s, time.nanos as u64, 9);
    }
    proof {
        assert(s@ =~= before_clock + fmt_clock(time));
    }
    crate::text::push_char(&mut s, 'Z');
    proof {
        assert(s@ =~= format_rfc3339_spec(time));
    }
    s
}

} // verus!

verus! {

// ---------------------------------------------------------------------------
// Parsing
// ---------------------------------------------------------------------------

/// `char::is_whitespace`: the characters with the Unicode `White_Space` property.
pub open spec fn is_whitespace_spec(c: char) -> bool {
    ||| ('\u{9}' <= c && c <= '\u{d}')
    ||| c == ' '
    ||| c == '\u{85}'
    ||| c == '\u{a0}'
    ||| c == '\u{1680}'
    ||| ('\u{2000}' <= c && c <= '\u{200a}')
    ||| c == '\u{2028}'
    ||| c == '\u{2029}'
    ||| c == '\u{202f}'
    ||| c == '\u{205f}'
    ||| c == '\u{3000}'
}

pub fn is_whitespace(c: char) -> (b: bool)
    ensures
        b == is_whitespace_spec(c),
{
    ('\u{9}' <= c && c <= '\u{d}') || c == ' ' || c == '\u{85}' || c == '\u{a0}' || c == '\u{1680}'
        || ('\u{2000}' <= c && c <= '\u{200a}') || c == '\u{2028}' || c == '\u{2029}' || c
        == '\u{202f}' || c == '\u{205f}' || c == '\u{3000}'
}

pub open spec fn trim_start_spec(s: Seq<char>) -> Seq<char>
    decreases s.len(),
{
    if s.len() > 0 && is_whitespace_spec(s[0]) {
        trim_start_spec(s.drop_first())
    } else {
        s
    }
}

pub open spec fn trim_end_spec(s: Seq<char>) -> Seq<char>
    decreases s.len(),
{
    if s.len() > 0 && is_whitespace_spec(s.last()) {
        trim_end_spec(s.drop_last())
    } else {
        s
    }
}

/// `str::trim`: `s` without leading and trailing whitespace.
pub open spec fn trim_spec(s: Seq<char>) -> Seq<char> {
    trim_end_spec(trim_start_spec(s))
}

proof fn lemma_trim_start(s: Seq<char>, a: int)
    requires
        0 <= a <= s.len(),
        forall|k: int| 0 <= k < a ==> is_whitespace_spec(s[k]),
        a == s.len() || !is_whitespace_spec(s[a]),
    ensures
        trim_start_spec(s) == s.skip(a),
    decreases a,
{
    if a == 0 {
        assert(s.skip(0) =~= s);
    } else {
        let t = s.drop_first();
        assert forall|k: int| 0 <= k < a - 1 implies is_whitespace_spec(t[k]) by {
            assert(t[k] == s[k + 1]);
        }
        if a - 1 < t.len() {
            assert(t[a - 1] == s[a]);
        }
        lemma_trim_start(t, a - 1);
        assert(t.skip(a - 1) =~= s.skip(a));
    }
}

proof fn lemma_trim_end(s: Seq<char>, b: int)
    requires
        0 <= b <= s.len(),
        forall|k: int| b <= k < s.len() ==> is_whitespace_spec(s[k]),
        b == 0 || !is_whitespace_spec(s[b - 1]),
    ensures
        trim_end_spec(s) == s.take(b),
    decreases s.len() - b,
{
    if b == s.len() {
        assert(s.take(b) =~= s);
    } else {
        let t = s.drop_last();
        assert forall|k: int| b <= k < t.len() implies is_whitespace_spec(t[k]) by {
            assert(t[k] == s[k]);
        }
        if b > 0 {
            assert(t[b - 1] == s[b - 1]);
        }
        lemma_trim_end(t, b);
        assert(t.take(b) =~= s.take(b));
    }
}

/// The bounds of `cs` without leading and trailing whitespace.
fn trim_bounds(cs: &Vec<char>) -> (r: (usize, usize))
    ensures
        r.0 <= r.1 <= cs@.len(),
        trim_spec(cs@) == cs@.subrange(r.0 as int, r.1 as int),
{
    let n = cs.len();
    let mut a: usize = 0;
    while a < n && is_whitespace(cs[a])
        invariant
            a <= n,
            n == cs@.len(),
            forall|k: int| 0 <= k < a ==> is_whitespace_spec(cs@[k]),
        decreases n - a,
    {
        a += 1;
    }
    proof {
        lemma_trim_start(cs@, a as int);
    }
    let ghost t = cs@.skip(a as int);
    let mut b: usize = n;
    while b > a && is_whitespace(cs[b - 1])
        invariant
            a <= b <= n,
            n == cs@.len(),
            forall|k: int| b <= k < n ==> is_whitespace_spec(cs@[k]),
        decreases b - a,
    {
        b -= 1;
    }
    proof {
        let bb = b - a;
        assert forall|k: int| bb <= k < t.len() implies is_whitespace_spec(t[k]) by {
            assert(t[k] == cs@[a + k]);
        }
        if bb > 0 {
            assert(t[bb - 1] == cs@[b - 1]);
        }
        lemma_trim_end(t, bb);
        assert(t.take(bb) =~= cs@.subrange(a as int, b as int));
    }
    (a, b)
}

/// How many bytes UTF-8 takes for `c`.
pub open spec fn utf8_width(c: char) -> int {
    if (c as u32) < 0x80 {
        1
    } else if (c as u32) < 0x800 {
        2
    } else if (c as u32) < 0x10000 {
        3
    } else {
        4
    }
}

pub open spec fn is_ascii_char(c: char) -> bool {
    (c as u32) < 0x80
}

pub open spec fn min_int(a: int, b: int) -> int {
    if a <= b {
        a
    } else {
        b
    }
}

/// Cutting a fraction at its ninth byte would split a character: its first
/// non-ASCII character among the first nine bytes runs past byte nine.
pub open spec fn fraction_cut_splits_char(frac: Seq<char>) -> bool {
    exists|k: int|
        0 <= k < min_int(9, frac.len() as int) && (forall|i: int|
            0 <= i < k ==> is_ascii_char(#[trigger] frac[i])) && !is_ascii_char(frac[k]) && k
            + utf8_width(frac[k]) > 9
}

/// The nanoseconds of a fraction: its first nine characters, padded with
/// zeros to nine, read as a `u32`; `None` when that fails.
pub open spec fn fraction_nanos_spec(frac: Seq<char>) -> Option<u32> {
    if frac.len() == 0 {
        Some(0)
    } else {
        let m = min_int(9, frac.len() as int);
        if forall|i: int| 0 <= i < m ==> is_ascii_char(#[trigger] frac[i]) {
            match crate::text::parse_unsigned_spec(
                frac.take(m) + Seq::new((9 - m) as nat, |k: int| '0'),
                u32::MAX as int,
            ) {
                Some(v) => Some(v as u32),
                None => None,
            }
        } else {
            None
        }
    }
}

pub open spec fn in_i64(v: int) -> bool {
    i64::MIN <= v <= i64::MAX
}

pub open spec fn part_u32(s: Seq<char>, sep: char, n: nat) -> Option<u32> {
    match nth_part(s, sep, n) {
        Some(p) => match crate::text::parse_unsigned_spec(p, u32::MAX as int) {
            Some(v) => Some(v as u32),
            None => None,
        },
        None => None,
    }
}

pub open spec fn part_i32(s: Seq<char>, sep: char, n: nat) -> Option<i32> {
    match nth_part(s, sep, n) {
        Some(p) => crate::text::parse_i32_spec(p),
        None => None,
    }
}

/// Splits at the first `T`, else at the first `t`.
pub open spec fn split_date_time(t: Seq<char>) -> Option<(Seq<char>, Seq<char>)> {
    match split_once_spec(t, 'T') {
        Some(p) => Some(p),
        None => split_once_spec(t, 't'),
    }
}

/// `rest` without its final `Z` or `z`.
pub open spec fn strip_utc(rest: Seq<char>) -> Option<Seq<char>> {
    if rest.len() > 0 && rest.last() == 'Z' {
        Some(rest.drop_last())
    } else if rest.len() > 0 && rest.last() == 'z' {
        Some(rest.drop_last())
    } else {
        None
    }
}

/// The clock part and the fraction (if any) of the text after the `T`.
pub open spec fn split_fraction(clock: Seq<char>) -> (Seq<char>, Option<Seq<char>>) {
    match split_once_spec(clock, '.') {
        Some((h, f)) => (h, Some(f)),
        None => (clock, None),
    }
}

/// Whether parsing `text` gets as far as cutting the fraction and the cut
/// splits a character, which `String::truncate` refuses by panicking.
pub open spec fn parse_rfc3339_panics(text: Seq<char>) -> bool {
    parse_rfc3339_panics_trimmed(trim_spec(text))
}

pub open spec fn parse_rfc3339_panics_trimmed(t: Seq<char>) -> bool {
    match split_date_time(t) {
        None => false,
        Some((date, rest)) => {
            &&& part_i32(date, '-', 0) is Some
            &&& part_u32(date, '-', 1) is Some
            &&& part_u32(date, '-', 2) is Some
            &&& match strip_utc(rest) {
                None => false,
                Some(clock) => {
                    let (hms, frac) = split_fraction(clock);
                    &&& part_u32(hms, ':', 0) is Some
                    &&& part_u32(hms, ':', 1) is Some
                    &&& part_u32(hms, ':', 2) is Some
                    &&& match frac {
                        Some(f) => f.len() > 0 && fraction_cut_splits_char(f),
                        None => false,
                    }
                },
            }
        },
    }
}

/// The calendar and clock fields of a trimmed timestamp `t`, or the message
/// for the first field that does not read.
pub open spec fn rfc3339_fields_spec(t: Seq<char>) -> Result<(i32, u32, u32, u32, u32, u32, u32), Seq<char>> {
    match split_date_time(t) {
        None => Err("invalid RFC3339 timestamp: "@ + t),
        Some((date, rest)) => {
            let year = part_i32(date, '-', 0);
            let month = part_u32(date, '-', 1);
            let day = part_u32(date, '-', 2);
            if year is None || month is None || day is None {
                Err("invalid RFC3339 date: "@ + t)
            } else {
                match strip_utc(rest) {
                    None => Err("RFC3339 timestamp must be UTC (ending in Z): "@ + t),
                    Some(clock) => {
                        let (hms, frac) = split_fraction(clock);
                        let hour = part_u32(hms, ':', 0);
                        let min = part_u32(hms, ':', 1);
                        let sec = part_u32(hms, ':', 2);
                        if hour is None || min is None || sec is None {
                            Err("invalid RFC3339 time: "@ + t)
                        } else {
                            let nanos = match frac {
                                Some(f) => fraction_nanos_spec(f),
                                None => Some(0u32),
                            };
                            if nanos is None {
                                Err("invalid RFC3339 fraction: "@ + t)
                            } else {
                                Ok(
                                    (
                                        year->Some_0,
                                        month->Some_0,
                                        day->Some_0,
                                        hour->Some_0,
                                        min->Some_0,
                                        sec->Some_0,
                                        nanos->Some_0,
                                    ),
                                )
                            }
                        }
                    },
                }
            }
        },
    }
}

/// The seconds since the epoch of a date and clock time, or the message when
/// the date is not a calendar date or the seconds fall outside `0..=i64::MAX`.
pub open spec fn rfc3339_secs_spec(
    t: Seq<char>,
    year: i32,
    month: u32,
    day: u32,
    hour: u32,
    min: u32,
    sec: u32,
) -> Result<u64, Seq<char>> {
    if !(1 <= month <= 12 && 1 <= day <= 31) {
        Err(invalid_date_message(year, month, day))
    } else {
        let days = days_from_civil_spec(year as int, month as int, day as int);
        let a = days * 86400;
        let b = a + hour * 3600;
        let c = b + min * 60;
        let d = c + sec;
        if !in_i64(a) || !in_i64(b) || !in_i64(c) || !in_i64(d) {
            Err("RFC3339 timestamp out of range: "@ + t)
        } else if d < 0 {
            Err("RFC3339 timestamp before Unix epoch: "@ + t)
        } else {
            Ok(d as u64)
        }
    }
}

/// The result of `parse_rfc3339`: the time, or the error message.
pub open spec fn parse_rfc3339_spec(text: Seq<char>) -> Result<Timestamp, Seq<char>> {
    let t = trim_spec(text);
    match rfc3339_fields_spec(t) {
        Err(m) => Err(m),
        Ok((year, month, day, hour, min, sec, nanos)) => match rfc3339_secs_spec(
            t,
            year,
            month,
            day,
            hour,
            min,
            sec,
        ) {
            Err(m) => Err(m),
            Ok(secs) => Ok(Timestamp { secs, nanos }),
        },
    }
}

/// A message made of `prefix` and the characters `cs[lo..hi]`.
fn message(prefix: &str, cs: &Vec<char>, lo: usize, hi: usize) -> (s: String)
    requires
        lo <= hi <= cs@.len(),
    ensures
        s@ == prefix@ + cs@.subrange(lo as int, hi as int),
{
    let mut s = string_of(prefix);
    push_chars(&mut s, cs, lo, hi);
    s
}

/// Reads the `n`-th `sep`-separated piece of `cs[lo..hi]` as a `u32`.
fn part_u32_in(cs: &Vec<char>, lo: usize, hi: usize, sep: char, n: usize) -> (r: Option<u32>)
    requires
        lo <= hi <= cs@.len(),
    ensures
        r == part_u32(cs@.subrange(lo as int, hi as int), sep, n as nat),
{
    match part_range(cs, lo, hi, sep, n) {
        Some((a, b)) => match parse_unsigned_in(cs, a, b, u32::MAX as u64) {
            Some(v) => Some(v as u32),
            None => None,
        },
        None => None,
    }
}

/// Reads the nanoseconds of the fraction `cs[lo..hi]`.
fn fraction_nanos(cs: &Vec<char>, lo: usize, hi: usize) -> (r: Option<u32>)
    requires
        lo <= hi <= cs@.len(),
        !(hi > lo && fraction_cut_splits_char(cs@.subrange(lo as int, hi as int))),
    ensures
        r == fraction_nanos_spec(cs@.subrange(lo as int, hi as int)),
{
    let ghost f = cs@.subrange(lo as int, hi as int);
    if lo == hi {
        return Some(0);
    }
    let m: usize = if hi - lo < 9 {
        hi - lo
    } else {
        9
    };
    let mut k: usize = 0;
    while k < m
        invariant
            k <= m,
            m == min_int(9, f.len() as int),
            f == cs@.subrange(lo as int, hi as int),
            lo + m <= hi <= cs@.len(),
            forall|i: int| 0 <= i < k ==> is_ascii_char(#[trigger] f[i]),
        decreases m - k,
    {
        if (cs[lo + k] as u32) >= 0x80 {
            proof {
                assert(f[k as int] == cs@[lo + k]);
                assert(!(forall|i: int| 0 <= i < m ==> is_ascii_char(#[trigger] f[i])));
            }
            return None;
        }
        proof {
            assert(f[k as int] == cs@[lo + k]);
        }
        k += 1;
    }
    let mut padded: Vec<char> = Vec::new();
    let mut i: usize = 0;
    while i < 9
        invariant
            i <= 9,
            m <= 9,
            lo + m <= hi <= cs@.len(),
            f == cs@.subrange(lo as int, hi as int),
            padded@ == (f.take(m as int) + Seq::new((9 - m) as nat, |k: int| '0')).take(i as int),
        decreases 9 - i,
    {
        let c = if i < m {
            cs[lo + i]
        } else {
            '0'
        };
        proof {
            let full = f.take(m as int) + Seq::new((9 - m) as nat, |k: int| '0');
            if i < m {
                assert(full[i as int] == cs@[lo + i]);
            } else {
                assert(full[i as int] == '0');
            }
        }
        padded.push(c);
        i += 1;
        proof {
            let full = f.take(m as int) + Seq::new((9 - m) as nat, |k: int| '0');
            assert(padded@ =~= full.take(i as int));
        }
    }
    proof {
        let full = f.take(m as int) + Seq::new((9 - m) as nat, |k: int| '0');
        assert(padded@ =~= full);
        assert(padded@.subrange(0, 9) =~= full);
    }
    match parse_unsigned_in(&padded, 0, 9, u32::MAX as u64) {
        Some(v) => Some(v as u32),
        None => None,
    }
}

/// Reads the calendar and clock fields of the trimmed timestamp `cs[ta..tb]`.
#[verifier::rlimit(50)]
fn rfc3339_fields(cs: &Vec<char>, ta: usize, tb: usize) -> (r: Result<
    (i32, u32, u32, u32, u32, u32, u32),
    String,
>)
    requires
        ta <= tb <= cs@.len(),
        !parse_rfc3339_panics_trimmed(cs@.subrange(ta as int, tb as int)),
    ensures
        match (r, rfc3339_fields_spec(cs@.subrange(ta as int, tb as int))) {
            (Ok(f), Ok(g)) => f == g,
            (Err(msg), Err(m)) => msg@ == m,
            _ => false,
        },
{
    let ghost t = cs@.subrange(ta as int, tb as int);
    let ti = match find_char(cs, ta, tb, 'T') {
        Some(i) => i,
        None => match find_char(cs, ta, tb, 't') {
            Some(i) => i,
            None => return Err(message("invalid RFC3339 timestamp: ", cs, ta, tb)),
        },
    };
    proof {
        assert(split_date_time(t) == Some(
            (cs@.subrange(ta as int, ti as int), cs@.subrange(ti + 1, tb as int)),
        ));
    }
    let year = match part_range(cs, ta, ti, '-', 0) {
        Some((a, b)) => parse_i32_in(cs, a, b),
        None => None,
    };
    let month = part_u32_in(cs, ta, ti, '-', 1);
    let day = part_u32_in(cs, ta, ti, '-', 2);
    let (year, month, day) = match (year, month, day) {
        (Some(y), Some(m), Some(d)) => (y, m, d),
        _ => return Err(message("invalid RFC3339 date: ", cs, ta, tb)),
    };
    let rest_lo = ti + 1;
    let clock_hi = if rest_lo < tb && (cs[tb - 1] == 'Z' || cs[tb - 1] == 'z') {
        tb - 1
    } else {
        proof {
            let rest = cs@.subrange(rest_lo as int, tb as int);
            if rest.len() > 0 {
                assert(rest.last() == cs@[tb - 1]);
            }
        }
        return Err(message("RFC3339 timestamp must be UTC (ending in Z): ", cs, ta, tb));
    };
    proof {
        let rest = cs@.subrange(rest_lo as int, tb as int);
        assert(rest.last() == cs@[tb - 1]);
        assert(rest.drop_last() =~= cs@.subrange(rest_lo as int, clock_hi as int));
    }
    let (hms_hi, frac) = match find_char(cs, rest_lo, clock_hi, '.') {
        Some(i) => (i, Some(i + 1)),
        None => (clock_hi, None),
    };
    let hour = part_u32_in(cs, rest_lo, hms_hi, ':', 0);
    let min = part_u32_in(cs, rest_lo, hms_hi, ':', 1);
    let sec = part_u32_in(cs, rest_lo, hms_hi, ':', 2);
    let (hour, min, sec) = match (hour, min, sec) {
        (Some(h), Some(m), Some(s)) => (h, m, s),
        _ => return Err(message("invalid RFC3339 time: ", cs, ta, tb)),
    };
    let nanos = match frac {
        Some(f) => fraction_nanos(cs, f, clock_hi),
        None => Some(0),
    };
    match nanos {
        Some(n) => Ok((year, month, day, hour, min, sec, n)),
        None => Err(message("invalid RFC3339 fraction: ", cs, ta, tb)),
    }
}

/// Whether cutting the fraction `cs[lo..hi]` at its ninth byte splits a
/// character.
fn cut_splits_char(cs: &Vec<char>, lo: usize, hi: usize) -> (b: bool)
    requires
        lo <= hi <= cs@.len(),
    ensures
        b == fraction_cut_splits_char(cs@.subrange(lo as int, hi as int)),
{
    let ghost f = cs@.subrange(lo as int, hi as int);
    let m: usize = if hi - lo < 9 {
        hi - lo
    } else {
        9
    };
    let mut k: usize = 0;
    while k < m
        invariant
            k <= m,
            m as int == min_int(9, f.len() as int),
            lo <= hi <= cs@.len(),
            f == cs@.subrange(lo as int, hi as int),
            forall|i: int| 0 <= i < k ==> is_ascii_char(#[trigger] f[i]),
        decreases m - k,
    {
        let c = cs[lo + k];
        proof {
            assert(f[k as int] == c);
        }
        if (c as u32) >= 0x80 {
            let w: usize = if (c as u32) < 0x800 {
                2
            } else if (c as u32) < 0x10000 {
                3
            } else {
                4
            };
            let b = k + w > 9;
            proof {
                assert(w as int == utf8_width(c));
                if !b {
                    assert forall|j: int|
                        !(0 <= j < min_int(9, f.len() as int) && (forall|i: int|
                            0 <= i < j ==> is_ascii_char(#[trigger] f[i])) && !is_ascii_char(f[j]) && j
                            + utf8_width(f[j]) > 9) by {
                        if 0 <= j < min_int(9, f.len() as int) && (forall|i: int|
                            0 <= i < j ==> is_ascii_char(#[trigger] f[i])) && !is_ascii_char(f[j]) {
                            if j < k {
                            } else if j > k {
                                assert(is_ascii_char(f[k as int]));
                            }
                        }
                    }
                }
            }
            return b;
        }
        k += 1;
    }
    false
}

/// Whether [`parse_rfc3339`] would panic on `text`: a caller tests this
/// before it calls.
pub fn parse_rfc3339_would_panic(text: &str) -> (b: bool)
    ensures
        b == parse_rfc3339_panics(text@),
{
    let cs = chars_of(text);
    let (ta, tb) = trim_bounds(&cs);
    let ghost t = cs@.subrange(ta as int, tb as int);
    let ti = match find_char(&cs, ta, tb, 'T') {
        Some(i) => i,
        None => match find_char(&cs, ta, tb, 't') {
            Some(i) => i,
            None => return false,
        },
    };
    proof {
        assert(split_date_time(t) == Some(
            (cs@.subrange(ta as int, ti as int), cs@.subrange(ti + 1, tb as int)),
        ));
    }
    let year = match part_range(&cs, ta, ti, '-', 0) {
        Some((a, b)) => parse_i32_in(&cs, a, b),
        None => None,
    };
    let month = part_u32_in(&cs, ta, ti, '-', 1);
    let day = part_u32_in(&cs, ta, ti, '-', 2);
    if year.is_none() || month.is_none() || day.is_none() {
        return false;
    }
    let rest_lo = ti + 1;
    let clock_hi = if rest_lo < tb && (cs[tb - 1] == 'Z' || cs[tb - 1] == 'z') {
        tb - 1
    } else {
        proof {
            let rest = cs@.subrange(rest_lo as int, tb as int);
            if rest.len() > 0 {
                assert(rest.last() == cs@[tb - 1]);
            }
        }
        return false;
    };
    proof {
        let rest = cs@.subrange(rest_lo as int, tb as int);
        assert(rest.last() == cs@[tb - 1]);
        assert(rest.drop_last() =~= cs@.subrange(rest_lo as int, clock_hi as int));
    }
    let (hms_hi, frac) = match find_char(&cs, rest_lo, clock_hi, '.') {
        Some(i) => (i, Some(i + 1)),
        None => (clock_hi, None),
    };
    let hour = part_u32_in(&cs, rest_lo, hms_hi, ':', 0);
    let min = part_u32_in(&cs, rest_lo, hms_hi, ':', 1);
    let sec = part_u32_in(&cs, rest_lo, hms_hi, ':', 2);
    if hour.is_none() || min.is_none() || sec.is_none() {
        return false;
    }
    match frac {
        Some(f) => f < clock_hi && cut_splits_char(&cs, f, clock_hi),
        None => false,
    }
}

/// Seconds since the epoch of the given date and clock time.
fn rfc3339_secs(
    cs: &Vec<char>,
    ta: usize,
    tb: usize,
    year: i32,
    month: u32,
    day: u32,
    hour: u32,
    min: u32,
    sec: u32,
) -> (r: Result<u64, String>)
    requires
        ta <= tb <= cs@.len(),
    ensures
        match (r, rfc3339_secs_spec(cs@.subrange(ta as int, tb as int), year, month, day, hour, min, sec)) {
            (Ok(f), Ok(g)) => f == g,
            (Err(msg), Err(m)) => msg@ == m,
            _ => false,
        },
{
    let days = match days_from_civil(year, month, day) {
        Ok(days) => days,
        Err(msg) => return Err(msg),
    };
    let secs = match days.checked_mul(86_400) {
        Some(a) => match a.checked_add(hour as i64 * 3600) {
            Some(b) => match b.checked_add(min as i64 * 60) {
                Some(c) => c.checked_add(sec as i64),
                None => None,
            },
            None => None,
        },
        None => None,
    };
    let secs = match secs {
        Some(s) => s,
        None => return Err(message("RFC3339 timestamp out of range: ", cs, ta, tb)),
    };
    if secs < 0 {
        return Err(message("RFC3339 timestamp before Unix epoch: ", cs, ta, tb));
    }
    Ok(secs as u64)
}

/// Reads an RFC 3339 UTC timestamp such as `2023-09-02T00:00:00.123456789Z`.
/// Surrounding whitespace is ignored, `t` and `z` may be lower case, and
/// fraction digits past the ninth are dropped.
pub fn parse_rfc3339(text: &str) -> (r: Result<Timestamp, String>)
    requires
        !parse_rfc3339_panics(text@),
    ensures
        match (r, parse_rfc3339_spec(text@)) {
            (Ok(t), Ok(u)) => t == u,
            (Err(msg), Err(m)) => msg@ == m,
            _ => false,
        },
{
    let cs = chars_of(text);
    let (ta, tb) = trim_bounds(&cs);
    match rfc3339_fields(&cs, ta, tb) {
        Err(msg) => Err(msg),
        Ok((year, month, day, hour, min, sec, nanos)) => match rfc3339_secs(
            &cs,
            ta,
            tb,
            year,
            month,
            day,
            hour,
            min,
            sec,
        ) {
            Err(msg) => Err(msg),
            Ok(secs) => Ok(Timestamp { secs, nanos }),
        },
    }
}

} // verus!

verus! {

// ---------------------------------------------------------------------------
// Round trip
// ---------------------------------------------------------------------------

proof fn lemma_split_at(a: Seq<char>, c: char, b: Seq<char>)
    requires
        forall|i: int| 0 <= i < a.len() ==> a[i] != c,
    ensures
        split_once_spec(a + seq![c] + b, c) == Some((a, b)),
{
    let s = a + seq![c] + b;
    assert(is_first_of(s, c, a.len() as int)) by {
        assert forall|j: int| 0 <= j < a.len() implies s[j] != c by {
            assert(s[j] == a[j]);
        }
    }
    crate::text::lemma_first_unique(s, c, a.len() as int);
    assert(s.take(a.len() as int) =~= a);
    assert(s.skip(a.len() as int + 1) =~= b);
}

proof fn lemma_no_split(a: Seq<char>, c: char)
    requires
        forall|i: int| 0 <= i < a.len() ==> a[i] != c,
    ensures
        split_once_spec(a, c) is None,
        nth_part(a, c, 0) == Some(a),
{
}

proof fn lemma_zero_pad_digits(s: Seq<char>, w: nat)
    requires
        all_digits(s),
    ensures
        all_digits(zero_pad(s, w)),
        digits_value(zero_pad(s, w)) == digits_value(s),
        zero_pad(s, w).len() == if s.len() < w { w as int } else { s.len() as int },
{
    if s.len() < w {
        let z = Seq::new((w - s.len()) as nat, |k: int| '0');
        let p = z + s;
        assert forall|i: int| 0 <= i < p.len() implies is_digit(#[trigger] p[i]) by {
            if i >= z.len() {
                assert(p[i] == s[i - z.len()]);
            }
        }
        lemma_leading_zeros(z, s);
    }
}

proof fn lemma_leading_zeros(z: Seq<char>, s: Seq<char>)
    requires
        forall|i: int| 0 <= i < z.len() ==> z[i] == '0',
    ensures
        digits_value(z + s) == digits_value(s),
    decreases s.len(),
{
    if s.len() == 0 {
        assert(z + s =~= z);
        lemma_zeros_value(z);
    } else {
        lemma_leading_zeros(z, s.drop_last());
        assert((z + s).drop_last() =~= z + s.drop_last());
        assert((z + s).last() == s.last());
    }
}

proof fn lemma_zeros_value(z: Seq<char>)
    requires
        forall|i: int| 0 <= i < z.len() ==> z[i] == '0',
    ensures
        digits_value(z) == 0,
    decreases z.len(),
{
    if z.len() > 0 {
        lemma_zeros_value(z.drop_last());
    }
}

/// A zero-padded number reads back as that number.
proof fn lemma_parse_padded(n: nat, w: nat, max: int)
    requires
        n <= max,
    ensures
        crate::text::parse_unsigned_spec(padded(n, w), max) == Some(n as int),
        all_digits(padded(n, w)),
        padded(n, w).len() > 0,
{
    crate::text::lemma_decimal_digits(n);
    lemma_zero_pad_digits(decimal(n), w);
    let p = padded(n, w);
    assert(is_digit(p[0]));
}

pub open spec fn pow10(k: nat) -> nat
    decreases k,
{
    if k == 0 {
        1
    } else {
        10 * pow10((k - 1) as nat)
    }
}

proof fn lemma_decimal_len(n: nat, k: nat)
    requires
        k >= 1,
        n < pow10(k),
    ensures
        decimal(n).len() <= k,
    decreases k,
{
    if n >= 10 {
        assert(k >= 2) by {
            if k == 1 {
                assert(pow10(1) == 10) by {
                    reveal_with_fuel(pow10, 2);
                }
            }
        }
        assert(n / 10 < pow10((k - 1) as nat));
        lemma_decimal_len(n / 10, (k - 1) as nat);
    }
}

proof fn lemma_digits_not(s: Seq<char>)
    requires
        all_digits(s),
    ensures
        forall|i: int|
            0 <= i < s.len() ==> s[i] != 'T' && s[i] != 't' && s[i] != '-' && s[i] != ':' && s[i]
                != '.' && s[i] != 'Z' && s[i] != 'z' && !is_whitespace_spec(s[i]) && is_ascii_char(
                s[i],
            ),
{
    assert forall|i: int| 0 <= i < s.len() implies s[i] != 'T' && s[i] != 't' && s[i] != '-'
        && s[i] != ':' && s[i] != '.' && s[i] != 'Z' && s[i] != 'z' && !is_whitespace_spec(s[i])
        && is_ascii_char(s[i]) by {
        assert(is_digit(s[i]));
    }
}

/// The year of any day number from 1970 on is at least 1970.
proof fn lemma_civil_year_positive(z: int)
    requires
        z >= 0,
    ensures
        civil_spec(z).0 >= 1600,
{
}

/// Three pieces joined by `sep`, none holding `sep`, split back into those pieces.
proof fn lemma_three_parts(x: Seq<char>, y: Seq<char>, z: Seq<char>, sep: char)
    requires
        forall|i: int| 0 <= i < x.len() ==> x[i] != sep,
        forall|i: int| 0 <= i < y.len() ==> y[i] != sep,
        forall|i: int| 0 <= i < z.len() ==> z[i] != sep,
    ensures
        nth_part(x + seq![sep] + y + seq![sep] + z, sep, 0) == Some(x),
        nth_part(x + seq![sep] + y + seq![sep] + z, sep, 1) == Some(y),
        nth_part(x + seq![sep] + y + seq![sep] + z, sep, 2) == Some(z),
{
    let s = x + seq![sep] + y + seq![sep] + z;
    let tail = y + seq![sep] + z;
    assert(s =~= x + seq![sep] + tail);
    lemma_split_at(x, sep, tail);
    lemma_split_at(y, sep, z);
    lemma_no_split(z, sep);
    assert(nth_part(s, sep, 1) == nth_part(tail, sep, 0));
    assert(nth_part(s, sep, 2) == nth_part(tail, sep, 1));
    assert(nth_part(tail, sep, 1) == nth_part(z, sep, 0));
}

pub open spec fn fmt_date(t: Timestamp) -> Seq<char> {
    let (year, month, day, hour, min, sec) = civil_from_days_spec(t.secs);
    signed_padded(year as int, 4) + seq!['-'] + padded(month as nat, 2) + seq!['-'] + padded(
        day as nat,
        2,
    )
}

pub open spec fn fmt_hms(t: Timestamp) -> Seq<char> {
    let (year, month, day, hour, min, sec) = civil_from_days_spec(t.secs);
    padded(hour as nat, 2) + seq![':'] + padded(min as nat, 2) + seq![':'] + padded(sec as nat, 2)
}

pub open spec fn fmt_clock(t: Timestamp) -> Seq<char> {
    if t.nanos == 0 {
        fmt_hms(t)
    } else {
        fmt_hms(t) + seq!['.'] + padded(t.nanos as nat, 9)
    }
}

proof fn lemma_format_layout(t: Timestamp)
    requires
        civil_spec((t.secs / 86400) as int).0 <= i32::MAX,
    ensures
        format_rfc3339_spec(t) == fmt_date(t) + seq!['T'] + (fmt_clock(t) + seq!['Z']),
        trim_spec(format_rfc3339_spec(t)) == format_rfc3339_spec(t),
        forall|i: int| 0 <= i < fmt_date(t).len() ==> fmt_date(t)[i] != 'T',
{
    let z = (t.secs / 86400) as int;
    lemma_civil_year_positive(z);
    let (year, month, day, hour, min, sec) = civil_from_days_spec(t.secs);
    let ys = signed_padded(year as int, 4);
    let ms = padded(month as nat, 2);
    let ds = padded(day as nat, 2);
    lemma_parse_padded(year as nat, 4, i32::MAX as int);
    lemma_parse_padded(month as nat, 2, u32::MAX as int);
    lemma_parse_padded(day as nat, 2, u32::MAX as int);
    lemma_digits_not(ys);
    lemma_digits_not(ms);
    lemma_digits_not(ds);
    let f = format_rfc3339_spec(t);
    let date = fmt_date(t);
    assert forall|i: int| 0 <= i < date.len() implies date[i] != 'T' by {
        if i < ys.len() {
            assert(date[i] == ys[i]);
        } else if i == ys.len() {
        } else if i < ys.len() + 1 + ms.len() {
            assert(date[i] == ms[i - ys.len() - 1]);
        } else if i == ys.len() + 1 + ms.len() {
        } else {
            assert(date[i] == ds[i - ys.len() - 2 - ms.len()]);
        }
    }
    assert(f[0] == ys[0]);
    assert(f.last() == 'Z');
    assert(trim_start_spec(f) == f);
    assert(trim_end_spec(f) == f);
}

proof fn lemma_date_fields(t: Timestamp)
    requires
        civil_spec((t.secs / 86400) as int).0 <= i32::MAX,
    ensures
        ({
            let (year, month, day, hour, min, sec) = civil_from_days_spec(t.secs);
            &&& part_i32(fmt_date(t), '-', 0) == Some(year)
            &&& part_u32(fmt_date(t), '-', 1) == Some(month)
            &&& part_u32(fmt_date(t), '-', 2) == Some(day)
        }),
{
    let z = (t.secs / 86400) as int;
    lemma_civil_year_positive(z);
    let (year, month, day, hour, min, sec) = civil_from_days_spec(t.secs);
    let ys = signed_padded(year as int, 4);
    let ms = padded(month as nat, 2);
    let ds = padded(day as nat, 2);
    lemma_parse_padded(year as nat, 4, i32::MAX as int);
    lemma_parse_padded(month as nat, 2, u32::MAX as int);
    lemma_parse_padded(day as nat, 2, u32::MAX as int);
    lemma_digits_not(ys);
    lemma_digits_not(ms);
    lemma_digits_not(ds);
    assert(ys[0] != '-');
    assert(crate::text::parse_i32_spec(ys) == Some(year));
    lemma_three_parts(ys, ms, ds, '-');
}

proof fn lemma_clock_fields(t: Timestamp)
    requires
        t.nanos < 1_000_000_000,
    ensures
        ({
            let (year, month, day, hour, min, sec) = civil_from_days_spec(t.secs);
            let (hms, frac) = split_fraction(fmt_clock(t));
            &&& hms == fmt_hms(t)
            &&& part_u32(hms, ':', 0) == Some(hour)
            &&& part_u32(hms, ':', 1) == Some(min)
            &&& part_u32(hms, ':', 2) == Some(sec)
            &&& match frac {
                Some(f) => f.len() > 0 && !fraction_cut_splits_char(f) && fraction_nanos_spec(f)
                    == Some(t.nanos),
                None => t.nanos == 0,
            }
        }),
{
    let (year, month, day, hour, min, sec) = civil_from_days_spec(t.secs);
    let hs = padded(hour as nat, 2);
    let mis = padded(min as nat, 2);
    let ss = padded(sec as nat, 2);
    let ns = padded(t.nanos as nat, 9);
    lemma_parse_padded(hour as nat, 2, u32::MAX as int);
    lemma_parse_padded(min as nat, 2, u32::MAX as int);
    lemma_parse_padded(sec as nat, 2, u32::MAX as int);
    lemma_parse_padded(t.nanos as nat, 9, u32::MAX as int);
    lemma_digits_not(hs);
    lemma_digits_not(mis);
    lemma_digits_not(ss);
    lemma_digits_not(ns);
    lemma_three_parts(hs, mis, ss, ':');
    let hms = fmt_hms(t);
    assert forall|i: int| 0 <= i < hms.len() implies hms[i] != '.' by {
        if i < hs.len() {
            assert(hms[i] == hs[i]);
        } else if i == hs.len() {
        } else if i < hs.len() + 1 + mis.len() {
            assert(hms[i] == mis[i - hs.len() - 1]);
        } else if i == hs.len() + 1 + mis.len() {
        } else {
            assert(hms[i] == ss[i - hs.len() - 2 - mis.len()]);
        }
    }
    if t.nanos == 0 {
        lemma_no_split(hms, '.');
    } else {
        lemma_split_at(hms, '.', ns);
        crate::text::lemma_decimal_digits(t.nanos as nat);
        assert(pow10(9) == 1_000_000_000) by {
            reveal_with_fuel(pow10, 10);
        }
        lemma_decimal_len(t.nanos as nat, 9);
        lemma_zero_pad_digits(decimal(t.nanos as nat), 9);
        assert(ns.len() == 9);
        assert(ns.take(9) + Seq::new(0, |k: int| '0') =~= ns);
        assert(!fraction_cut_splits_char(ns));
    }
}

/// A time of day in seconds splits into hours, minutes and seconds.
proof fn lemma_day_seconds(secs: u64)
    ensures
        secs == (secs / 86400) * 86400 + secs % 86400,
        secs % 86400 == ((secs % 86400) / 3600) * 3600 + (((secs % 86400) % 3600) / 60) * 60 + (secs % 86400)
            % 60,
{
    let rem = secs % 86400;
    assert(rem == (rem / 3600) * 3600 + rem % 3600);
    assert(rem % 3600 == ((rem % 3600) / 60) * 60 + (rem % 3600) % 60);
    assert((rem % 3600) % 60 == rem % 60) by {
        vstd::arithmetic::div_mod::lemma_mod_mod(rem as int, 60, 60);
    }
}

proof fn lemma_secs(t: Timestamp, text: Seq<char>)
    requires
        civil_spec((t.secs / 86400) as int).0 <= i32::MAX,
    ensures
        ({
            let (year, month, day, hour, min, sec) = civil_from_days_spec(t.secs);
            rfc3339_secs_spec(text, year, month, day, hour, min, sec) == Ok::<u64, Seq<char>>(
                t.secs,
            )
        }),
{
    let z = (t.secs / 86400) as int;
    law_civil_round_trip(z);
    lemma_civil_year_positive(z);
    lemma_day_seconds(t.secs);
    let (year, month, day, hour, min, sec) = civil_from_days_spec(t.secs);
    let days = days_from_civil_spec(year as int, month as int, day as int);
    assert(days == z);
}

/// A formatted timestamp reads back as the same time, for every time whose
/// year fits in an `i32` (beyond that the year printed is the narrowed one).
pub proof fn law_rfc3339_round_trip(t: Timestamp)
    requires
        t.nanos < 1_000_000_000,
        civil_spec((t.secs / 86400) as int).0 <= i32::MAX,
    ensures
        !parse_rfc3339_panics(format_rfc3339_spec(t)),
        parse_rfc3339_spec(format_rfc3339_spec(t)) == Ok::<Timestamp, Seq<char>>(t),
{
    let f = format_rfc3339_spec(t);
    lemma_format_layout(t);
    lemma_date_fields(t);
    lemma_clock_fields(t);
    let rest = fmt_clock(t) + seq!['Z'];
    lemma_split_at(fmt_date(t), 'T', rest);
    assert(split_date_time(f) == Some((fmt_date(t), rest)));
    assert(rest.drop_last() =~= fmt_clock(t));
    assert(strip_utc(rest) == Some(fmt_clock(t)));
    lemma_secs(t, f);
}

} // verus!
