//! UTC timestamps with nanosecond precision, and their canonical RFC-3339
//! rendering `YYYY-MM-DDTHH:MM:SS.nnnnnnnnnZ`, written and parsed by verified
//! code over a proleptic-Gregorian day count.
use vstd::prelude::*;

use crate::text::{
    all_digits, chars_to_string, char_to_digit, dec_padded, digits_value, lemma_concat_split,
    lemma_dec_padded_chars, lemma_dec_padded_value, lemma_pow10_mono, lemma_pow10_values, pow10,
    push_dec_padded, str_to_chars,
};

verus! {

/// A UTC instant: seconds since the epoch and a sub-second in nanoseconds.
#[derive(Clone, Copy, Debug, PartialEq, Eq, Structural)]
pub struct Timestamp {
    /// Whole seconds since 1970-01-01T00:00:00Z; negative before it.
    pub seconds: i64,
    /// Nanoseconds within the second.
    pub nanos: u32,
}

/// A leap year in the proleptic Gregorian calendar.
pub open spec fn is_leap(y: int) -> bool {
    y % 4 == 0 && (y % 100 != 0 || y % 400 == 0)
}

/// Days in a year.
pub open spec fn days_in_year(y: int) -> int {
    if is_leap(y) {
        366
    } else {
        365
    }
}

/// Days in years `0..y`.
pub open spec fn days_before_year(y: int) -> int
    decreases y,
{
    if y <= 0 {
        0
    } else {
        days_before_year(y - 1) + days_in_year(y - 1)
    }
}

/// Days in a month, `m` counted from 1.
pub open spec fn days_in_month(y: int, m: int) -> int {
    if m == 2 {
        if is_leap(y) {
            29
        } else {
            28
        }
    } else if m == 4 || m == 6 || m == 9 || m == 11 {
        30
    } else {
        31
    }
}

/// Days in months `1..m` of year `y`.
pub open spec fn days_before_month(y: int, m: int) -> int
    decreases m,
{
    if m <= 1 {
        0
    } else {
        days_before_month(y, m - 1) + days_in_month(y, m - 1)
    }
}

/// Days from 0000-01-01 to the given civil date.
pub open spec fn civil_to_days(y: int, mo: int, d: int) -> int {
    days_before_year(y) + days_before_month(y, mo) + (d - 1)
}

/// Seconds from 0000-01-01T00:00:00Z to the instant.
pub open spec fn ts_total(ts: Timestamp) -> int {
    ts.seconds + days_before_year(1970) * 86400
}

/// A timestamp the canonical rendering covers: years 0000 through 9999.
pub open spec fn ts_valid(ts: Timestamp) -> bool {
    &&& ts.nanos < 1_000_000_000
    &&& 0 <= ts_total(ts)
    &&& ts_total(ts) < days_before_year(10000) * 86400
}

/// In-range civil fields.
pub open spec fn fields_valid(y: int, mo: int, d: int, h: int, mi: int, s: int, ns: int) -> bool {
    &&& 0 <= y < 10000
    &&& 1 <= mo <= 12
    &&& 1 <= d <= days_in_month(y, mo)
    &&& 0 <= h < 24
    &&& 0 <= mi < 60
    &&& 0 <= s < 60
    &&& 0 <= ns < 1_000_000_000
}

/// The instant a set of civil fields denotes.
pub open spec fn ts_of_fields(y: int, mo: int, d: int, h: int, mi: int, s: int, ns: int)
    -> Timestamp {
    Timestamp {
        seconds: (civil_to_days(y, mo, d) * 86400 + h * 3600 + mi * 60 + s - days_before_year(1970)
            * 86400) as i64,
        nanos: ns as u32,
    }
}

/// Whether the civil fields decompose the timestamp.
pub open spec fn is_decomp(ts: Timestamp, y: int, mo: int, d: int, h: int, mi: int, s: int)
    -> bool {
    &&& fields_valid(y, mo, d, h, mi, s, ts.nanos as int)
    &&& civil_to_days(y, mo, d) * 86400 + h * 3600 + mi * 60 + s == ts_total(ts)
}

/// The canonical rendering of civil fields.
pub open spec fn rfc3339_render(y: int, mo: int, d: int, h: int, mi: int, s: int, ns: int)
    -> Seq<char> {
    dec_padded(y, 4) + seq!['-'] + dec_padded(mo, 2) + seq!['-'] + dec_padded(d, 2) + seq!['T']
        + dec_padded(h, 2) + seq![':'] + dec_padded(mi, 2) + seq![':'] + dec_padded(s, 2)
        + seq!['.'] + dec_padded(ns, 9) + seq!['Z']
}

/// Day counts never decrease with the year, by at least 365 a year.
pub proof fn lemma_days_before_year_mono(a: int, b: int)
    requires
        a <= b,
    ensures
        days_before_year(a) <= days_before_year(b),
        a >= 0 ==> days_before_year(a) + 365 * (b - a) <= days_before_year(b),
        days_before_year(b) <= days_before_year(a) + 366 * (b - a),
    decreases b - a,
{
    if a < b {
        lemma_days_before_year_mono(a, b - 1);
    }
}

/// Days within the year stay below its length.
pub proof fn lemma_month_day_bound(y: int, mo: int, d: int)
    requires
        1 <= mo <= 12,
        1 <= d <= days_in_month(y, mo),
    ensures
        0 <= days_before_month(y, mo) + (d - 1) < days_in_year(y),
        days_before_month(y, 12) + days_in_month(y, 12) == days_in_year(y),
        days_before_month(y, mo) >= 0,
{
    reveal_with_fuel(days_before_month, 13);
}

/// A valid set of civil fields denotes a valid timestamp.
pub proof fn lemma_fields_ts_valid(y: int, mo: int, d: int, h: int, mi: int, s: int, ns: int)
    requires
        fields_valid(y, mo, d, h, mi, s, ns),
    ensures
        ts_valid(ts_of_fields(y, mo, d, h, mi, s, ns)),
        is_decomp(ts_of_fields(y, mo, d, h, mi, s, ns), y, mo, d, h, mi, s),
        ts_of_fields(y, mo, d, h, mi, s, ns).nanos == ns,
        ts_of_fields(y, mo, d, h, mi, s, ns).seconds == civil_to_days(y, mo, d) * 86400 + h * 3600
            + mi * 60 + s - days_before_year(1970) * 86400,
{
    lemma_month_day_bound(y, mo, d);
    lemma_days_before_year_mono(0, y);
    lemma_days_before_year_mono(y + 1, 10000);
    assert(days_before_year(y + 1) == days_before_year(y) + days_in_year(y));
    let days = civil_to_days(y, mo, d);
    assert(0 <= days);
    assert(days < days_before_year(10000));
    let total = days * 86400 + h * 3600 + mi * 60 + s;
    assert(0 <= total);
    assert(total < (days + 1) * 86400);
    assert((days + 1) * 86400 <= days_before_year(10000) * 86400);
    lemma_days_before_year_mono(0, 1970);
    lemma_days_before_year_mono(1970, 10000);
    assert(i64::MIN <= total - days_before_year(1970) * 86400 <= i64::MAX);
}

/// Decides leap years.
pub fn is_leap_year(y: u32) -> (r: bool)
    ensures
        r == is_leap(y as int),
{
    y % 4 == 0 && (y % 100 != 0 || y % 400 == 0)
}

/// Days in a year, executable.
pub fn days_in_year_x(y: u32) -> (r: u32)
    ensures
        r == days_in_year(y as int),
{
    if is_leap_year(y) {
        366
    } else {
        365
    }
}

/// Days in a month, executable.
pub fn days_in_month_x(y: u32, m: u32) -> (r: u32)
    ensures
        r == days_in_month(y as int, m as int),
{
    if m == 2 {
        if is_leap_year(y) {
            29
        } else {
            28
        }
    } else if m == 4 || m == 6 || m == 9 || m == 11 {
        30
    } else {
        31
    }
}

/// Days in years `0..y`, executable.
pub fn days_before_year_x(y: u32) -> (r: u64)
    requires
        y <= 10000,
    ensures
        r == days_before_year(y as int),
{
    let mut acc: u64 = 0;
    let mut i: u32 = 0;
    while i < y
        invariant
            0 <= i <= y <= 10000,
            acc == days_before_year(i as int),
            acc <= 366 * (i as u64),
        decreases y - i,
    {
        acc = acc + days_in_year_x(i) as u64;
        i += 1;
    }
    acc
}

/// Days in months `1..m` of year `y`, executable.
pub fn days_before_month_x(y: u32, m: u32) -> (r: u32)
    requires
        1 <= m <= 12,
    ensures
        r == days_before_month(y as int, m as int),
{
    let mut acc: u32 = 0;
    let mut i: u32 = 1;
    while i < m
        invariant
            1 <= i <= m <= 12,
            acc == days_before_month(y as int, i as int),
            acc <= 31 * (i as u32),
        decreases m - i,
    {
        acc = acc + days_in_month_x(y, i);
        i += 1;
    }
    acc
}

impl Timestamp {
    /// Orders instants by `(seconds, nanos)`.
    pub open spec fn spec_lt(self, other: Timestamp) -> bool {
        self.seconds < other.seconds || (self.seconds == other.seconds && self.nanos
            < other.nanos)
    }

    /// Decides the instant order.
    pub fn lt(&self, other: &Timestamp) -> (r: bool)
        ensures
            r == self.spec_lt(*other),
    {
        self.seconds < other.seconds || (self.seconds == other.seconds && self.nanos
            < other.nanos)
    }

    /// Decides validity for the canonical rendering.
    pub fn is_renderable(&self) -> (r: bool)
        ensures
            r == ts_valid(*self),
    {
        if self.nanos >= 1_000_000_000 {
            return false;
        }
        let epoch_days: u64 = days_before_year_x(1970);
        let limit_days: u64 = days_before_year_x(10000);
        proof {
            lemma_days_before_year_mono(0, 1970);
            lemma_days_before_year_mono(1970, 10000);
            lemma_days_before_year_mono(10000, 10000);
        }
        let offset: i64 = (epoch_days * 86400) as i64;
        if self.seconds < -offset {
            return false;
        }
        let limit: i64 = (limit_days * 86400) as i64;
        self.seconds < limit - offset
    }

    /// Renders the canonical RFC-3339 form of a valid instant.
    pub fn to_rfc3339(&self) -> (r: String)
        requires
            ts_valid(*self),
        ensures
            exists|y: int, mo: int, d: int, h: int, mi: int, s: int|
                is_decomp(*self, y, mo, d, h, mi, s) && r@ == rfc3339_render(
                    y,
                    mo,
                    d,
                    h,
                    mi,
                    s,
                    self.nanos as int,
                ),
    {
        proof {
            lemma_days_before_year_mono(0, 1970);
            lemma_days_before_year_mono(1970, 10000);
        }
        let epoch_days: u64 = days_before_year_x(1970);
        let offset: i64 = (epoch_days * 86400) as i64;
        let total: u64 = (self.seconds + offset) as u64;
        assert(total == ts_total(*self));
        let day: u64 = total / 86400;
        let sod: u64 = total % 86400;
        proof {
            vstd::arithmetic::div_mod::lemma_fundamental_div_mod(total as int, 86400);
            assert(day * 86400 + sod == total);
            assert(day < days_before_year(10000)) by {
                if day >= days_before_year(10000) {
                    assert(total >= days_before_year(10000) * 86400);
                }
            }
        }
        let h: u64 = sod / 3600;
        let rem_h: u64 = sod % 3600;
        let mi: u64 = rem_h / 60;
        let s: u64 = rem_h % 60;
        proof {
            vstd::arithmetic::div_mod::lemma_fundamental_div_mod(sod as int, 3600);
            vstd::arithmetic::div_mod::lemma_fundamental_div_mod(rem_h as int, 60);
            assert(h * 3600 + mi * 60 + s == sod);
            assert(h < 24) by {
                if h >= 24 {
                    assert(sod >= 24 * 3600);
                }
            }
        }
        // find the year by scanning from year 0
        let mut y: u32 = 0;
        let mut rem: u64 = day;
        while rem >= days_in_year_x(y) as u64
            invariant
                0 <= y <= 9999,
                days_before_year(y as int) + rem == day,
                day < days_before_year(10000),
            decreases rem,
        {
            rem = rem - days_in_year_x(y) as u64;
            y += 1;
            proof {
                if y > 9999 {
                    lemma_days_before_year_mono(10000, y as int);
                    assert(days_before_year(y as int) >= days_before_year(10000));
                }
            }
        }
        // find the month by scanning from January
        let mut mo: u32 = 1;
        let mut doy: u64 = rem;
        proof {
            lemma_month_day_bound(y as int, 1, 1);
        }
        while doy >= days_in_month_x(y, mo) as u64
            invariant
                1 <= mo <= 12,
                0 <= y <= 9999,
                days_before_month(y as int, mo as int) + doy == rem,
                rem < days_in_year(y as int),
            decreases 12 - mo,
        {
            proof {
                if mo == 12 {
                    lemma_month_day_bound(y as int, 12, 1);
                    assert(false);
                }
            }
            doy = doy - days_in_month_x(y, mo) as u64;
            mo += 1;
        }
        let d: u64 = doy + 1;
        let mut out: Vec<char> = Vec::new();
        push_dec_padded(&mut out, y as u64, 4);
        out.push('-');
        push_dec_padded(&mut out, mo as u64, 2);
        out.push('-');
        push_dec_padded(&mut out, d, 2);
        out.push('T');
        push_dec_padded(&mut out, h, 2);
        out.push(':');
        push_dec_padded(&mut out, mi, 2);
        out.push(':');
        push_dec_padded(&mut out, s, 2);
        out.push('.');
        push_dec_padded(&mut out, self.nanos as u64, 9);
        out.push('Z');
        proof {
            assert(civil_to_days(y as int, mo as int, d as int) == day);
            assert(is_decomp(*self, y as int, mo as int, d as int, h as int, mi as int, s as int));
            assert(out@ =~= rfc3339_render(
                y as int,
                mo as int,
                d as int,
                h as int,
                mi as int,
                s as int,
                self.nanos as int,
            ));
        }
        chars_to_string(&out)
    }
}

/// Separator characters stand at their canonical positions.
pub open spec fn sep_ok(v: Seq<char>) -> bool {
    &&& v.len() == 30
    &&& v[4] == '-'
    &&& v[7] == '-'
    &&& v[10] == 'T'
    &&& v[13] == ':'
    &&& v[16] == ':'
    &&& v[19] == '.'
    &&& v[29] == 'Z'
}

/// All seven digit windows hold digits.
pub open spec fn win_digits(v: Seq<char>) -> bool {
    &&& all_digits(v.subrange(0, 4))
    &&& all_digits(v.subrange(5, 7))
    &&& all_digits(v.subrange(8, 10))
    &&& all_digits(v.subrange(11, 13))
    &&& all_digits(v.subrange(14, 16))
    &&& all_digits(v.subrange(17, 19))
    &&& all_digits(v.subrange(20, 29))
}

/// The year a canonical rendering shows.
pub open spec fn f_y(v: Seq<char>) -> int {
    digits_value(v.subrange(0, 4))
}

/// The month shown.
pub open spec fn f_mo(v: Seq<char>) -> int {
    digits_value(v.subrange(5, 7))
}

/// The day shown.
pub open spec fn f_d(v: Seq<char>) -> int {
    digits_value(v.subrange(8, 10))
}

/// The hour shown.
pub open spec fn f_h(v: Seq<char>) -> int {
    digits_value(v.subrange(11, 13))
}

/// The minute shown.
pub open spec fn f_mi(v: Seq<char>) -> int {
    digits_value(v.subrange(14, 16))
}

/// The second shown.
pub open spec fn f_s(v: Seq<char>) -> int {
    digits_value(v.subrange(17, 19))
}

/// The nanosecond shown.
pub open spec fn f_ns(v: Seq<char>) -> int {
    digits_value(v.subrange(20, 29))
}

/// A well-formed canonical rendering: separators, digits, fields in range.
pub open spec fn rfc_wf(v: Seq<char>) -> bool {
    &&& sep_ok(v)
    &&& win_digits(v)
    &&& fields_valid(f_y(v), f_mo(v), f_d(v), f_h(v), f_mi(v), f_s(v), f_ns(v))
}

/// A 30-character string splits into its windows and separators.
proof fn lemma_v30_decomp(v: Seq<char>)
    requires
        v.len() == 30,
    ensures
        v == v.subrange(0, 4) + v.subrange(4, 5) + v.subrange(5, 7) + v.subrange(7, 8)
            + v.subrange(8, 10) + v.subrange(10, 11) + v.subrange(11, 13) + v.subrange(13, 14)
            + v.subrange(14, 16) + v.subrange(16, 17) + v.subrange(17, 19) + v.subrange(19, 20)
            + v.subrange(20, 29) + v.subrange(29, 30),
{
    assert(v.subrange(0, 5) =~= v.subrange(0, 4) + v.subrange(4, 5));
    assert(v.subrange(0, 7) =~= v.subrange(0, 5) + v.subrange(5, 7));
    assert(v.subrange(0, 8) =~= v.subrange(0, 7) + v.subrange(7, 8));
    assert(v.subrange(0, 10) =~= v.subrange(0, 8) + v.subrange(8, 10));
    assert(v.subrange(0, 11) =~= v.subrange(0, 10) + v.subrange(10, 11));
    assert(v.subrange(0, 13) =~= v.subrange(0, 11) + v.subrange(11, 13));
    assert(v.subrange(0, 14) =~= v.subrange(0, 13) + v.subrange(13, 14));
    assert(v.subrange(0, 16) =~= v.subrange(0, 14) + v.subrange(14, 16));
    assert(v.subrange(0, 17) =~= v.subrange(0, 16) + v.subrange(16, 17));
    assert(v.subrange(0, 19) =~= v.subrange(0, 17) + v.subrange(17, 19));
    assert(v.subrange(0, 20) =~= v.subrange(0, 19) + v.subrange(19, 20));
    assert(v.subrange(0, 29) =~= v.subrange(0, 20) + v.subrange(20, 29));
    assert(v =~= v.subrange(0, 29) + v.subrange(29, 30));
}

/// A canonical rendering satisfies the well-formedness predicate and shows
/// exactly the fields it was rendered from.
proof fn lemma_render_windows(
    v: Seq<char>,
    y: int,
    mo: int,
    d: int,
    h: int,
    mi: int,
    s: int,
    ns: int,
)
    requires
        fields_valid(y, mo, d, h, mi, s, ns),
        v == rfc3339_render(y, mo, d, h, mi, s, ns),
    ensures
        rfc_wf(v),
        f_y(v) == y,
        f_mo(v) == mo,
        f_d(v) == d,
        f_h(v) == h,
        f_mi(v) == mi,
        f_s(v) == s,
        f_ns(v) == ns,
{
    lemma_pow10_values();
    lemma_dec_padded_chars(y, 4);
    lemma_dec_padded_chars(mo, 2);
    lemma_dec_padded_chars(d, 2);
    lemma_dec_padded_chars(h, 2);
    lemma_dec_padded_chars(mi, 2);
    lemma_dec_padded_chars(s, 2);
    lemma_dec_padded_chars(ns, 9);
    assert(v.len() == 30);
    lemma_v30_decomp(v);
    let w0 = v.subrange(0, 4);
    let w1 = v.subrange(4, 5);
    let w2 = v.subrange(5, 7);
    let w3 = v.subrange(7, 8);
    let w4 = v.subrange(8, 10);
    let w5 = v.subrange(10, 11);
    let w6 = v.subrange(11, 13);
    let w7 = v.subrange(13, 14);
    let w8 = v.subrange(14, 16);
    let w9 = v.subrange(16, 17);
    let w10 = v.subrange(17, 19);
    let w11 = v.subrange(19, 20);
    let w12 = v.subrange(20, 29);
    let w13 = v.subrange(29, 30);
    let r0 = dec_padded(y, 4);
    let r1 = seq!['-'];
    let r2 = dec_padded(mo, 2);
    let r3 = seq!['-'];
    let r4 = dec_padded(d, 2);
    let r5 = seq!['T'];
    let r6 = dec_padded(h, 2);
    let r7 = seq![':'];
    let r8 = dec_padded(mi, 2);
    let r9 = seq![':'];
    let r10 = dec_padded(s, 2);
    let r11 = seq!['.'];
    let r12 = dec_padded(ns, 9);
    let r13 = seq!['Z'];
    lemma_concat_split(
        w0 + w1 + w2 + w3 + w4 + w5 + w6 + w7 + w8 + w9 + w10 + w11 + w12,
        w13,
        r0 + r1 + r2 + r3 + r4 + r5 + r6 + r7 + r8 + r9 + r10 + r11 + r12,
        r13,
    );
    lemma_concat_split(
        w0 + w1 + w2 + w3 + w4 + w5 + w6 + w7 + w8 + w9 + w10 + w11,
        w12,
        r0 + r1 + r2 + r3 + r4 + r5 + r6 + r7 + r8 + r9 + r10 + r11,
        r12,
    );
    lemma_concat_split(
        w0 + w1 + w2 + w3 + w4 + w5 + w6 + w7 + w8 + w9 + w10,
        w11,
        r0 + r1 + r2 + r3 + r4 + r5 + r6 + r7 + r8 + r9 + r10,
        r11,
    );
    lemma_concat_split(
        w0 + w1 + w2 + w3 + w4 + w5 + w6 + w7 + w8 + w9,
        w10,
        r0 + r1 + r2 + r3 + r4 + r5 + r6 + r7 + r8 + r9,
        r10,
    );
    lemma_concat_split(
        w0 + w1 + w2 + w3 + w4 + w5 + w6 + w7 + w8,
        w9,
        r0 + r1 + r2 + r3 + r4 + r5 + r6 + r7 + r8,
        r9,
    );
    lemma_concat_split(
        w0 + w1 + w2 + w3 + w4 + w5 + w6 + w7,
        w8,
        r0 + r1 + r2 + r3 + r4 + r5 + r6 + r7,
        r8,
    );
    lemma_concat_split(
        w0 + w1 + w2 + w3 + w4 + w5 + w6,
        w7,
        r0 + r1 + r2 + r3 + r4 + r5 + r6,
        r7,
    );
    lemma_concat_split(w0 + w1 + w2 + w3 + w4 + w5, w6, r0 + r1 + r2 + r3 + r4 + r5, r6);
    lemma_concat_split(w0 + w1 + w2 + w3 + w4, w5, r0 + r1 + r2 + r3 + r4, r5);
    lemma_concat_split(w0 + w1 + w2 + w3, w4, r0 + r1 + r2 + r3, r4);
    lemma_concat_split(w0 + w1 + w2, w3, r0 + r1 + r2, r3);
    lemma_concat_split(w0 + w1, w2, r0 + r1, r2);
    lemma_concat_split(w0, w1, r0, r1);
    lemma_dec_padded_value(y, 4);
    lemma_dec_padded_value(mo, 2);
    lemma_dec_padded_value(d, 2);
    lemma_dec_padded_value(h, 2);
    lemma_dec_padded_value(mi, 2);
    lemma_dec_padded_value(s, 2);
    lemma_dec_padded_value(ns, 9);
    assert(v[4] == w1[0]);
    assert(v[7] == w3[0]);
    assert(v[10] == w5[0]);
    assert(v[13] == w7[0]);
    assert(v[16] == w9[0]);
    assert(v[19] == w11[0]);
    assert(v[29] == w13[0]);
}

/// A well-formed string is the canonical rendering of the fields it shows.
proof fn lemma_windows_render(v: Seq<char>)
    requires
        rfc_wf(v),
    ensures
        v == rfc3339_render(f_y(v), f_mo(v), f_d(v), f_h(v), f_mi(v), f_s(v), f_ns(v)),
{
    lemma_v30_decomp(v);
    crate::text::lemma_digits_canonical(v.subrange(0, 4));
    crate::text::lemma_digits_canonical(v.subrange(5, 7));
    crate::text::lemma_digits_canonical(v.subrange(8, 10));
    crate::text::lemma_digits_canonical(v.subrange(11, 13));
    crate::text::lemma_digits_canonical(v.subrange(14, 16));
    crate::text::lemma_digits_canonical(v.subrange(17, 19));
    crate::text::lemma_digits_canonical(v.subrange(20, 29));
    assert(v.subrange(4, 5) =~= seq!['-']);
    assert(v.subrange(7, 8) =~= seq!['-']);
    assert(v.subrange(10, 11) =~= seq!['T']);
    assert(v.subrange(13, 14) =~= seq![':']);
    assert(v.subrange(16, 17) =~= seq![':']);
    assert(v.subrange(19, 20) =~= seq!['.']);
    assert(v.subrange(29, 30) =~= seq!['Z']);
}

/// Reads `w` digits at `pos`, most significant first.
fn parse_digits(v: &Vec<char>, pos: usize, w: usize) -> (r: Option<u32>)
    requires
        pos + w <= v@.len(),
        w <= 9,
    ensures
        match r {
            Some(n) => all_digits(v@.subrange(pos as int, pos + w)) && n as int == digits_value(
                v@.subrange(pos as int, pos + w),
            ),
            None => !all_digits(v@.subrange(pos as int, pos + w)),
        },
{
    proof {
        lemma_pow10_values();
        lemma_pow10_mono(w as nat, 9);
    }
    let n: usize = v.len();
    let mut acc: u32 = 0;
    let mut i: usize = 0;
    while i < w
        invariant
            n == v@.len(),
            pos + w <= n,
            w <= 9,
            0 <= i <= w,
            all_digits(v@.subrange(pos as int, pos + i)),
            acc as int == digits_value(v@.subrange(pos as int, pos + i)),
            acc < pow10(i as nat),
            pow10(w as nat) <= 1_000_000_000,
        decreases w - i,
    {
        let win = Ghost(v@.subrange(pos as int, pos + i));
        match char_to_digit(v[pos + i]) {
            Some(dg) => {
                proof {
                    assert(pow10(((i + 1)) as nat) == 10 * pow10(i as nat));
                    lemma_pow10_mono((i + 1) as nat, w as nat);
                    let win1 = v@.subrange(pos as int, pos + i + 1);
                    assert(win1.drop_last() =~= win@);
                    assert(win1.last() == v@[pos + i]);
                    assert(forall|j: int|
                        0 <= j < win1.len() ==> crate::text::is_digit_char(#[trigger] win1[j]))
                        by {
                        assert(forall|j: int|
                            0 <= j < win@.len() ==> win1[j] == #[trigger] win@[j]);
                    }
                }
                acc = acc * 10 + dg as u32;
                i += 1;
            },
            None => {
                proof {
                    let full = v@.subrange(pos as int, pos + w);
                    assert(full[i as int] == v@[pos + i]);
                }
                return None;
            },
        }
    }
    assert(v@.subrange(pos as int, pos + w) == v@.subrange(pos as int, pos + i));
    Some(acc)
}

/// Reads the seven fields of a well-formed rendering.
fn parse_fields(v: &Vec<char>) -> (r: Option<(u32, u32, u32, u32, u32, u32, u32)>)
    ensures
        match r {
            Some(f) => rfc_wf(v@) && f.0 == f_y(v@) && f.1 == f_mo(v@) && f.2 == f_d(v@) && f.3
                == f_h(v@) && f.4 == f_mi(v@) && f.5 == f_s(v@) && f.6 == f_ns(v@),
            None => !rfc_wf(v@),
        },
{
    if v.len() != 30 {
        return None;
    }
    if v[4] != '-' {
        return None;
    }
    if v[7] != '-' {
        return None;
    }
    if v[10] != 'T' {
        return None;
    }
    if v[13] != ':' {
        return None;
    }
    if v[16] != ':' {
        return None;
    }
    if v[19] != '.' {
        return None;
    }
    if v[29] != 'Z' {
        return None;
    }
    let y = match parse_digits(v, 0, 4) {
        Some(n) => n,
        None => {
            return None;
        },
    };
    let mo = match parse_digits(v, 5, 2) {
        Some(n) => n,
        None => {
            return None;
        },
    };
    let d = match parse_digits(v, 8, 2) {
        Some(n) => n,
        None => {
            return None;
        },
    };
    let h = match parse_digits(v, 11, 2) {
        Some(n) => n,
        None => {
            return None;
        },
    };
    let mi = match parse_digits(v, 14, 2) {
        Some(n) => n,
        None => {
            return None;
        },
    };
    let s = match parse_digits(v, 17, 2) {
        Some(n) => n,
        None => {
            return None;
        },
    };
    let ns = match parse_digits(v, 20, 9) {
        Some(n) => n,
        None => {
            return None;
        },
    };
    if mo < 1 || mo > 12 {
        return None;
    }
    if d < 1 || d > days_in_month_x(y, mo) as u32 {
        return None;
    }
    if h >= 24 || mi >= 60 || s >= 60 {
        return None;
    }
    proof {
        lemma_pow10_values();
        crate::text::lemma_digits_value_bound(v@.subrange(0, 4));
        crate::text::lemma_digits_value_bound(v@.subrange(20, 29));
    }
    Some((y, mo, d, h, mi, s, ns))
}

impl Timestamp {
    /// Parses the canonical RFC-3339 form; rejects anything else.
    ///
    /// Together with `to_rfc3339` this closes the round trip: any rendering
    /// of valid civil fields parses back to the instant those fields denote.
    pub fn parse_rfc3339(text: &str) -> (r: Option<Timestamp>)
        ensures
            forall|y: int, mo: int, d: int, h: int, mi: int, s: int, ns: int|
                fields_valid(y, mo, d, h, mi, s, ns) && text@ == rfc3339_render(
                    y,
                    mo,
                    d,
                    h,
                    mi,
                    s,
                    ns,
                ) ==> r == Some(ts_of_fields(y, mo, d, h, mi, s, ns)),
            match r {
                Some(ts) => ts_valid(ts) && exists|y: int, mo: int, d: int, h: int, mi: int, s: int|
                    is_decomp(ts, y, mo, d, h, mi, s) && text@ == rfc3339_render(
                        y,
                        mo,
                        d,
                        h,
                        mi,
                        s,
                        ts.nanos as int,
                    ),
                None => true,
            },
    {
        let v = str_to_chars(text);
        match parse_fields(&v) {
            Some((y, mo, d, h, mi, s, ns)) => {
                proof {
                    lemma_pow10_values();
                    crate::text::lemma_digits_value_bound(v@.subrange(0, 4));
                    lemma_windows_render(v@);
                    lemma_fields_ts_valid(
                        y as int,
                        mo as int,
                        d as int,
                        h as int,
                        mi as int,
                        s as int,
                        ns as int,
                    );
                    lemma_days_before_year_mono(0, y as int);
                    lemma_days_before_year_mono(y as int, 10000);
                    lemma_days_before_year_mono(0, 1970);
                    lemma_days_before_year_mono(1970, 10000);
                }
                let epoch_days: u64 = days_before_year_x(1970);
                let offset: i64 = (epoch_days * 86400) as i64;
                let days: u64 = days_before_year_x(y) + days_before_month_x(y, mo) as u64 + (d
                    - 1) as u64;
                let secs: u64 = days * 86400 + (h as u64) * 3600 + (mi as u64) * 60 + s as u64;
                let seconds: i64 = (secs as i64) - offset;
                let ts = Timestamp { seconds, nanos: ns };
                proof {
                    assert(ts == ts_of_fields(
                        y as int,
                        mo as int,
                        d as int,
                        h as int,
                        mi as int,
                        s as int,
                        ns as int,
                    ));
                    assert forall|
                        y2: int,
                        mo2: int,
                        d2: int,
                        h2: int,
                        mi2: int,
                        s2: int,
                        ns2: int,
                    |
                        fields_valid(y2, mo2, d2, h2, mi2, s2, ns2) && text@ == rfc3339_render(
                            y2,
                            mo2,
                            d2,
                            h2,
                            mi2,
                            s2,
                            ns2,
                        ) implies Some(ts) == Some(ts_of_fields(y2, mo2, d2, h2, mi2, s2, ns2)) by {
                        lemma_render_windows(v@, y2, mo2, d2, h2, mi2, s2, ns2);
                    }
                }
                Some(ts)
            },
            None => {
                proof {
                    assert forall|
                        y2: int,
                        mo2: int,
                        d2: int,
                        h2: int,
                        mi2: int,
                        s2: int,
                        ns2: int,
                    |
                        !(fields_valid(y2, mo2, d2, h2, mi2, s2, ns2) && text@ == rfc3339_render(
                            y2,
                            mo2,
                            d2,
                            h2,
                            mi2,
                            s2,
                            ns2,
                        )) by {
                        if fields_valid(y2, mo2, d2, h2, mi2, s2, ns2) && text@ == rfc3339_render(
                            y2,
                            mo2,
                            d2,
                            h2,
                            mi2,
                            s2,
                            ns2,
                        ) {
                            lemma_render_windows(v@, y2, mo2, d2, h2, mi2, s2, ns2);
                        }
                    }
                }
                None
            },
        }
    }
}

} // verus!
