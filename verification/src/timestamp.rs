//! Timestamps: RFC 3339 date-times as they are written, and the UTC form
//! `YYYY-MM-DDTHH:MM:SS.mmmZ` they are stored and compared in.

use vstd::prelude::*;

use crate::text::{digit_char, digit_str};
use crate::value::is_digit;

verus! {

/// The value of an ASCII digit.
pub open spec fn dv(c: char) -> int {
    c as int - 48
}

/// Whether `s[from..to]` are all ASCII digits.
pub open spec fn digits_at(s: Seq<char>, from: int, to: int) -> bool {
    forall|i: int| from <= i < to ==> is_digit(#[trigger] s[i])
}

/// The number the `n` digits at `i` spell.
pub open spec fn num_at(s: Seq<char>, i: int, n: nat) -> int
    decreases n,
{
    if n == 0 {
        0
    } else {
        num_at(s, i, (n - 1) as nat) * 10 + dv(s[i + n - 1])
    }
}

/// `v` in exactly `w` decimal digits, zero padded.
pub open spec fn padded(v: int, w: nat) -> Seq<char>
    decreases w,
{
    if w == 0 {
        seq![]
    } else {
        padded(v / 10, (w - 1) as nat) + seq![digit_char((v % 10) as nat)]
    }
}

/// Whether `y` is a leap year of the Gregorian calendar.
pub open spec fn leap_year(y: int) -> bool {
    (y % 4 == 0 && y % 100 != 0) || y % 400 == 0
}

/// The number of days of month `m` of year `y`.
pub open spec fn days_in_month(y: int, m: int) -> int {
    if m == 2 {
        if leap_year(y) {
            29
        } else {
            28
        }
    } else if m == 4 || m == 6 || m == 9 || m == 11 {
        30
    } else {
        31
    }
}

/// Whether date and time fields name a moment: a month of the year, a day
/// of that month, an hour, a minute and a second.
pub open spec fn fields_valid(y: int, mo: int, d: int, h: int, mi: int, se: int) -> bool {
    &&& 0 <= y <= 9999
    &&& 1 <= mo <= 12
    &&& 1 <= d <= days_in_month(y, mo)
    &&& 0 <= h <= 23
    &&& 0 <= mi <= 59
    &&& 0 <= se <= 59
}

/// `YYYY-MM-DDTHH:MM:SS` at the start of `s`.
pub open spec fn date_time_shape(s: Seq<char>) -> bool {
    &&& s.len() >= 19
    &&& digits_at(s, 0, 4)
    &&& s[4] == '-'
    &&& digits_at(s, 5, 7)
    &&& s[7] == '-'
    &&& digits_at(s, 8, 10)
    &&& s[10] == 'T'
    &&& digits_at(s, 11, 13)
    &&& s[13] == ':'
    &&& digits_at(s, 14, 16)
    &&& s[16] == ':'
    &&& digits_at(s, 17, 19)
}

/// Whether the date and time at the start of `s` name a moment.
pub open spec fn date_time_valid(s: Seq<char>) -> bool {
    fields_valid(num_at(s, 0, 4), num_at(s, 5, 2), num_at(s, 8, 2), num_at(s, 11, 2), num_at(s, 14, 2), num_at(s, 17, 2))
}

/// The stored form: `YYYY-MM-DDTHH:MM:SS.mmmZ` naming a moment in UTC.
pub open spec fn canonical_timestamp(s: Seq<char>) -> bool {
    &&& s.len() == 24
    &&& date_time_shape(s)
    &&& date_time_valid(s)
    &&& s[19] == '.'
    &&& digits_at(s, 20, 23)
    &&& s[23] == 'Z'
}

/// The stored text of a moment.
pub open spec fn instant_text(y: int, mo: int, d: int, h: int, mi: int, se: int, ms: int) -> Seq<char> {
    padded(y, 4) + seq!['-'] + padded(mo, 2) + seq!['-'] + padded(d, 2) + seq!['T'] + padded(h, 2) + seq![':']
        + padded(mi, 2) + seq![':'] + padded(se, 2) + seq!['.'] + padded(ms, 3) + seq!['Z']
}

/// The day after `(y, m, d)`.
pub open spec fn next_day(y: int, m: int, d: int) -> (int, int, int) {
    if d < days_in_month(y, m) {
        (y, m, d + 1)
    } else if m < 12 {
        (y, m + 1, 1)
    } else {
        (y + 1, 1, 1)
    }
}

/// The day before `(y, m, d)`.
pub open spec fn prev_day(y: int, m: int, d: int) -> (int, int, int) {
    if d > 1 {
        (y, m, d - 1)
    } else if m > 1 {
        (y, m - 1, days_in_month(y, m - 1))
    } else {
        (y - 1, 12, 31)
    }
}

/// Where the zone of a written timestamp starts: its last character when
/// that is `Z`, else six characters from the end.
pub open spec fn zone_at(s: Seq<char>) -> int {
    if s.len() >= 1 && s.last() == 'Z' {
        s.len() - 1
    } else {
        s.len() - 6
    }
}

/// `Z`, or `+HH:MM` / `-HH:MM` with an hour and minute, ending `s` at `z`.
pub open spec fn zone_ok(s: Seq<char>, z: int) -> bool {
    if s[z] == 'Z' {
        z == s.len() - 1
    } else {
        &&& s[z] == '+' || s[z] == '-'
        &&& z + 6 == s.len()
        &&& digits_at(s, z + 1, z + 3)
        &&& s[z + 3] == ':'
        &&& digits_at(s, z + 4, z + 6)
        &&& num_at(s, z + 1, 2) <= 23
        &&& num_at(s, z + 4, 2) <= 59
    }
}

/// No fraction, or `.` and one to nine digits, between the seconds and `z`.
pub open spec fn frac_ok(s: Seq<char>, z: int) -> bool {
    z == 19 || (21 <= z <= 29 && s[19] == '.' && digits_at(s, 20, z))
}

/// The milliseconds of the fraction before `z`: its first three digits.
pub open spec fn millis_of(s: Seq<char>, z: int) -> int {
    if z == 19 {
        0
    } else {
        dv(s[20]) * 100 + (if z >= 22 {
            dv(s[21]) * 10
        } else {
            0
        }) + (if z >= 23 {
            dv(s[22])
        } else {
            0
        })
    }
}

/// The zone's offset from UTC in minutes.
pub open spec fn offset_of(s: Seq<char>, z: int) -> int {
    if s[z] == 'Z' {
        0
    } else {
        let m = num_at(s, z + 1, 2) * 60 + num_at(s, z + 4, 2);
        if s[z] == '-' {
            -m
        } else {
            m
        }
    }
}

/// A local date and time at `off` minutes from UTC, as the stored text of
/// the same moment in UTC; `None` when the year leaves `0000..=9999`.
pub open spec fn utc_text(y: int, mo: int, d: int, h: int, mi: int, se: int, ms: int, off: int) -> Option<Seq<char>> {
    let u = h * 60 + mi - off;
    let (y2, mo2, d2, u2) = if u < 0 {
        let p = prev_day(y, mo, d);
        (p.0, p.1, p.2, u + 1440)
    } else if u >= 1440 {
        let n = next_day(y, mo, d);
        (n.0, n.1, n.2, u - 1440)
    } else {
        (y, mo, d, u)
    };
    if 0 <= y2 <= 9999 {
        Some(instant_text(y2, mo2, d2, u2 / 60, u2 % 60, se, ms))
    } else {
        None
    }
}

/// What a write of `s` stores: the UTC form of an RFC 3339 date-time with
/// an optional fraction (milliseconds kept) and a `Z` or numeric zone.
pub open spec fn timestamp_write(s: Seq<char>) -> Option<Seq<char>> {
    let z = zone_at(s);
    if s.len() >= 20 && date_time_shape(s) && date_time_valid(s) && 19 <= z && zone_ok(s, z) && frac_ok(s, z) {
        utc_text(
            num_at(s, 0, 4),
            num_at(s, 5, 2),
            num_at(s, 8, 2),
            num_at(s, 11, 2),
            num_at(s, 14, 2),
            num_at(s, 17, 2),
            millis_of(s, z),
            offset_of(s, z),
        )
    } else {
        None
    }
}

/// `10` to the power `w`.
pub open spec fn ten_pow(w: nat) -> int
    decreases w,
{
    if w == 0 {
        1
    } else {
        10 * ten_pow((w - 1) as nat)
    }
}

proof fn lemma_num_at_same(s: Seq<char>, i: int, t: Seq<char>, j: int, n: nat)
    requires
        0 <= i,
        i + n <= s.len(),
        0 <= j,
        j + n <= t.len(),
        s.subrange(i, i + n) == t.subrange(j, j + n),
    ensures
        num_at(s, i, n) == num_at(t, j, n),
        digits_at(s, i, i + n) ==> digits_at(t, j, j + n),
    decreases n,
{
    if n > 0 {
        assert(s.subrange(i, i + n - 1) =~= s.subrange(i, i + n).subrange(0, n - 1));
        assert(t.subrange(j, j + n - 1) =~= t.subrange(j, j + n).subrange(0, n - 1));
        lemma_num_at_same(s, i, t, j, (n - 1) as nat);
        assert(s[i + n - 1] == s.subrange(i, i + n)[n - 1]);
        assert(t[j + n - 1] == t.subrange(j, j + n)[n - 1]);
    }
    if digits_at(s, i, i + n) {
        assert forall|k: int| j <= k < j + n implies is_digit(#[trigger] t[k]) by {
            assert(t[k] == t.subrange(j, j + n)[k - j]);
            assert(s[i + (k - j)] == s.subrange(i, i + n)[k - j]);
        }
    }
}

/// Digits padded back from the number they spell are those digits.
proof fn lemma_padded_num(s: Seq<char>, i: int, n: nat)
    requires
        0 <= i,
        i + n <= s.len(),
        digits_at(s, i, i + n),
    ensures
        padded(num_at(s, i, n), n) =~= s.subrange(i, i + n),
    decreases n,
{
    if n > 0 {
        lemma_padded_num(s, i, (n - 1) as nat);
        let a = num_at(s, i, (n - 1) as nat);
        let c = s[i + n - 1];
        let d = dv(c);
        assert(is_digit(c));
        assert((a * 10 + d) / 10 == a && (a * 10 + d) % 10 == d) by (nonlinear_arith)
            requires
                0 <= d < 10,
        ;
        assert(digit_char(d as nat) == c);
        assert(s.subrange(i, i + n) =~= s.subrange(i, i + n - 1) + seq![c]);
    }
}

/// A number below `10^w` padded to `w` digits spells itself back.
proof fn lemma_num_padded(v: int, w: nat)
    requires
        0 <= v < ten_pow(w),
    ensures
        padded(v, w).len() == w,
        digits_at(padded(v, w), 0, w as int),
        num_at(padded(v, w), 0, w) == v,
    decreases w,
{
    if w > 0 {
        let q = v / 10;
        let r = v % 10;
        assert(q * 10 + r == v && 0 <= r < 10 && 0 <= q < ten_pow((w - 1) as nat)) by (nonlinear_arith)
            requires
                0 <= v < 10 * ten_pow((w - 1) as nat),
                q == v / 10,
                r == v % 10,
        ;
        lemma_num_padded(q, (w - 1) as nat);
        let p = padded(q, (w - 1) as nat);
        let pw = padded(v, w);
        assert(pw == p + seq![digit_char(r as nat)]);
        assert(pw.subrange(0, w - 1) =~= p.subrange(0, w - 1));
        lemma_num_at_same(pw, 0, p, 0, (w - 1) as nat);
        assert(dv(pw[w - 1]) == r);
        assert(digits_at(pw, 0, w as int)) by {
            assert forall|k: int| 0 <= k < w implies is_digit(#[trigger] pw[k]) by {
                if k < w - 1 {
                    assert(pw[k] == p[k]);
                }
            }
        }
    }
}

/// Where each field of a moment's stored text stands.
proof fn lemma_instant_text_layout(y: int, mo: int, d: int, h: int, mi: int, se: int, ms: int)
    ensures
        ({
            let t = instant_text(y, mo, d, h, mi, se, ms);
            &&& t.len() == 24
            &&& t.subrange(0, 4) == padded(y, 4)
            &&& t[4] == '-'
            &&& t.subrange(5, 7) == padded(mo, 2)
            &&& t[7] == '-'
            &&& t.subrange(8, 10) == padded(d, 2)
            &&& t[10] == 'T'
            &&& t.subrange(11, 13) == padded(h, 2)
            &&& t[13] == ':'
            &&& t.subrange(14, 16) == padded(mi, 2)
            &&& t[16] == ':'
            &&& t.subrange(17, 19) == padded(se, 2)
            &&& t[19] == '.'
            &&& t.subrange(20, 23) == padded(ms, 3)
            &&& t[23] == 'Z'
        }),
{
    lemma_padded_len(y, 4);
    lemma_padded_len(mo, 2);
    lemma_padded_len(d, 2);
    lemma_padded_len(h, 2);
    lemma_padded_len(mi, 2);
    lemma_padded_len(se, 2);
    lemma_padded_len(ms, 3);
    let t = instant_text(y, mo, d, h, mi, se, ms);
    assert(t.subrange(0, 4) =~= padded(y, 4));
    assert(t.subrange(5, 7) =~= padded(mo, 2));
    assert(t.subrange(8, 10) =~= padded(d, 2));
    assert(t.subrange(11, 13) =~= padded(h, 2));
    assert(t.subrange(14, 16) =~= padded(mi, 2));
    assert(t.subrange(17, 19) =~= padded(se, 2));
    assert(t.subrange(20, 23) =~= padded(ms, 3));
}

proof fn lemma_padded_len(v: int, w: nat)
    ensures
        padded(v, w).len() == w,
    decreases w,
{
    if w > 0 {
        lemma_padded_len(v / 10, (w - 1) as nat);
    }
}

/// The field at `i` of `t` is `v` padded to `w` digits, with `v` below `10^w`.
proof fn lemma_field_reads(t: Seq<char>, i: int, v: int, w: nat)
    requires
        0 <= v < ten_pow(w),
        0 <= i,
        i + w <= t.len(),
        t.subrange(i, i + w) == padded(v, w),
    ensures
        digits_at(t, i, i + w),
        num_at(t, i, w) == v,
{
    lemma_num_padded(v, w);
    assert(padded(v, w).subrange(0, w as int) =~= padded(v, w));
    lemma_num_at_same(padded(v, w), 0, t, i, w);
}

/// The stored text of a moment whose fields are valid is in the stored form.
proof fn lemma_instant_text_canonical(y: int, mo: int, d: int, h: int, mi: int, se: int, ms: int)
    requires
        fields_valid(y, mo, d, h, mi, se),
        0 <= ms <= 999,
    ensures
        canonical_timestamp(instant_text(y, mo, d, h, mi, se, ms)),
{
    let t = instant_text(y, mo, d, h, mi, se, ms);
    lemma_instant_text_layout(y, mo, d, h, mi, se, ms);
    assert(ten_pow(2) == 100 && ten_pow(3) == 1000 && ten_pow(4) == 10000) by {
        reveal_with_fuel(ten_pow, 5);
    }
    lemma_field_reads(t, 0, y, 4);
    lemma_field_reads(t, 5, mo, 2);
    lemma_field_reads(t, 8, d, 2);
    lemma_field_reads(t, 11, h, 2);
    lemma_field_reads(t, 14, mi, 2);
    lemma_field_reads(t, 17, se, 2);
    lemma_field_reads(t, 20, ms, 3);
}

/// A timestamp already in the stored form is stored as it is.
pub proof fn law_stored_form_written_unchanged(s: Seq<char>)
    requires
        canonical_timestamp(s),
    ensures
        timestamp_write(s) == Some(s),
{
    let z = zone_at(s);
    assert(s.last() == s[23]);
    assert(z == 23);
    let h = num_at(s, 11, 2);
    let mi = num_at(s, 14, 2);
    let u = h * 60 + mi;
    assert(u / 60 == h && u % 60 == mi) by (nonlinear_arith)
        requires
            0 <= mi <= 59,
            u == h * 60 + mi,
    ;
    assert(millis_of(s, 23) == num_at(s, 20, 3)) by {
        reveal_with_fuel(num_at, 4);
    }
    lemma_padded_num(s, 0, 4);
    lemma_padded_num(s, 5, 2);
    lemma_padded_num(s, 8, 2);
    lemma_padded_num(s, 11, 2);
    lemma_padded_num(s, 14, 2);
    lemma_padded_num(s, 17, 2);
    lemma_padded_num(s, 20, 3);
    let t = instant_text(num_at(s, 0, 4), num_at(s, 5, 2), num_at(s, 8, 2), h, mi, num_at(s, 17, 2), num_at(s, 20, 3));
    lemma_instant_text_layout(num_at(s, 0, 4), num_at(s, 5, 2), num_at(s, 8, 2), h, mi, num_at(s, 17, 2), num_at(s, 20, 3));
    assert forall|k: int| 0 <= k < 24 implies #[trigger] t[k] == s[k] by {
        if k < 4 {
            assert(t[k] == t.subrange(0, 4)[k] && s[k] == s.subrange(0, 4)[k]);
        } else if 5 <= k < 7 {
            assert(t[k] == t.subrange(5, 7)[k - 5] && s[k] == s.subrange(5, 7)[k - 5]);
        } else if 8 <= k < 10 {
            assert(t[k] == t.subrange(8, 10)[k - 8] && s[k] == s.subrange(8, 10)[k - 8]);
        } else if 11 <= k < 13 {
            assert(t[k] == t.subrange(11, 13)[k - 11] && s[k] == s.subrange(11, 13)[k - 11]);
        } else if 14 <= k < 16 {
            assert(t[k] == t.subrange(14, 16)[k - 14] && s[k] == s.subrange(14, 16)[k - 14]);
        } else if 17 <= k < 19 {
            assert(t[k] == t.subrange(17, 19)[k - 17] && s[k] == s.subrange(17, 19)[k - 17]);
        } else if 20 <= k < 23 {
            assert(t[k] == t.subrange(20, 23)[k - 20] && s[k] == s.subrange(20, 23)[k - 20]);
        }
    }
    assert(t =~= s);
}

/// What a write of a timestamp stores is in the stored form.
pub proof fn law_written_timestamp_is_stored_form(s: Seq<char>)
    requires
        timestamp_write(s) is Some,
    ensures
        canonical_timestamp(timestamp_write(s).unwrap()),
{
    let z = zone_at(s);
    let y = num_at(s, 0, 4);
    let mo = num_at(s, 5, 2);
    let d = num_at(s, 8, 2);
    let h = num_at(s, 11, 2);
    let mi = num_at(s, 14, 2);
    let se = num_at(s, 17, 2);
    let ms = millis_of(s, z);
    let off = offset_of(s, z);
    if s[z] != 'Z' {
        lemma_num_bound(s, z + 1, 2);
        lemma_num_bound(s, z + 4, 2);
    }
    if z >= 21 {
        assert(is_digit(s[20]));
    }
    if z >= 22 {
        assert(is_digit(s[21]));
    }
    if z >= 23 {
        assert(is_digit(s[22]));
    }
    assert(-1439 <= off <= 1439);
    assert(0 <= ms <= 999);
    let u = h * 60 + mi - off;
    let (y2, mo2, d2, u2) = if u < 0 {
        let p = prev_day(y, mo, d);
        (p.0, p.1, p.2, u + 1440)
    } else if u >= 1440 {
        let n = next_day(y, mo, d);
        (n.0, n.1, n.2, u - 1440)
    } else {
        (y, mo, d, u)
    };
    assert(0 <= u2 < 1440);
    assert(0 <= u2 / 60 <= 23 && 0 <= u2 % 60 <= 59) by (nonlinear_arith)
        requires
            0 <= u2 < 1440,
    ;
    if u < 0 && d <= 1 && mo > 1 {
        assert(days_in_month(y, mo - 1) >= 28);
    }
    assert(fields_valid(y2, mo2, d2, u2 / 60, u2 % 60, se));
    lemma_instant_text_canonical(y2, mo2, d2, u2 / 60, u2 % 60, se, ms);
}

/// The digit `c` stands for, if it is one.
fn digit_value(c: char) -> (r: Option<i64>)
    ensures
        match r {
            Some(v) => is_digit(c) && v == dv(c) && 0 <= v <= 9,
            None => !is_digit(c),
        },
{
    if '0' <= c && c <= '9' {
        let v = (c as u32 - 48) as i64;
        Some(v)
    } else {
        None
    }
}

/// The number the `n` digits at `i` spell, when they are all digits.
fn number_at(value: &str, i: usize, n: usize) -> (r: Option<i64>)
    requires
        i + n <= value@.len(),
        value@.len() <= usize::MAX,
        n <= 4,
    ensures
        match r {
            Some(v) => digits_at(value@, i as int, i + n) && v == num_at(value@, i as int, n as nat) && 0 <= v,
            None => !digits_at(value@, i as int, i + n),
        },
    decreases n,
{
    if n == 0 {
        return Some(0);
    }
    let head = number_at(value, i, n - 1)?;
    proof {
        lemma_num_bound(value@, i as int, (n - 1) as nat);
    }
    let d = match digit_value(value.get_char(i + n - 1)) {
        Some(d) => d,
        None => {
            assert(!is_digit(value@[i + n - 1]));
            return None;
        },
    };
    assert(digits_at(value@, i as int, i + n));
    Some(head * 10 + d)
}

proof fn lemma_num_bound(s: Seq<char>, i: int, n: nat)
    requires
        n <= 4,
        digits_at(s, i, i + n),
    ensures
        0 <= num_at(s, i, n),
        num_at(s, i, n) < if n == 0 {
            1int
        } else if n == 1 {
            10int
        } else if n == 2 {
            100int
        } else if n == 3 {
            1000int
        } else {
            10000int
        },
    decreases n,
{
    if n > 0 {
        lemma_num_bound(s, i, (n - 1) as nat);
        assert(is_digit(s[i + n - 1]));
    }
}

/// The days of month `m` of year `y`.
fn month_days(y: i64, m: i64) -> (r: i64)
    requires
        0 <= y <= 10000,
    ensures
        r == days_in_month(y as int, m as int),
{
    if m == 2 {
        if (y % 4 == 0 && y % 100 != 0) || y % 400 == 0 {
            29
        } else {
            28
        }
    } else if m == 4 || m == 6 || m == 9 || m == 11 {
        30
    } else {
        31
    }
}

/// The date and time fields at the start of `value`, when it has the shape.
fn date_time_fields(value: &str) -> (r: Option<(i64, i64, i64, i64, i64, i64)>)
    requires
        value@.len() >= 19,
        value@.len() <= usize::MAX,
    ensures
        match r {
            Some(f) => date_time_shape(value@) && f.0 == num_at(value@, 0, 4) && f.1 == num_at(value@, 5, 2) && f.2
                == num_at(value@, 8, 2) && f.3 == num_at(value@, 11, 2) && f.4 == num_at(value@, 14, 2) && f.5
                == num_at(value@, 17, 2),
            None => !date_time_shape(value@),
        },
{
    let y = number_at(value, 0, 4)?;
    let mo = number_at(value, 5, 2)?;
    let d = number_at(value, 8, 2)?;
    let h = number_at(value, 11, 2)?;
    let mi = number_at(value, 14, 2)?;
    let se = number_at(value, 17, 2)?;
    if value.get_char(4) != '-' || value.get_char(7) != '-' || value.get_char(10) != 'T' || value.get_char(13) != ':'
        || value.get_char(16) != ':' {
        return None;
    }
    Some((y, mo, d, h, mi, se))
}

/// Whether the fields name a moment.
fn fields_ok(y: i64, mo: i64, d: i64, h: i64, mi: i64, se: i64) -> (b: bool)
    requires
        0 <= y <= 9999,
    ensures
        b == fields_valid(y as int, mo as int, d as int, h as int, mi as int, se as int),
{
    1 <= mo && mo <= 12 && 1 <= d && d <= month_days(y, mo) && 0 <= h && h <= 23 && 0 <= mi && mi <= 59 && 0 <= se
        && se <= 59
}

/// Whether `value` is in the stored form.
pub fn canonical_timestamp_ok(value: &str) -> (b: bool)
    ensures
        b == canonical_timestamp(value@),
{
    if value.unicode_len() != 24 {
        return false;
    }
    let (y, mo, d, h, mi, se) = match date_time_fields(value) {
        Some(f) => f,
        None => return false,
    };
    proof {
        lemma_num_bound(value@, 0, 4);
    }
    if !fields_ok(y, mo, d, h, mi, se) {
        return false;
    }
    if value.get_char(19) != '.' || value.get_char(23) != 'Z' {
        return false;
    }
    number_at(value, 20, 3).is_some()
}

/// Append `v` in exactly `w` digits.
fn push_padded(out: &mut String, v: i64, w: usize)
    requires
        0 <= v,
        w <= 4,
    ensures
        final(out)@ == old(out)@ + padded(v as int, w as nat),
    decreases w,
{
    if w == 0 {
        assert(padded(v as int, 0) =~= Seq::<char>::empty());
        assert(out@ =~= old(out)@ + padded(v as int, w as nat));
        return;
    }
    push_padded(out, v / 10, w - 1);
    out.append(digit_str((v % 10) as u64));
    assert(out@ =~= old(out)@ + padded(v as int, w as nat));
}

/// The day before a valid date.
fn day_before(y: i64, mo: i64, d: i64) -> (r: (i64, i64, i64))
    requires
        0 <= y <= 9999,
        1 <= mo <= 12,
    ensures
        r.0 == prev_day(y as int, mo as int, d as int).0,
        r.1 == prev_day(y as int, mo as int, d as int).1,
        r.2 == prev_day(y as int, mo as int, d as int).2,
{
    if d > 1 {
        (y, mo, d - 1)
    } else if mo > 1 {
        (y, mo - 1, month_days(y, mo - 1))
    } else {
        (y - 1, 12, 31)
    }
}

/// The day after a valid date.
fn day_after(y: i64, mo: i64, d: i64) -> (r: (i64, i64, i64))
    requires
        0 <= y <= 9999,
        1 <= mo <= 12,
        1 <= d <= 31,
    ensures
        r.0 == next_day(y as int, mo as int, d as int).0,
        r.1 == next_day(y as int, mo as int, d as int).1,
        r.2 == next_day(y as int, mo as int, d as int).2,
{
    if d < month_days(y, mo) {
        (y, mo, d + 1)
    } else if mo < 12 {
        (y, mo + 1, 1)
    } else {
        (y + 1, 1, 1)
    }
}

/// The stored text of a moment.
fn moment_text(y: i64, mo: i64, d: i64, h: i64, mi: i64, se: i64, ms: i64) -> (t: String)
    requires
        0 <= y,
        0 <= mo,
        0 <= d,
        0 <= h,
        0 <= mi,
        0 <= se,
        0 <= ms,
    ensures
        t@ == instant_text(y as int, mo as int, d as int, h as int, mi as int, se as int, ms as int),
{
    let mut t = String::new();
    let ghost start = t@;
    push_padded(&mut t, y, 4);
    t.append("-");
    push_padded(&mut t, mo, 2);
    t.append("-");
    push_padded(&mut t, d, 2);
    t.append("T");
    push_padded(&mut t, h, 2);
    t.append(":");
    push_padded(&mut t, mi, 2);
    t.append(":");
    push_padded(&mut t, se, 2);
    t.append(".");
    push_padded(&mut t, ms, 3);
    t.append("Z");
    proof {
        reveal_strlit("-");
        reveal_strlit("T");
        reveal_strlit(":");
        reveal_strlit(".");
        reveal_strlit("Z");
        assert(start =~= Seq::<char>::empty());
    }
    assert(t@ =~= instant_text(y as int, mo as int, d as int, h as int, mi as int, se as int, ms as int));
    t
}

/// Whether `value[from..to]` are all digits.
fn all_digits_between(value: &str, from: usize, to: usize) -> (b: bool)
    requires
        from <= to <= value@.len(),
    ensures
        b == digits_at(value@, from as int, to as int),
{
    let mut k = from;
    while k < to
        invariant
            from <= k <= to,
            to <= value@.len(),
            digits_at(value@, from as int, k as int),
        decreases to - k,
    {
        let c = value.get_char(k);
        if !('0' <= c && c <= '9') {
            return false;
        }
        k = k + 1;
    }
    true
}

/// The zone's offset in minutes, when `value` ends at `z` in a zone.
fn zone_offset(value: &str, z: usize, n: usize) -> (r: Option<i64>)
    requires
        n == value@.len(),
        n <= usize::MAX,
        z < n,
    ensures
        match r {
            Some(off) => zone_ok(value@, z as int) && off == offset_of(value@, z as int),
            None => !zone_ok(value@, z as int),
        },
{
    let zc = value.get_char(z);
    if zc == 'Z' {
        if z != n - 1 {
            return None;
        }
        return Some(0);
    }
    if !(zc == '+' || zc == '-') || n - z != 6 {
        return None;
    }
    let oh = number_at(value, z + 1, 2)?;
    if value.get_char(z + 3) != ':' {
        return None;
    }
    let om = number_at(value, z + 4, 2)?;
    if oh > 23 || om > 59 {
        return None;
    }
    let m = oh * 60 + om;
    if zc == '-' {
        Some(-m)
    } else {
        Some(m)
    }
}

/// The milliseconds of the fraction before `z`, when there is none or a
/// well-formed one.
fn fraction_millis(value: &str, z: usize) -> (r: Option<i64>)
    requires
        19 <= z < value@.len(),
        value@.len() <= usize::MAX,
    ensures
        match r {
            Some(ms) => frac_ok(value@, z as int) && ms == millis_of(value@, z as int) && 0 <= ms,
            None => !frac_ok(value@, z as int),
        },
{
    if z == 19 {
        return Some(0);
    }
    if z < 21 || z > 29 || value.get_char(19) != '.' {
        return None;
    }
    if !all_digits_between(value, 20, z) {
        return None;
    }
    let a = digit_value(value.get_char(20))?;
    let b = if z >= 22 {
        digit_value(value.get_char(21))?
    } else {
        0
    };
    let c = if z >= 23 {
        digit_value(value.get_char(22))?
    } else {
        0
    };
    Some(a * 100 + b * 10 + c)
}

/// A local moment at `off` minutes from UTC as the stored text of the same
/// moment in UTC, when its year stays in `0000..=9999`.
fn utc_moment(y: i64, mo: i64, d: i64, h: i64, mi: i64, se: i64, ms: i64, off: i64) -> (r: Option<String>)
    requires
        fields_valid(y as int, mo as int, d as int, h as int, mi as int, se as int),
        -1439 <= off <= 1439,
        0 <= ms <= 999,
    ensures
        match r {
            Some(t) => utc_text(y as int, mo as int, d as int, h as int, mi as int, se as int, ms as int, off as int)
                == Some(t@),
            None => utc_text(y as int, mo as int, d as int, h as int, mi as int, se as int, ms as int, off as int) is None,
        },
{
    let u = h * 60 + mi - off;
    let (y2, mo2, d2, u2) = if u < 0 {
        let p = day_before(y, mo, d);
        (p.0, p.1, p.2, u + 1440)
    } else if u >= 1440 {
        let q = day_after(y, mo, d);
        (q.0, q.1, q.2, u - 1440)
    } else {
        (y, mo, d, u)
    };
    if y2 < 0 || y2 > 9999 {
        return None;
    }
    assert(0 <= mo2 && 0 <= d2) by {
        if u < 0 && d <= 1 && mo > 1 {
            assert(days_in_month(y as int, mo - 1) >= 28);
        }
    }
    Some(moment_text(y2, mo2, d2, u2 / 60, u2 % 60, se, ms))
}

/// The stored form of a written timestamp: an RFC 3339 date-time with an
/// optional fraction and a `Z` or `±HH:MM` zone, moved to UTC and written
/// `YYYY-MM-DDTHH:MM:SS.mmmZ`; `None` when `value` is not one.
pub fn write_timestamp(value: &str) -> (r: Option<String>)
    ensures
        match r {
            Some(t) => timestamp_write(value@) == Some(t@),
            None => timestamp_write(value@) is None,
        },
{
    let n = value.unicode_len();
    if n < 20 {
        return None;
    }
    let (y, mo, d, h, mi, se) = date_time_fields(value)?;
    proof {
        lemma_num_bound(value@, 0, 4);
    }
    if !fields_ok(y, mo, d, h, mi, se) {
        return None;
    }
    let z: usize = if value.get_char(n - 1) == 'Z' {
        n - 1
    } else {
        n - 6
    };
    assert(z == zone_at(value@));
    if z < 19 {
        return None;
    }
    let off = zone_offset(value, z, n)?;
    let ms = fraction_millis(value, z)?;
    proof {
        if value@[z as int] != 'Z' {
            lemma_num_bound(value@, z + 1, 2);
            lemma_num_bound(value@, z + 4, 2);
        }
    }
    utc_moment(y, mo, d, h, mi, se, ms, off)
}

/// The month lengths of the proleptic Gregorian calendar: thirty days hath
/// September, April, June and November; February has 29 days in a year
/// divisible by 4 but not by 100, or by 400, and 28 otherwise; the rest have
/// 31. A year has 366 days when it is such a year and 365 otherwise, so no
/// timestamp names a 31st of a thirty-day month or a February day past its
/// length, and the day after the last of a month is the first of the next.
pub proof fn law_gregorian_month_lengths(y: int)
    ensures
        days_in_month(y, 1) == 31,
        days_in_month(y, 2) == if (y % 4 == 0 && y % 100 != 0) || y % 400 == 0 {
            29int
        } else {
            28int
        },
        days_in_month(y, 3) == 31,
        days_in_month(y, 4) == 30,
        days_in_month(y, 5) == 31,
        days_in_month(y, 6) == 30,
        days_in_month(y, 7) == 31,
        days_in_month(y, 8) == 31,
        days_in_month(y, 9) == 30,
        days_in_month(y, 10) == 31,
        days_in_month(y, 11) == 30,
        days_in_month(y, 12) == 31,
        days_in_month(y, 1) + days_in_month(y, 2) + days_in_month(y, 3) + days_in_month(y, 4) + days_in_month(y, 5)
            + days_in_month(y, 6) + days_in_month(y, 7) + days_in_month(y, 8) + days_in_month(y, 9)
            + days_in_month(y, 10) + days_in_month(y, 11) + days_in_month(y, 12) == if (y % 4 == 0 && y % 100
            != 0) || y % 400 == 0 {
            366int
        } else {
            365int
        },
        forall|m: int, h: int, mi: int, se: int|
            (m == 4 || m == 6 || m == 9 || m == 11) ==> !fields_valid(y, m, 31, h, mi, se),
        forall|m: int| 1 <= m < 12 ==> #[trigger] next_day(y, m, days_in_month(y, m)) == (y, m + 1, 1int),
{
}

} // verus!
