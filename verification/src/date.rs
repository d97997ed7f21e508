//! Civil dates from day counts, and the file header line that carries the date.
use vstd::prelude::*;
use vstd::utf8::{encode_utf8, valid_utf8};
use crate::bytes::push_all;
use crate::layout::string_of;
use crate::numbers::{decimal, push_decimal, push_decimal_padded, zero_pad};

verus! {

/// A leap year of the proleptic Gregorian calendar.
pub open spec fn is_leap(y: int) -> bool {
    (y % 4 == 0 && y % 100 != 0) || y % 400 == 0
}

/// The number of days in month `m` of year `y`.
pub open spec fn days_in_month(y: int, m: int) -> int {
    if m == 2 {
        if is_leap(y) {
            29
        } else {
            28
        }
    } else if m == 4 || m == 6 || m == 9 || m == 11 {
        30
    } else {
        31
    }
}

/// A real calendar date.
pub open spec fn valid_date(y: int, m: int, d: int) -> bool {
    1 <= m <= 12 && 1 <= d <= days_in_month(y, m)
}

/// The days in the first `yoe` years of a 400-year era whose years start in March.
pub open spec fn era_year_start(yoe: int) -> int {
    yoe * 365 + yoe / 4 - yoe / 100
}

/// The day of a March-based year on which month `mp` (0 = March) starts.
pub open spec fn month_start(mp: int) -> int {
    (153 * mp + 2) / 5
}

/// Days from 1970-01-01 to `y-m-d` in the proleptic Gregorian calendar, counted in 400-year
/// eras of 146097 days whose years start on 1 March.
pub open spec fn days_from_civil(y: int, m: int, d: int) -> int {
    let yy = if m <= 2 {
        y - 1
    } else {
        y
    };
    let era = yy / 400;
    let yoe = yy - era * 400;
    let mp = if m > 2 {
        m - 3
    } else {
        m + 9
    };
    let doe = era_year_start(yoe) + month_start(mp) + d - 1;
    era * 146097 + doe - 719468
}

/// The day count of 1 March of year `yy`, plus 719468.
pub open spec fn march_start(yy: int) -> int {
    (yy / 400) * 146097 + era_year_start(yy - (yy / 400) * 400)
}

/// From 1 March of one year to 1 March of the next there are 366 days when the next year is a
/// leap year (its February has 29 days), else 365.
proof fn lemma_march_step(y: int)
    ensures
        march_start(y) - march_start(y - 1) == (if is_leap(y) {
            366int
        } else {
            365int
        }),
{
    let yy = y - 1;
    let e = yy / 400;
    let r = yy % 400;
    vstd::arithmetic::div_mod::lemma_fundamental_div_mod(yy, 400);
    vstd::arithmetic::div_mod::lemma_mod_bound(yy, 400);
    assert(yy - e * 400 == r);
    if r < 399 {
        vstd::arithmetic::div_mod::lemma_fundamental_div_mod_converse(y, 400, e, r + 1);
        assert(y - e * 400 == r + 1);
        let q4 = (r + 1) / 4;
        vstd::arithmetic::div_mod::lemma_fundamental_div_mod(r + 1, 4);
        vstd::arithmetic::div_mod::lemma_mod_bound(r + 1, 4);
        vstd::arithmetic::div_mod::lemma_fundamental_div_mod_converse(
            y,
            4,
            e * 100 + q4,
            (r + 1) % 4,
        );
        let q100 = (r + 1) / 100;
        vstd::arithmetic::div_mod::lemma_fundamental_div_mod(r + 1, 100);
        vstd::arithmetic::div_mod::lemma_mod_bound(r + 1, 100);
        vstd::arithmetic::div_mod::lemma_fundamental_div_mod_converse(
            y,
            100,
            e * 4 + q100,
            (r + 1) % 100,
        );
        assert(y % 400 != 0);
        vstd::arithmetic::div_mod::lemma_fundamental_div_mod(r, 4);
        vstd::arithmetic::div_mod::lemma_mod_bound(r, 4);
        vstd::arithmetic::div_mod::lemma_fundamental_div_mod(r, 100);
        vstd::arithmetic::div_mod::lemma_mod_bound(r, 100);
        assert(march_start(y) == e * 146097 + era_year_start(r + 1));
        assert(march_start(yy) == e * 146097 + era_year_start(r));
    } else {
        vstd::arithmetic::div_mod::lemma_fundamental_div_mod_converse(y, 400, e + 1, 0);
        vstd::arithmetic::div_mod::lemma_fundamental_div_mod_converse(y, 4, (e + 1) * 100, 0);
        assert(era_year_start(0) == 0);
        assert(era_year_start(399) == 145731);
        assert(march_start(y) == (e + 1) * 146097);
        assert(march_start(yy) == e * 146097 + 145731);
    }
}

/// The epoch: 1970-01-01 is day 0.
pub proof fn law_epoch_is_day_zero()
    ensures
        days_from_civil(1970, 1, 1) == 0,
{
}

/// Consecutive dates are consecutive days: the day after a date that is not the last of its
/// month is the next day of the month; after the last day of a month comes the first of the
/// next month; after 31 December comes 1 January of the next year.
pub proof fn law_days_are_consecutive(y: int, m: int, d: int)
    requires
        valid_date(y, m, d),
    ensures
        d < days_in_month(y, m) ==> days_from_civil(y, m, d + 1) == days_from_civil(y, m, d) + 1,
        d == days_in_month(y, m) && m < 12 ==> days_from_civil(y, m + 1, 1) == days_from_civil(
            y,
            m,
            d,
        ) + 1,
        d == days_in_month(y, m) && m == 12 ==> days_from_civil(y + 1, 1, 1) == days_from_civil(
            y,
            m,
            d,
        ) + 1,
{
    if m == 2 && d == days_in_month(y, m) {
        lemma_march_step(y);
        assert(month_start(11) == 337);
        assert(month_start(0) == 0);
    }
    assert(month_start(0) == 0);
    assert(month_start(1) == 31);
    assert(month_start(2) == 61);
    assert(month_start(3) == 92);
    assert(month_start(4) == 122);
    assert(month_start(5) == 153);
    assert(month_start(6) == 184);
    assert(month_start(7) == 214);
    assert(month_start(8) == 245);
    assert(month_start(9) == 275);
    assert(month_start(10) == 306);
    assert(month_start(11) == 337);
}

proof fn lemma_year_of_era(doe: int)
    requires
        0 <= doe <= 146096,
    ensures
        ({
            let yoe = (doe - doe / 1460 + doe / 36524 - doe / 146096) / 365;
            &&& 0 <= yoe <= 399
            &&& era_year_start(yoe) <= doe
            &&& doe - era_year_start(yoe) <= 364 + (if ((yoe + 1) % 4 == 0 && (yoe + 1) % 100 != 0)
                || yoe == 399 {
                1int
            } else {
                0int
            })
        }),
{
}

proof fn lemma_month_of_year(doy: int)
    requires
        0 <= doy <= 365,
    ensures
        ({
            let mp = (5 * doy + 2) / 153;
            &&& 0 <= mp <= 11
            &&& month_start(mp) <= doy
            &&& mp < 11 ==> doy < month_start(mp + 1)
            &&& mp == 11 ==> doy - month_start(mp) <= 28
            &&& (mp < 11 ==> month_start(mp + 1) - month_start(mp) == days_in_month(
                1,
                if mp < 10 {
                    mp + 3
                } else {
                    mp - 9
                },
            ))
        }),
{
}

/// Hinnant's inverse of `days_from_civil`, step by step.
spec fn civil_parts(z0: int) -> (int, int, int) {
    let z = z0 + 719468;
    let era = z / 146097;
    let doe = z - era * 146097;
    let yoe = (doe - doe / 1460 + doe / 36524 - doe / 146096) / 365;
    let y = yoe + era * 400;
    let doy = doe - (365 * yoe + yoe / 4 - yoe / 100);
    let mp = (5 * doy + 2) / 153;
    let d = doy - (153 * mp + 2) / 5 + 1;
    let m = if mp < 10 {
        mp + 3
    } else {
        mp - 9
    };
    (if m <= 2 {
        y + 1
    } else {
        y
    }, m, d)
}

proof fn lemma_era_div(era: int, yoe: int)
    requires
        0 <= yoe < 400,
    ensures
        (era * 400 + yoe) / 400 == era,
        (era * 400 + yoe + 1) % 4 == (yoe + 1) % 4,
        (era * 400 + yoe + 1) % 100 == (yoe + 1) % 100,
        (era * 400 + yoe + 1) % 400 == (yoe + 1) % 400,
{
    vstd::arithmetic::div_mod::lemma_fundamental_div_mod_converse(era * 400 + yoe, 400, era, yoe);
    vstd::arithmetic::div_mod::lemma_mod_add_multiples_vanish(yoe + 1, 4);
    assert(era * 400 + yoe + 1 == (era * 100) * 4 + (yoe + 1)) by (nonlinear_arith);
    vstd::arithmetic::div_mod::lemma_mod_multiples_vanish(era * 100, yoe + 1, 4);
    assert(era * 400 + yoe + 1 == (era * 4) * 100 + (yoe + 1)) by (nonlinear_arith);
    vstd::arithmetic::div_mod::lemma_mod_multiples_vanish(era * 4, yoe + 1, 100);
    vstd::arithmetic::div_mod::lemma_mod_multiples_vanish(era, yoe + 1, 400);
}

/// The month and day from a day of a March-based year.
proof fn lemma_month_day(y: int, yoe: int, doy: int)
    requires
        0 <= yoe <= 399,
        0 <= doy <= 364 + (if ((yoe + 1) % 4 == 0 && (yoe + 1) % 100 != 0) || yoe == 399 {
            1int
        } else {
            0int
        }),
        (y + 1) % 4 == (yoe + 1) % 4,
        (y + 1) % 100 == (yoe + 1) % 100,
        (y + 1) % 400 == (yoe + 1) % 400,
    ensures
        ({
            let mp = (5 * doy + 2) / 153;
            let d = doy - (153 * mp + 2) / 5 + 1;
            let m = if mp < 10 {
                mp + 3
            } else {
                mp - 9
            };
            let year = if m <= 2 {
                y + 1
            } else {
                y
            };
            &&& valid_date(year, m, d)
            &&& month_start(if m > 2 {
                m - 3
            } else {
                m + 9
            }) + d - 1 == doy
        }),
{
    lemma_month_of_year(doy);
    let mp = (5 * doy + 2) / 153;
    let d = doy - (153 * mp + 2) / 5 + 1;
    if mp == 11 && d == 29 {
        assert(doy == 365);
        assert(is_leap(y + 1));
    }
}

#[verifier::rlimit(30)]
proof fn lemma_civil_parts(z0: int)
    ensures
        valid_date(civil_parts(z0).0, civil_parts(z0).1, civil_parts(z0).2),
        days_from_civil(civil_parts(z0).0, civil_parts(z0).1, civil_parts(z0).2) == z0,
{
    let z = z0 + 719468;
    let era = z / 146097;
    let doe = z - era * 146097;
    assert(0 <= doe <= 146096);
    lemma_year_of_era(doe);
    let yoe = (doe - doe / 1460 + doe / 36524 - doe / 146096) / 365;
    let y = yoe + era * 400;
    let doy = doe - (365 * yoe + yoe / 4 - yoe / 100);
    assert(doy == doe - era_year_start(yoe));
    lemma_era_div(era, yoe);
    assert(y == era * 400 + yoe);
    lemma_month_day(y, yoe, doy);
    let mp = (5 * doy + 2) / 153;
    let d = doy - (153 * mp + 2) / 5 + 1;
    let m = if mp < 10 {
        mp + 3
    } else {
        mp - 9
    };
    let year = if m <= 2 {
        y + 1
    } else {
        y
    };
    assert(civil_parts(z0) == (year, m, d));
    let yy = if m <= 2 {
        year - 1
    } else {
        year
    };
    assert(yy == y);
    assert(yy / 400 == era);
    assert(yy - era * 400 == yoe);
}

/// The civil date `(year, month, day)` of the day `z0` days after 1970-01-01.
#[verifier::rlimit(30)]
pub fn civil_from_days(z0: i64) -> (r: (i64, u32, u32))
    requires
        z0 <= i64::MAX - 719_468,
    ensures
        valid_date(r.0 as int, r.1 as int, r.2 as int),
        days_from_civil(r.0 as int, r.1 as int, r.2 as int) == z0,
{
    let z = z0 + 719_468;
    let era = (if z >= 0 {
        z
    } else {
        z - 146_096
    }) / 146_097;
    assert(era == z / 146_097);
    let doe = z - era * 146_097;
    assert(0 <= doe <= 146_096);
    proof {
        lemma_year_of_era(doe as int);
    }
    let yoe = (doe - doe / 1460 + doe / 36524 - doe / 146_096) / 365;
    assert(0 <= yoe <= 399);
    let y = yoe + era * 400;
    let doy = doe - (365 * yoe + yoe / 4 - yoe / 100);
    assert(0 <= doy <= 365) by {
        assert(doy == doe - era_year_start(yoe as int));
    }
    proof {
        lemma_month_of_year(doy as int);
    }
    let mp = (5 * doy + 2) / 153;
    assert(0 <= mp <= 11);
    let d = doy - (153 * mp + 2) / 5 + 1;
    let m = if mp < 10 {
        mp + 3
    } else {
        mp - 9
    };
    let year = if m <= 2 {
        y + 1
    } else {
        y
    };
    proof {
        lemma_civil_parts(z0 as int);
        assert(civil_parts(z0 as int) == (year as int, m as int, d as int));
    }
    (year, m as u32, d as u32)
}

/// The ASCII digits of `y` as `{:04}` prints it: zero-padded to four places, the sign counting
/// as one.
pub open spec fn year_field(y: int) -> Seq<u8> {
    if y < 0 {
        seq![45u8] + zero_pad(decimal((-y) as nat), 3)
    } else {
        zero_pad(decimal(y as nat), 4)
    }
}

/// `#mctx v1.1 | updated:`, the start of a file's first line.
pub open spec fn header_prefix() -> Seq<u8> {
    seq![
        35u8, 109u8, 99u8, 116u8, 120u8, 32u8, 118u8, 49u8, 46u8, 49u8, 32u8, 124u8, 32u8, 117u8,
        112u8, 100u8, 97u8, 116u8, 101u8, 100u8, 58u8,
    ]
}

/// `#mctx v1.1 | updated:YYYY-MM-DD`.
pub open spec fn header_line(y: int, m: int, d: int) -> Seq<u8> {
    header_prefix() + year_field(y) + seq![45u8] + zero_pad(decimal(m as nat), 2) + seq![45u8]
        + zero_pad(decimal(d as nat), 2)
}

/// Bytes below 128 are valid UTF-8.
pub proof fn lemma_ascii_valid(b: Seq<u8>)
    requires
        forall|i: int| 0 <= i < b.len() ==> b[i] < 128,
    ensures
        valid_utf8(b),
    decreases b.len(),
{
    if b.len() > 0 {
        let rest = b.subrange(1, b.len() as int);
        lemma_ascii_valid(rest);
        assert(vstd::utf8::pop_first_scalar(b) =~= rest);
    }
}

proof fn lemma_digits_ascii(n: nat, w: nat)
    ensures
        forall|i: int| 0 <= i < zero_pad(decimal(n), w).len() ==> zero_pad(decimal(n), w)[i] < 128,
{
    crate::numbers::lemma_decimal_digits(n);
    crate::numbers::lemma_zero_pad_value(decimal(n), w);
}

/// The file's first line for the date `y-m-d`.
#[verifier::rlimit(30)]
pub fn make_header(y: i64, m: u32, d: u32) -> (r: String)
    ensures
        encode_utf8(r@) == header_line(y as int, m as int, d as int),
{
    let prefix: [u8; 21] = [
        35, 109, 99, 116, 120, 32, 118, 49, 46, 49, 32, 124, 32, 117, 112, 100, 97, 116, 101, 100,
        58,
    ];
    assert(prefix@ =~= header_prefix());
    let mut out: Vec<u8> = Vec::new();
    push_all(&mut out, prefix.as_slice());
    let ghost p = out@;
    if y < 0 {
        out.push(45u8);
        let a: u128 = if y == i64::MIN {
            9_223_372_036_854_775_808u128
        } else {
            (-y) as u128
        };
        push_decimal_padded(&mut out, a, 3);
    } else {
        push_decimal_padded(&mut out, y as u128, 4);
    }
    let ghost q = out@;
    out.push(45u8);
    push_decimal_padded(&mut out, m as u128, 2);
    out.push(45u8);
    push_decimal_padded(&mut out, d as u128, 2);
    proof {
        assert(q =~= p + year_field(y as int));
        assert(out@ =~= header_line(y as int, m as int, d as int));
        lemma_digits_ascii(m as nat, 2);
        lemma_digits_ascii(d as nat, 2);
        if y < 0 {
            lemma_digits_ascii((-y) as nat, 3);
        } else {
            lemma_digits_ascii(y as nat, 4);
        }
        assert forall|i: int| 0 <= i < out@.len() implies out@[i] < 128 by {
            let yf = year_field(y as int);
            let mf = zero_pad(decimal(m as nat), 2);
            if i < 21 {
            } else if i < 21 + yf.len() {
                assert(out@[i] == yf[i - 21]);
            } else if i == 21 + yf.len() {
            } else if i < 22 + yf.len() + mf.len() {
                assert(out@[i] == mf[i - 22 - yf.len()]);
            } else if i == 22 + yf.len() + mf.len() {
            } else {
                assert(out@[i] == zero_pad(decimal(d as nat), 2)[i - 23 - yf.len() - mf.len()]);
            }
        }
        lemma_ascii_valid(out@);
    }
    string_of(out)
}

/// The civil date of the instant `secs` seconds after 1970-01-01T00:00:00 UTC: the date of
/// day `floor(secs / 86400)`.
pub fn date_of_seconds(secs: i64) -> (r: (i64, u32, u32))
    ensures
        valid_date(r.0 as int, r.1 as int, r.2 as int),
        days_from_civil(r.0 as int, r.1 as int, r.2 as int) == secs as int / 86400,
{
    let day: i64 = if secs >= 0 {
        secs / 86400
    } else {
        let t: i64 = -(secs + 1);
        let q: i64 = t / 86400;
        assert(-q - 1 == secs as int / 86400) by (nonlinear_arith)
            requires
                t == -(secs + 1),
                t >= 0,
                q == t / 86400,
        {
        }
        -q - 1
    };
    civil_from_days(day)
}

/// What follows the header line in a fresh document: an empty index and a checkpoint reading
/// `(notes…)`.
pub open spec fn skeleton_tail() -> Seq<u8> {
    seq![
        10u8, 37u8, 37u8, 73u8, 78u8, 68u8, 69u8, 88u8, 10u8, 37u8, 37u8, 69u8, 78u8, 68u8, 45u8,
        73u8, 78u8, 68u8, 69u8, 88u8, 10u8, 37u8, 37u8, 64u8, 99u8, 104u8, 101u8, 99u8, 107u8,
        112u8, 111u8, 105u8, 110u8, 116u8, 32u8, 33u8, 118u8, 111u8, 108u8, 97u8, 116u8, 105u8,
        108u8, 101u8, 32u8, 118u8, 58u8, 49u8, 10u8, 40u8, 110u8, 111u8, 116u8, 101u8, 115u8,
    ] + encode_utf8(seq!['\u{2026}']) + seq![41u8, 10u8, 37u8, 37u8, 69u8, 78u8, 68u8, 10u8]
}

/// A fresh document dated `y-m-d`: its header line, then `skeleton_tail`.
pub fn new_document(y: i64, m: u32, d: u32) -> (r: String)
    ensures
        encode_utf8(r@) == header_line(y as int, m as int, d as int) + skeleton_tail(),
{
    let header = make_header(y, m, d);
    let pre: [u8; 55] = [
        10, 37, 37, 73, 78, 68, 69, 88, 10, 37, 37, 69, 78, 68, 45, 73, 78, 68, 69, 88, 10, 37, 37,
        64, 99, 104, 101, 99, 107, 112, 111, 105, 110, 116, 32, 33, 118, 111, 108, 97, 116, 105,
        108, 101, 32, 118, 58, 49, 10, 40, 110, 111, 116, 101, 115,
    ];
    let post: [u8; 8] = [41, 10, 37, 37, 69, 78, 68, 10];
    let ell = crate::buffer::encode_char('\u{2026}');
    let hb = header.as_str().as_bytes();
    let n = hb.len();
    let mut out = crate::bytes::copy_range(hb, 0, n);
    assert(hb@.subrange(0, n as int) =~= hb@);
    push_all(&mut out, pre.as_slice());
    push_all(&mut out, ell.as_slice());
    push_all(&mut out, post.as_slice());
    proof {
        crate::unicode::lemma_str_valid(header@);
        crate::unicode::lemma_str_valid(seq!['\u{2026}']);
        assert forall|i: int| 0 <= i < pre@.len() implies pre@[i] < 128 by {}
        assert forall|i: int| 0 <= i < post@.len() implies post@[i] < 128 by {}
        lemma_ascii_valid(pre@);
        lemma_ascii_valid(post@);
        vstd::utf8::valid_utf8_concat(hb@, pre@);
        vstd::utf8::valid_utf8_concat(hb@ + pre@, ell@);
        vstd::utf8::valid_utf8_concat(hb@ + pre@ + ell@, post@);
        assert(out@ =~= hb@ + pre@ + ell@ + post@);
        assert(pre@ + ell@ + post@ =~= skeleton_tail());
        assert(out@ =~= header_line(y as int, m as int, d as int) + skeleton_tail());
    }
    string_of(out)
}

} // verus!
