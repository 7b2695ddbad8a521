//! Proleptic-Gregorian civil-date arithmetic (Howard Hinnant's
//! `days_from_civil` / `civil_from_days`), shared by every command that turns
//! a unix timestamp into a `YYYY-MM-DD` date or a date back into a day count.

use crate::text::{dec, fmt_u64, pad_left, push_char};
use vstd::prelude::*;

verus! {

/// Rust's `/` on signed integers: division rounding toward zero.
pub open spec fn tdiv(a: int, b: int) -> int {
    if a >= 0 {
        a / b
    } else {
        -((-a) / b)
    }
}

/// Days from 1970-01-01 to the civil date `y-m-d` (Hinnant's
/// `days_from_civil`, with Rust's rounding-toward-zero division).
pub open spec fn days_from_civil_spec(y: int, m: int, d: int) -> int {
    let y = if m <= 2 { y - 1 } else { y };
    let era = tdiv(if y >= 0 { y } else { y - 399 }, 400);
    let yoe = y - era * 400;
    let doy = tdiv(153 * (if m > 2 { m - 3 } else { m + 9 }) + 2, 5) + d - 1;
    let doe = yoe * 365 + tdiv(yoe, 4) - tdiv(yoe, 100) + doy;
    era * 146097 + doe - 719468
}

/// The civil date `(year, month, day)` that lies `z` days after 1970-01-01
/// (Hinnant's `civil_from_days`).
pub open spec fn civil_from_days_spec(days: int) -> (int, int, int) {
    let z = days + 719468;
    let era = tdiv(if z >= 0 { z } else { z - 146096 }, 146097);
    let doe = z - era * 146097;
    let yoe = tdiv(doe - tdiv(doe, 1460) + tdiv(doe, 36524) - tdiv(doe, 146096), 365);
    let y = yoe + era * 400;
    let doy = doe - (365 * yoe + tdiv(yoe, 4) - tdiv(yoe, 100));
    let mp = tdiv(5 * doy + 2, 153);
    let d = doy - tdiv(153 * mp + 2, 5) + 1;
    let m = if mp < 10 { mp + 3 } else { mp - 9 };
    let y = if m <= 2 { y + 1 } else { y };
    (y, m, d)
}

/// Bound on the magnitude of calendar fields this module computes with; far
/// beyond any date a repository or a log line carries, and small enough that
/// no intermediate product overflows `i64`.
pub open spec fn field_in_range(v: int) -> bool {
    -1_000_000_000_000_000 <= v <= 1_000_000_000_000_000
}

/// Days since 1970-01-01 of the civil date `y-m-d`.
pub fn days_from_civil(y: i64, m: i64, d: i64) -> (r: i64)
    requires
        field_in_range(y as int),
        field_in_range(m as int),
        field_in_range(d as int),
    ensures
        r == days_from_civil_spec(y as int, m as int, d as int),
{
    let y = if m <= 2 { y - 1 } else { y };
    let era = (if y >= 0 { y } else { y - 399 }) / 400;
    let yoe = y - era * 400;
    let doy = (153 * (if m > 2 { m - 3 } else { m + 9 }) + 2) / 5 + d - 1;
    let doe = yoe * 365 + yoe / 4 - yoe / 100 + doy;
    era * 146097 + doe - 719468
}

/// The civil date `days` days after 1970-01-01.
pub fn civil_from_days(days: i64) -> (r: (i64, i64, i64))
    requires
        field_in_range(days as int),
    ensures
        (r.0 as int, r.1 as int, r.2 as int) == civil_from_days_spec(days as int),
{
    let z = days + 719468;
    let era = (if z >= 0 { z } else { z - 146096 }) / 146097;
    let doe = z - era * 146097;
    let yoe = (doe - doe / 1460 + doe / 36524 - doe / 146096) / 365;
    let y = yoe + era * 400;
    let doy = doe - (365 * yoe + yoe / 4 - yoe / 100);
    let mp = (5 * doy + 2) / 153;
    let d = doy - (153 * mp + 2) / 5 + 1;
    let m = if mp < 10 { mp + 3 } else { mp - 9 };
    let y = if m <= 2 { y + 1 } else { y };
    (y, m, d)
}

/// What Rust's truncating `/` on a positive divisor satisfies.
proof fn lemma_trunc_div(a: int, b: int, q: int)
    requires
        b > 0,
        q == tdiv(a, b),
    ensures
        a >= 0 ==> a - b < q * b <= a,
        a < 0 ==> a <= q * b < a + b,
{
    if a >= 0 {
        vstd::arithmetic::div_mod::lemma_fundamental_div_mod(a, b);
        vstd::arithmetic::div_mod::lemma_mod_bound(a, b);
        assert(q * b == b * q) by (nonlinear_arith);
    } else {
        vstd::arithmetic::div_mod::lemma_fundamental_div_mod(-a, b);
        vstd::arithmetic::div_mod::lemma_mod_bound(-a, b);
        assert(q * b == -(b * ((-a) / b))) by (nonlinear_arith) requires q == -((-a) / b);
    }
}

/// `a.div_euclid(b)` for a positive divisor: division rounding down.
pub fn floor_div(a: i64, b: i64) -> (r: i64)
    requires
        b > 0,
    ensures
        r as int == (a as int) / (b as int),
{
    let q = a / b;
    proof { lemma_trunc_div(a as int, b as int, q as int); }
    let rem = a - q * b;
    if rem < 0 {
        proof {
            assert(a == (q - 1) * b + (rem + b)) by (nonlinear_arith) requires rem == a - q * b;
            vstd::arithmetic::div_mod::lemma_fundamental_div_mod_converse(a as int, b as int, q - 1, rem + b);
            assert(q > i64::MIN) by (nonlinear_arith) requires q * b > a, a >= i64::MIN, b >= 1;
        }
        q - 1
    } else {
        proof {
            assert(a == q * b + rem);
            vstd::arithmetic::div_mod::lemma_fundamental_div_mod_converse(a as int, b as int, q as int, rem as int);
        }
        q
    }
}

/// `a.rem_euclid(b)` for a positive divisor: the remainder in `0..b`.
pub fn floor_mod(a: i64, b: i64) -> (r: i64)
    requires
        b > 0,
    ensures
        r as int == (a as int) % (b as int),
{
    let q = a / b;
    proof { lemma_trunc_div(a as int, b as int, q as int); }
    let rem = a - q * b;
    if rem < 0 {
        proof {
            assert(a == (q - 1) * b + (rem + b)) by (nonlinear_arith) requires rem == a - q * b;
            vstd::arithmetic::div_mod::lemma_fundamental_div_mod_converse(a as int, b as int, q - 1, rem + b);
        }
        rem + b
    } else {
        proof {
            assert(a == q * b + rem);
            vstd::arithmetic::div_mod::lemma_fundamental_div_mod_converse(a as int, b as int, q as int, rem as int);
        }
        rem
    }
}

/// `format!("{:0w$}", v)`: sign-aware zero padding to `w` characters.
pub open spec fn zero_padded(v: int, w: nat) -> Seq<char> {
    if v < 0 {
        seq!['-'] + pad_left(dec((-v) as nat), if w >= 1 { (w - 1) as nat } else { 0 }, '0')
    } else {
        pad_left(dec(v as nat), w, '0')
    }
}

/// `format!("{:0w$}", v)`.
pub fn fmt_zero_padded_i64(v: i64, w: usize) -> (r: String)
    ensures
        r@ == zero_padded(v as int, w as nat),
{
    if v < 0 {
        let mag: u64 = if v == i64::MIN { 9223372036854775808u64 } else { (-v) as u64 };
        let digits = crate::text::fmt_zero_padded(mag, if w >= 1 { w - 1 } else { 0 });
        let mut out = String::new();
        push_char(&mut out, '-');
        out.append(digits.as_str());
        assert(out@ =~= seq!['-'] + pad_left(dec((-v) as nat), if w >= 1 { (w - 1) as nat } else { 0 }, '0'));
        out
    } else {
        crate::text::fmt_zero_padded(v as u64, w)
    }
}

/// `format!("{:04}-{:02}-{:02}", y, m, d)`.
pub open spec fn ymd_text(y: int, m: int, d: int) -> Seq<char> {
    zero_padded(y, 4) + seq!['-'] + zero_padded(m, 2) + seq!['-'] + zero_padded(d, 2)
}

pub fn fmt_ymd(y: i64, m: i64, d: i64) -> (r: String)
    ensures
        r@ == ymd_text(y as int, m as int, d as int),
{
    let mut out = fmt_zero_padded_i64(y, 4);
    push_char(&mut out, '-');
    let ms = fmt_zero_padded_i64(m, 2);
    out.append(ms.as_str());
    push_char(&mut out, '-');
    let ds = fmt_zero_padded_i64(d, 2);
    out.append(ds.as_str());
    out
}

/// The UTC calendar date of a unix timestamp.
pub open spec fn date_of_secs(secs: int) -> (int, int, int) {
    civil_from_days_spec(secs / 86400)
}

/// UTC date `YYYY-MM-DD` of a unix timestamp.
pub fn unix_to_ymd(secs: i64) -> (r: String)
    ensures
        r@ == ymd_text(date_of_secs(secs as int).0, date_of_secs(secs as int).1, date_of_secs(secs as int).2),
{
    let days = floor_div(secs, 86400);
    let (y, m, d) = civil_from_days(days);
    fmt_ymd(y, m, d)
}

} // verus!
