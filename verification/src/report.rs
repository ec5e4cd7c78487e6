//! Human-readable crack-time formatting.
//!
//! A duration in milliseconds is placed in one of seven contiguous tiers
//! (below a second, seconds, minutes, hours, days, years, centuries) and
//! rendered as a rounded count of the tier's unit; counts of a million or
//! more switch to exponential notation with a single mantissa digit and
//! an explicit `e+` marker.

use vstd::arithmetic::div_mod::lemma_fundamental_div_mod;
use vstd::arithmetic::mul::lemma_mul_inequality;
use vstd::prelude::*;
use vstd::string::*;

verus! {

pub const SECOND_MS: u64 = 1000;

pub const MINUTE_MS: u64 = 60 * 1000;

pub const HOUR_MS: u64 = 60 * 60 * 1000;

pub const DAY_MS: u64 = 24 * 60 * 60 * 1000;

/// A year of 365.25 days.
pub const YEAR_MS: u64 = 31557600 * 1000;

pub const CENTURY_MS: u64 = 100 * 31557600 * 1000;

/// Rounding to the nearest integer, ties to the even neighbour.
pub open spec fn round_half_even(n: int, d: int) -> int {
    let q = n / d;
    let r = n % d;
    if 2 * r > d {
        q + 1
    } else if 2 * r == d {
        q + (q % 2)
    } else {
        q
    }
}

/// The character of one decimal digit.
pub open spec fn digit_char(d: int) -> char {
    if d == 0 {
        '0'
    } else if d == 1 {
        '1'
    } else if d == 2 {
        '2'
    } else if d == 3 {
        '3'
    } else if d == 4 {
        '4'
    } else if d == 5 {
        '5'
    } else if d == 6 {
        '6'
    } else if d == 7 {
        '7'
    } else if d == 8 {
        '8'
    } else {
        '9'
    }
}

/// The decimal digits of a non-negative integer, most significant first.
pub open spec fn dec_digits(n: int) -> Seq<char>
    decreases n,
{
    if n < 10 {
        seq![digit_char(n)]
    } else {
        dec_digits(n / 10).push(digit_char(n % 10))
    }
}

pub open spec fn pow10(k: nat) -> int
    decreases k,
{
    if k == 0 {
        1
    } else {
        10 * pow10((k - 1) as nat)
    }
}

/// The decimal magnitude of `ms` in units of `unit`: the largest `k`
/// with `pow10(k) * unit <= ms`.
pub open spec fn mag10(ms: int, unit: int) -> nat
    decreases ms,
{
    if ms < 10 * unit || unit < 1 || ms < 0 {
        0
    } else {
        (1 + mag10(ms / 10, unit)) as nat
    }
}

/// A duration of `ms` milliseconds rendered in a unit `unit` milliseconds
/// long: the rounded count when it is below a million, otherwise a single
/// rounded mantissa digit, `e+` and the decimal exponent.
pub open spec fn format_unit_spec(ms: int, unit: int, name: Seq<char>) -> Seq<char> {
    if ms < 1000000 * unit {
        dec_digits(round_half_even(ms, unit)) + seq![' '] + name
    } else {
        let e = mag10(ms, unit) as int;
        let d = round_half_even(ms, pow10(mag10(ms, unit)) * unit);
        if d == 10 {
            dec_digits(1) + seq!['e', '+'] + dec_digits(e + 1) + seq![' '] + name
        } else {
            dec_digits(d) + seq!['e', '+'] + dec_digits(e) + seq![' '] + name
        }
    }
}

/// The seven tiers, selected by contiguous ranges of milliseconds.
pub open spec fn format_time_spec(ms: int) -> Seq<char> {
    if ms < SECOND_MS {
        "less than a second"@
    } else if ms < MINUTE_MS {
        format_unit_spec(ms, SECOND_MS as int, "seconds"@)
    } else if ms < HOUR_MS {
        format_unit_spec(ms, MINUTE_MS as int, "minutes"@)
    } else if ms < DAY_MS {
        format_unit_spec(ms, HOUR_MS as int, "hours"@)
    } else if ms < YEAR_MS {
        format_unit_spec(ms, DAY_MS as int, "days"@)
    } else if ms < CENTURY_MS {
        format_unit_spec(ms, YEAR_MS as int, "years"@)
    } else {
        format_unit_spec(ms, CENTURY_MS as int, "centuries"@)
    }
}

proof fn lemma_pow10_pos(k: nat)
    ensures
        pow10(k) >= 1,
    decreases k,
{
    if k > 0 {
        lemma_pow10_pos((k - 1) as nat);
    }
}

proof fn lemma_pow10_mono(a: nat, b: nat)
    requires
        a <= b,
    ensures
        pow10(a) <= pow10(b),
    decreases b,
{
    if a < b {
        lemma_pow10_mono(a, (b - 1) as nat);
        lemma_pow10_pos((b - 1) as nat);
    }
}

proof fn lemma_pow10_ge_plus1(k: nat)
    ensures
        pow10(k) >= k + 1,
    decreases k,
{
    if k > 0 {
        lemma_pow10_ge_plus1((k - 1) as nat);
    }
}

/// `mag10` names the decimal window that holds `ms`.
proof fn lemma_mag10_bounds(ms: int, unit: int)
    requires
        unit >= 1,
        ms >= unit,
    ensures
        pow10(mag10(ms, unit)) * unit <= ms,
        ms < pow10(mag10(ms, unit) + 1) * unit,
    decreases ms,
{
    if ms < 10 * unit {
        assert(pow10(0) == 1);
        assert(pow10(1) == 10);
    } else {
        let m2 = ms / 10;
        assert(m2 >= unit) by (nonlinear_arith)
            requires
                ms >= 10 * unit,
                unit >= 1,
                m2 == ms / 10;
        lemma_mag10_bounds(m2, unit);
        let m = mag10(m2, unit);
        assert(mag10(ms, unit) == m + 1);
        lemma_pow10_pos(m);
        assert(pow10(m + 1) == 10 * pow10(m));
        assert(pow10(m + 2) == 10 * pow10(m + 1));
        assert(pow10(m + 1) * unit <= ms) by (nonlinear_arith)
            requires
                pow10(m) * unit <= m2,
                m2 == ms / 10,
                ms >= 0,
                pow10(m + 1) == 10 * pow10(m);
        assert(ms < pow10(m + 2) * unit) by (nonlinear_arith)
            requires
                m2 < pow10(m + 1) * unit,
                m2 == ms / 10,
                ms >= 0,
                pow10(m + 2) == 10 * pow10(m + 1);
    }
}

/// Any decimal window that holds `ms` is the `mag10` one.
proof fn lemma_mag10_unique(ms: int, unit: int, k: nat)
    requires
        unit >= 1,
        pow10(k) * unit <= ms,
        ms < pow10(k + 1) * unit,
    ensures
        mag10(ms, unit) == k,
{
    lemma_pow10_pos(k);
    assert(ms >= unit) by (nonlinear_arith)
        requires
            pow10(k) >= 1,
            unit >= 1,
            pow10(k) * unit <= ms;
    lemma_mag10_bounds(ms, unit);
    let m = mag10(ms, unit);
    if k < m {
        lemma_pow10_mono(k + 1, m);
        assert(pow10(k + 1) * unit <= pow10(m) * unit) by (nonlinear_arith)
            requires
                pow10(k + 1) <= pow10(m),
                unit >= 1;
        assert(false);
    }
    if m < k {
        lemma_pow10_mono(m + 1, k);
        assert(pow10(m + 1) * unit <= pow10(k) * unit) by (nonlinear_arith)
            requires
                pow10(m + 1) <= pow10(k),
                unit >= 1;
        assert(false);
    }
}

/// Rounding to the nearest multiple, ties to even.
fn rhe(n: u128, d: u128) -> (r: u128)
    requires
        1 <= d,
    ensures
        r == round_half_even(n as int, d as int),
{
    let q = n / d;
    let rem = n % d;
    proof {
        lemma_fundamental_div_mod(n as int, d as int);
        if rem >= 1 {
            assert(q < n) by (nonlinear_arith)
                requires
                    n == d * q + rem,
                    rem >= 1,
                    d >= 1,
                    q >= 0;
        }
    }
    if rem > d - rem {
        q + 1
    } else if rem == d - rem && rem != 0 {
        q + (q % 2)
    } else {
        q
    }
}

/// One decimal digit appended to a string.
fn push_digit(s: &mut String, d: u128)
    requires
        d < 10,
    ensures
        final(s)@ == old(s)@.push(digit_char(d as int)),
{
    if d == 0 {
        proof {
            reveal_strlit("0");
        }
        s.append("0");
    } else if d == 1 {
        proof {
            reveal_strlit("1");
        }
        s.append("1");
    } else if d == 2 {
        proof {
            reveal_strlit("2");
        }
        s.append("2");
    } else if d == 3 {
        proof {
            reveal_strlit("3");
        }
        s.append("3");
    } else if d == 4 {
        proof {
            reveal_strlit("4");
        }
        s.append("4");
    } else if d == 5 {
        proof {
            reveal_strlit("5");
        }
        s.append("5");
    } else if d == 6 {
        proof {
            reveal_strlit("6");
        }
        s.append("6");
    } else if d == 7 {
        proof {
            reveal_strlit("7");
        }
        s.append("7");
    } else if d == 8 {
        proof {
            reveal_strlit("8");
        }
        s.append("8");
    } else {
        proof {
            reveal_strlit("9");
        }
        s.append("9");
    }
    proof {
        assert(s@ =~= old(s)@.push(digit_char(d as int)));
    }
}

/// The decimal rendering of a non-negative integer.
pub fn dec_string(n: u128) -> (r: String)
    ensures
        r@ == dec_digits(n as int),
    decreases n,
{
    if n < 10 {
        let mut s = String::new();
        push_digit(&mut s, n);
        proof {
            assert(s@ =~= dec_digits(n as int));
        }
        s
    } else {
        let mut s = dec_string(n / 10);
        push_digit(&mut s, n % 10);
        proof {
            assert(s@ =~= dec_digits(n as int));
        }
        s
    }
}

/// Render `ms` milliseconds in the unit `unit` milliseconds long, named
/// `name`, exactly as `format_unit_spec` says.
pub fn format_unit(ms: u128, unit: u64, name: &str) -> (r: String)
    requires
        unit >= 1,
    ensures
        r@ == format_unit_spec(ms as int, unit as int, name@),
{
    let u = unit as u128;
    let threshold = 1000000u128 * u;
    proof {
        reveal_strlit(" ");
    }
    if ms < threshold {
        let v = rhe(ms, u);
        let mut s = dec_string(v);
        s.append(" ");
        s.append(name);
        proof {
            assert(s@ =~= format_unit_spec(ms as int, unit as int, name@));
        }
        s
    } else {
        let mut e: u128 = 0;
        let mut p: u128 = 1;
        proof {
            assert(u <= 1 * u) by (nonlinear_arith)
                requires u >= 1;
        }
        while p <= ms / (10 * u)
            invariant
                u == unit as u128,
                1 <= u,
                ms >= 1000000 * u,
                p == pow10(e as nat),
                p >= 1,
                p * u <= ms,
            decreases ms - p,
        {
            proof {
                lemma_fundamental_div_mod(ms as int, 10 * u as int);
                lemma_mul_inequality(p as int, (ms as int) / (10 * u as int), 10 * u as int);
                assert(p * (10 * u) <= ms);
                assert(10 * p <= 10 * p * u) by (nonlinear_arith)
                    requires
                        u >= 1,
                        p >= 1;
                assert(10 * p * u == p * (10 * u)) by (nonlinear_arith);
                assert(pow10(e as nat + 1) == 10 * pow10(e as nat));
                lemma_pow10_ge_plus1(e as nat);
            }
            p = p * 10;
            e = e + 1;
            proof {
                assert(p * u <= ms) by (nonlinear_arith)
                    requires
                        p * (10 * u) / 10 >= 0,
                        10 * (p / 10) * u == (p / 10) * (10 * u),
                        p % 10 == 0,
                        (p / 10) * (10 * u) <= ms,
                ;
            }
        }
        proof {
            // the loop has stopped: ms < 10 * p * u
            let tu = 10 * (u as int);
            lemma_fundamental_div_mod(ms as int, tu);
            let q = (ms as int) / tu;
            let r = (ms as int) % tu;
            assert(q + 1 <= p);
            assert(ms < (q + 1) * tu) by (nonlinear_arith)
                requires
                    ms == tu * q + r,
                    r < tu;
            lemma_mul_inequality(q + 1, p as int, tu);
            assert(ms < (p as int) * tu);
            assert((p as int) * tu == 10 * ((p as int) * (u as int))) by (nonlinear_arith)
                requires
                    tu == 10 * (u as int);
            assert(ms < 10 * ((p as int) * (u as int)));
            assert(ms < pow10(e as nat + 1) * (u as int)) by (nonlinear_arith)
                requires
                    ms < 10 * ((p as int) * (u as int)),
                    pow10(e as nat + 1) == 10 * pow10(e as nat),
                    p == pow10(e as nat);
            assert(pow10(e as nat + 1) == 10 * pow10(e as nat));
            lemma_mag10_unique(ms as int, u as int, e as nat);
            lemma_pow10_ge_plus1(e as nat);
            assert((p as int) * (u as int) >= 1) by (nonlinear_arith)
                requires
                    p >= 1,
                    u >= 1;
        }
        let cap = p * u;
        let d = rhe(ms, cap);
        proof {
            assert(10 * (cap as int) > ms);
            lemma_fundamental_div_mod(ms as int, cap as int);
            let q = (ms as int) / (cap as int);
            assert(1 <= q && q <= 9) by (nonlinear_arith)
                requires
                    ms as int == (cap as int) * q + (ms as int) % (cap as int),
                    0 <= (ms as int) % (cap as int) < cap as int,
                    cap as int >= 1,
                    cap <= ms,
                    10 * (cap as int) > ms;
            assert(1 <= d && d <= 10);
        }
        let dd: u128 = if d == 10 {
            1
        } else {
            d
        };
        let ee: u128 = if d == 10 {
            e + 1
        } else {
            e
        };
        let mut s = dec_string(dd);
        proof {
            reveal_strlit("e+");
            assert("e+"@ =~= seq!['e', '+']);
        }
        s.append("e+");
        let es = dec_string(ee);
        s.append(es.as_str());
        s.append(" ");
        s.append(name);
        proof {
            assert(s@ =~= format_unit_spec(ms as int, unit as int, name@));
        }
        s
    }
}

/// Format a duration of `ms` milliseconds, exactly as `format_time_spec`
/// says.
pub fn format_time(ms: u128) -> (r: String)
    ensures
        r@ == format_time_spec(ms as int),
{
    if ms < SECOND_MS as u128 {
        String::from_str("less than a second")
    } else if ms < MINUTE_MS as u128 {
        format_unit(ms, SECOND_MS, "seconds")
    } else if ms < HOUR_MS as u128 {
        format_unit(ms, MINUTE_MS, "minutes")
    } else if ms < DAY_MS as u128 {
        format_unit(ms, HOUR_MS, "hours")
    } else if ms < YEAR_MS as u128 {
        format_unit(ms, DAY_MS, "days")
    } else if ms < CENTURY_MS as u128 {
        format_unit(ms, YEAR_MS, "years")
    } else {
        format_unit(ms, CENTURY_MS, "centuries")
    }
}

/// The tiers are contiguous and exhaustive: every duration falls in
/// exactly one range, each range starting where the previous one ends,
/// and the formatted text is the range's unit rendering.
pub proof fn lemma_time_tiers(ms: int)
    requires
        ms >= 0,
    ensures
        ms < SECOND_MS || (SECOND_MS <= ms < MINUTE_MS) || (MINUTE_MS <= ms < HOUR_MS) || (HOUR_MS
            <= ms < DAY_MS) || (DAY_MS <= ms < YEAR_MS) || (YEAR_MS <= ms < CENTURY_MS) || (
        CENTURY_MS <= ms),
        ms < SECOND_MS ==> format_time_spec(ms) == "less than a second"@,
        SECOND_MS <= ms < MINUTE_MS ==> format_time_spec(ms) == format_unit_spec(
            ms,
            SECOND_MS as int,
            "seconds"@,
        ),
        MINUTE_MS <= ms < HOUR_MS ==> format_time_spec(ms) == format_unit_spec(
            ms,
            MINUTE_MS as int,
            "minutes"@,
        ),
        HOUR_MS <= ms < DAY_MS ==> format_time_spec(ms) == format_unit_spec(
            ms,
            HOUR_MS as int,
            "hours"@,
        ),
        DAY_MS <= ms < YEAR_MS ==> format_time_spec(ms) == format_unit_spec(
            ms,
            DAY_MS as int,
            "days"@,
        ),
        YEAR_MS <= ms < CENTURY_MS ==> format_time_spec(ms) == format_unit_spec(
            ms,
            YEAR_MS as int,
            "years"@,
        ),
        CENTURY_MS <= ms ==> format_time_spec(ms) == format_unit_spec(
            ms,
            CENTURY_MS as int,
            "centuries"@,
        ),
{
}

/// Exponential notation appears exactly when the rendered count reaches a
/// million of its unit; the mantissa is then one digit between 1 and 9
/// followed by the `e+` marker.
pub proof fn lemma_exponential_threshold(ms: int, unit: int, name: Seq<char>)
    requires
        unit >= 1,
        ms >= 0,
    ensures
        ms < 1000000 * unit ==> format_unit_spec(ms, unit, name) == dec_digits(
            round_half_even(ms, unit),
        ) + seq![' '] + name,
        ms >= 1000000 * unit ==> exists|d: int, e: int|
            1 <= d <= 9 && e >= 6 && format_unit_spec(ms, unit, name) == dec_digits(d)
                + seq!['e', '+'] + dec_digits(e) + seq![' '] + name,
{
    if ms >= 1000000 * unit {
        assert(ms >= unit) by (nonlinear_arith)
            requires
                ms >= 1000000 * unit,
                unit >= 1;
        lemma_mag10_bounds(ms, unit);
        let m = mag10(ms, unit);
        let cap = pow10(m) * unit;
        lemma_pow10_pos(m);
        assert(cap >= 1) by (nonlinear_arith)
            requires
                pow10(m) >= 1,
                unit >= 1,
                cap == pow10(m) * unit;
        // the magnitude is at least 6 because a million units fit in ms
        assert(pow10(6) == 1000000) by {
            reveal_with_fuel(pow10, 8);
        }
        if m < 6 {
            lemma_pow10_mono(m + 1, 6);
            assert(pow10(m + 1) * unit <= 1000000 * unit) by (nonlinear_arith)
                requires
                    pow10(m + 1) <= 1000000,
                    unit >= 1;
            assert(false);
        }
        lemma_fundamental_div_mod(ms, cap);
        let q = ms / cap;
        assert(pow10(m + 1) == 10 * pow10(m));
        assert(10 * cap > ms) by (nonlinear_arith)
            requires
                ms < pow10(m + 1) * unit,
                pow10(m + 1) == 10 * pow10(m),
                cap == pow10(m) * unit;
        assert(1 <= q && q <= 9) by (nonlinear_arith)
            requires
                ms == cap * q + ms % cap,
                0 <= ms % cap < cap,
                cap >= 1,
                cap <= ms,
                10 * cap > ms,
        ;
        let d0 = round_half_even(ms, cap);
        assert(1 <= d0 && d0 <= 10);
        if d0 == 10 {
            let d = 1int;
            let e = m as int + 1;
            assert(format_unit_spec(ms, unit, name) == dec_digits(d) + seq!['e', '+'] + dec_digits(
                e,
            ) + seq![' '] + name);
            assert(1 <= d <= 9 && e >= 6);
        } else {
            let d = d0;
            let e = m as int;
            assert(format_unit_spec(ms, unit, name) == dec_digits(d) + seq!['e', '+'] + dec_digits(
                e,
            ) + seq![' '] + name);
            assert(1 <= d <= 9 && e >= 6);
        }
    }
}

/// A decimal digit, as a byte.
pub open spec fn byte_is_digit(b: u8) -> bool {
    48 <= b && b <= 57
}

pub open spec fn all_byte_digits(s: Seq<u8>) -> bool {
    forall|i: int| 0 <= i < s.len() ==> byte_is_digit(#[trigger] s[i])
}

/// The integer written by a sequence of decimal digit bytes.
pub open spec fn byte_digits_val(s: Seq<u8>) -> int
    decreases s.len(),
{
    if s.len() == 0 {
        0
    } else {
        byte_digits_val(s.drop_last()) * 10 + (s.last() - 48)
    }
}

/// What the terminal-width probe's output is worth: its trimmed text
/// read as a decimal number, or 80 when it is empty, not a number, or
/// out of range.
pub open spec fn width_spec(out: Seq<u8>) -> int {
    let t = crate::pool::trimmed(out);
    if t.len() > 0 && all_byte_digits(t) && byte_digits_val(t) <= usize::MAX {
        byte_digits_val(t)
    } else {
        80
    }
}

proof fn lemma_byte_digits_val_nonneg(s: Seq<u8>)
    requires
        all_byte_digits(s),
    ensures
        byte_digits_val(s) >= 0,
    decreases s.len(),
{
    if s.len() > 0 {
        assert(byte_is_digit(s[s.len() - 1]));
        assert(all_byte_digits(s.drop_last()));
        lemma_byte_digits_val_nonneg(s.drop_last());
    }
}

/// A digit-byte string is worth at least any of its prefixes.
proof fn lemma_byte_digits_prefix_le(s: Seq<u8>, i: int)
    requires
        all_byte_digits(s),
        0 <= i <= s.len(),
    ensures
        byte_digits_val(s.subrange(0, i)) <= byte_digits_val(s),
    decreases s.len() - i,
{
    if i == s.len() {
        assert(s.subrange(0, i) =~= s);
    } else {
        let p = s.subrange(0, i);
        let q = s.subrange(0, i + 1);
        assert(q.drop_last() =~= p);
        assert(q.last() == s[i]);
        assert(all_byte_digits(p)) by {
            assert(forall|k: int| 0 <= k < p.len() ==> p[k] == s[k]);
        }
        lemma_byte_digits_val_nonneg(p);
        assert(byte_is_digit(s[i]));
        assert(byte_digits_val(q) == byte_digits_val(p) * 10 + (s[i] - 48));
        assert(byte_digits_val(p) * 10 >= byte_digits_val(p)) by (nonlinear_arith)
            requires byte_digits_val(p) >= 0;
        lemma_byte_digits_prefix_le(s, i + 1);
    }
}

/// The terminal width read from the probe's raw output, exactly as
/// `width_spec` says: trimmed digits, or 80 on anything else.
pub fn parse_width(out: &Vec<u8>) -> (w: usize)
    ensures
        w == width_spec(out@),
{
    let t = crate::pool::trim_bytes(out);
    let n = t.len();
    if n == 0 {
        return 80;
    }
    let mut acc: usize = 0;
    let mut i: usize = 0;
    while i < n
        invariant
            0 <= i <= n,
            n == t@.len(),
            t@ == crate::pool::trimmed(out@),
            all_byte_digits(t@.subrange(0, i as int)),
            acc == byte_digits_val(t@.subrange(0, i as int)),
        decreases n - i,
    {
        let b = t[i];
        if b < 48 || b > 57 {
            assert(!byte_is_digit(t@[i as int]));
            return 80;
        }
        let d = (b - 48) as usize;
        if acc > (usize::MAX - d) / 10 {
            proof {
                let q = t@.subrange(0, i + 1);
                assert(q.drop_last() =~= t@.subrange(0, i as int));
                assert(q.last() == t@[i as int]);
                assert(byte_digits_val(q) == acc * 10 + d);
                assert(acc * 10 + d > usize::MAX) by (nonlinear_arith)
                    requires
                        acc > (usize::MAX - d) / 10,
                        0 <= d <= 9;
                if all_byte_digits(t@) {
                    lemma_byte_digits_prefix_le(t@, i + 1);
                }
            }
            return 80;
        }
        proof {
            let q = t@.subrange(0, i + 1);
            assert(q.drop_last() =~= t@.subrange(0, i as int));
            assert(q.last() == t@[i as int]);
            assert(byte_is_digit(t@[i as int]));
        }
        acc = acc * 10 + d;
        i += 1;
    }
    assert(t@.subrange(0, n as int) =~= t@);
    acc
}

/// A rule of `width` dash characters, drawn under the report.
pub fn separator_line(width: usize) -> (r: String)
    ensures
        r@.len() == width,
        forall|i: int| 0 <= i < r@.len() ==> r@[i] == '-',
{
    proof {
        reveal_strlit("-");
    }
    let mut s = String::new();
    let mut k: usize = 0;
    while k < width
        invariant
            0 <= k <= width,
            s@.len() == k,
            forall|i: int| 0 <= i < s@.len() ==> s@[i] == '-',
        decreases width - k,
    {
        proof {
            reveal_strlit("-");
        }
        s.append("-");
        k += 1;
    }
    s
}

} // verus!