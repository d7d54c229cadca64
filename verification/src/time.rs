//! Times: reading `[number]s` and `hh:mm:ss,ms`, and writing SRT timestamps.
//! Times are whole milliseconds.

use vstd::prelude::*;
use vstd::string::StringExecFns;
use crate::digits::{
    decimal, lemma_decimal, all_digits, digit_value, digits_value, is_digit, lemma_digits_prefix, lemma_digits_step,
    lemma_zero_padded, parse_u32, parse_u32_range, push_zero_padded, zero_padded,
};
use crate::error::AppError;
use crate::split::{lemma_split_char_first, lemma_split_char_free, split_on, split_ranges};
use crate::text::{chars_of, push_char, push_range, sub_vec};

verus! {

/// Milliseconds in an hour, a minute and a second.
pub const MILLIS_PER_HOUR: u64 = 3_600_000;
pub const MILLIS_PER_MINUTE: u64 = 60_000;
pub const MILLIS_PER_SECOND: u64 = 1_000;

// ------------------------------------------------------------------
// The `[number]s` form
// ------------------------------------------------------------------

/// `t` without a leading `+` or `-`.
pub open spec fn unsigned_part(t: Seq<char>) -> Seq<char> {
    if t.len() > 0 && (t[0] == '-' || t[0] == '+') {
        t.drop_first()
    } else {
        t
    }
}

/// Every character of `t` is `0`.
pub open spec fn all_zeros(t: Seq<char>) -> bool {
    forall|i: int| 0 <= i < t.len() ==> #[trigger] t[i] == '0'
}

/// The milliseconds that the fraction digits `f` of a second stand for
/// (digits past the third are dropped).
pub open spec fn fraction_millis(f: Seq<char>) -> nat {
    if f.len() >= 3 {
        digits_value(f.take(3))
    } else if f.len() == 2 {
        digits_value(f) * 10
    } else if f.len() == 1 {
        digits_value(f) * 100
    } else {
        0
    }
}

/// A decimal number of seconds `[+|-]digits[.digits]` with at least one digit,
/// read as (is it below zero, its milliseconds). `None` when `t` is no such
/// number, or when a number that is not below zero exceeds the range of `u64`
/// milliseconds.
pub open spec fn seconds_reading(t: Seq<char>) -> Option<(bool, nat)> {
    let body = unsigned_part(t);
    let parts = split_on(body, seq!['.']);
    let int_part = parts[0];
    let frac = if parts.len() == 2 {
        parts[1]
    } else {
        Seq::<char>::empty()
    };
    let below_zero = t.len() > 0 && t[0] == '-' && !all_zeros(int_part + frac);
    let ms = digits_value(int_part) * 1000 + fraction_millis(frac);
    if parts.len() <= 2 && all_digits(int_part) && all_digits(frac) && int_part.len() + frac.len()
        > 0 && (below_zero || ms <= u64::MAX) {
        Some((below_zero, ms))
    } else {
        None
    }
}

// ------------------------------------------------------------------
// The `hh:mm:ss,ms` form
// ------------------------------------------------------------------

/// Reading `s` as `hh:mm:ss,ms`: the milliseconds, or the detail of the error.
pub open spec fn parse_clock(s: Seq<char>) -> Result<nat, Seq<char>> {
    let parts = split_on(s, seq![':']);
    if parts.len() != 3 {
        Err("Invalid time format: "@ + s + ". Expected [number]s or hh:mm:ss,ms"@)
    } else {
        match parse_u32(parts[0]) {
            None => Err("Invalid hours format: "@ + parts[0]),
            Some(h) => match parse_u32(parts[1]) {
                None => Err("Invalid minutes format: "@ + parts[1]),
                Some(m) => {
                    let sm = split_on(parts[2], seq![',']);
                    if sm.len() != 2 {
                        Err("Invalid seconds/milliseconds format: "@ + parts[2])
                    } else {
                        match parse_u32(sm[0]) {
                            None => Err("Invalid seconds format: "@ + sm[0]),
                            Some(sec) => match parse_u32(sm[1]) {
                                None => Err("Invalid milliseconds format: "@ + sm[1]),
                                Some(ms) => {
                                    if m >= 60 || sec >= 60 || ms >= 1000 {
                                        Err("Invalid hh:mm:ss,ms value: "@ + s)
                                    } else {
                                        Ok(h * 3_600_000 + m * 60_000 + sec * 1000 + ms)
                                    }
                                },
                            },
                        }
                    }
                },
            },
        }
    }
}

/// Reading a time: `[number]s` (a number followed by one `s`) first, then
/// `hh:mm:ss,ms`. The result is the
/// milliseconds, or the detail of the `InvalidTimeFormat` error.
pub open spec fn time_reading(s: Seq<char>) -> Result<nat, Seq<char>> {
    if s.len() > 0 && s.last() == 's' && seconds_reading(s.drop_last()) is Some {
        let (below_zero, ms) = seconds_reading(s.drop_last())->0;
        if below_zero {
            Err("Time cannot be negative: "@ + s)
        } else {
            Ok(ms)
        }
    } else {
        parse_clock(s)
    }
}

// ------------------------------------------------------------------
// SRT timestamps
// ------------------------------------------------------------------

/// `ms` as an SRT timestamp `HH:MM:SS,mmm` (the hours take more digits when needed).
pub open spec fn srt_time(ms: nat) -> Seq<char> {
    zero_padded(ms / 3_600_000, 2) + seq![':'] + zero_padded((ms % 3_600_000) / 60_000, 2)
        + seq![':'] + zero_padded((ms % 60_000) / 1000, 2) + seq![','] + zero_padded(
        ms % 1000,
        3,
    )
}

/// Writes `total_millis` as an SRT timestamp `HH:MM:SS,mmm`.
pub fn millis_to_srt_time(total_millis: u64) -> (r: String)
    ensures
        r@ == srt_time(total_millis as nat),
{
    let hours = total_millis / MILLIS_PER_HOUR;
    let minutes = (total_millis % MILLIS_PER_HOUR) / MILLIS_PER_MINUTE;
    let seconds = (total_millis % MILLIS_PER_MINUTE) / MILLIS_PER_SECOND;
    let millis = total_millis % MILLIS_PER_SECOND;
    let mut r = String::new();
    push_zero_padded(&mut r, hours, 2);
    push_char(&mut r, ':');
    push_zero_padded(&mut r, minutes, 2);
    push_char(&mut r, ':');
    push_zero_padded(&mut r, seconds, 2);
    push_char(&mut r, ',');
    push_zero_padded(&mut r, millis, 3);
    r
}

// ------------------------------------------------------------------
// Executable reading
// ------------------------------------------------------------------

/// Whether every character of `v[lo..hi]` is a decimal digit.
fn all_digits_range(v: &Vec<char>, lo: usize, hi: usize) -> (r: bool)
    requires
        lo <= hi <= v.len(),
    ensures
        r == all_digits(v@.subrange(lo as int, hi as int)),
{
    let ghost t = v@.subrange(lo as int, hi as int);
    let mut k = lo;
    while k < hi
        invariant
            lo <= k <= hi <= v.len(),
            t == v@.subrange(lo as int, hi as int),
            forall|i: int| 0 <= i < k - lo ==> is_digit(#[trigger] t[i]),
        decreases hi - k,
    {
        if !('0' <= v[k] && v[k] <= '9') {
            assert(!is_digit(t[k - lo]));
            return false;
        }
        k = k + 1;
    }
    true
}

/// Whether every character of `v[lo..hi]` is `0`.
fn all_zeros_range(v: &Vec<char>, lo: usize, hi: usize) -> (r: bool)
    requires
        lo <= hi <= v.len(),
    ensures
        r == all_zeros(v@.subrange(lo as int, hi as int)),
{
    let ghost t = v@.subrange(lo as int, hi as int);
    let mut k = lo;
    while k < hi
        invariant
            lo <= k <= hi <= v.len(),
            t == v@.subrange(lo as int, hi as int),
            forall|i: int| 0 <= i < k - lo ==> #[trigger] t[i] == '0',
        decreases hi - k,
    {
        if v[k] != '0' {
            assert(t[k - lo] != '0');
            return false;
        }
        k = k + 1;
    }
    true
}

/// The value of the digits `v[lo..hi]`, or `None` when it exceeds `u64`.
fn digits_value_u64(v: &Vec<char>, lo: usize, hi: usize) -> (r: Option<u64>)
    requires
        lo <= hi <= v.len(),
        all_digits(v@.subrange(lo as int, hi as int)),
    ensures
        r matches Some(x) ==> x == digits_value(v@.subrange(lo as int, hi as int)),
        r is None ==> digits_value(v@.subrange(lo as int, hi as int)) > u64::MAX,
{
    let ghost d = v@.subrange(lo as int, hi as int);
    let mut acc: u64 = 0;
    let mut k = lo;
    while k < hi
        invariant
            lo <= k <= hi <= v.len(),
            d == v@.subrange(lo as int, hi as int),
            all_digits(d),
            acc == digits_value(d.take(k - lo)),
        decreases hi - k,
    {
        proof {
            lemma_digits_step(d, k - lo);
        }
        let c = v[k];
        assert(d[k - lo] == c);
        assert(is_digit(d[k - lo]));
        let dv: u64 = (c as u32 - '0' as u32) as u64;
        assert(dv == digit_value(d[k - lo]));
        let next = match acc.checked_mul(10) {
            Some(x) => x.checked_add(dv),
            None => None,
        };
        match next {
            Some(x) => {
                acc = x;
            },
            None => {
                proof {
                    lemma_digits_prefix(d, k + 1 - lo);
                }
                return None;
            },
        }
        k = k + 1;
    }
    assert(d.take(k - lo) =~= d);
    Some(acc)
}

/// The value of at most three digits `v[lo..hi]`.
fn small_digits_value(v: &Vec<char>, lo: usize, hi: usize) -> (r: u64)
    requires
        lo <= hi <= v.len(),
        hi - lo <= 3,
        all_digits(v@.subrange(lo as int, hi as int)),
    ensures
        r == digits_value(v@.subrange(lo as int, hi as int)),
        r < 1000,
        hi - lo == 1 ==> r < 10,
        hi - lo == 2 ==> r < 100,
{
    let ghost d = v@.subrange(lo as int, hi as int);
    let mut acc: u64 = 0;
    let mut k = lo;
    while k < hi
        invariant
            lo <= k <= hi <= v.len(),
            hi - lo <= 3,
            d == v@.subrange(lo as int, hi as int),
            all_digits(d),
            acc == digits_value(d.take(k - lo)),
            k - lo == 0 ==> acc == 0,
            k - lo == 1 ==> acc < 10,
            k - lo == 2 ==> acc < 100,
            k - lo == 3 ==> acc < 1000,
        decreases hi - k,
    {
        proof {
            lemma_digits_step(d, k - lo);
        }
        let c = v[k];
        assert(d[k - lo] == c);
        assert(is_digit(d[k - lo]));
        let dv: u64 = (c as u32 - '0' as u32) as u64;
        assert(dv == digit_value(d[k - lo]));
        acc = acc * 10 + dv;
        k = k + 1;
    }
    assert(d.take(k - lo) =~= d);
    acc
}

/// The milliseconds that the fraction digits `v[lo..hi]` stand for.
fn fraction_millis_range(v: &Vec<char>, lo: usize, hi: usize) -> (r: u64)
    requires
        lo <= hi <= v.len(),
        all_digits(v@.subrange(lo as int, hi as int)),
    ensures
        r == fraction_millis(v@.subrange(lo as int, hi as int)),
        r < 1000,
{
    let ghost f = v@.subrange(lo as int, hi as int);
    if hi - lo >= 3 {
        assert(f.take(3) =~= v@.subrange(lo as int, lo + 3));
        assert(all_digits(v@.subrange(lo as int, lo + 3)));
        small_digits_value(v, lo, lo + 3)
    } else if hi - lo == 2 {
        small_digits_value(v, lo, hi) * 10
    } else if hi - lo == 1 {
        small_digits_value(v, lo, hi) * 100
    } else {
        0
    }
}

/// A concatenation is all zeros exactly when both halves are.
proof fn lemma_zeros_concat(a: Seq<char>, b: Seq<char>)
    ensures
        all_zeros(a + b) == (all_zeros(a) && all_zeros(b)),
{
    let both = a + b;
    if all_zeros(a) && all_zeros(b) {
        assert forall|k: int| 0 <= k < both.len() implies #[trigger] both[k] == '0' by {
            if k < a.len() {
                assert(both[k] == a[k]);
            } else {
                assert(both[k] == b[k - a.len()]);
            }
        }
    }
    if all_zeros(both) {
        assert forall|k: int| 0 <= k < a.len() implies #[trigger] a[k] == '0' by {
            assert(both[k] == a[k]);
        }
        assert forall|k: int| 0 <= k < b.len() implies #[trigger] b[k] == '0' by {
            assert(both[k + a.len()] == b[k]);
        }
    }
}

/// Reads `v[0..hi]` as a decimal number of seconds.
#[verifier::rlimit(40)]
fn read_seconds(v: &Vec<char>, hi: usize) -> (r: Option<(bool, u64)>)
    requires
        hi <= v.len(),
    ensures
        r is Some <==> seconds_reading(v@.subrange(0, hi as int)) is Some,
        r matches Some((b, ms)) ==> {
            let reading = seconds_reading(v@.subrange(0, hi as int))->0;
            &&& reading.0 == b
            &&& !b ==> reading.1 == ms as nat
        },
{
    let t = sub_vec(v, 0, hi);
    let mut i: usize = 0;
    if t.len() > 0 && (t[0] == '-' || t[0] == '+') {
        i = 1;
    }
    let body = sub_vec(&t, i, t.len());
    assert(unsigned_part(t@) =~= body@);
    let dot = vec!['.'];
    assert(dot@ =~= seq!['.']);
    let parts = split_ranges(&body, &dot);
    let ghost sp = split_on(body@, seq!['.']);
    assert(parts@.len() == sp.len());
    if parts.len() > 2 {
        return None;
    }
    let (a0, a1) = parts[0];
    assert(sp[0] == body@.subrange(a0 as int, a1 as int));
    let (f0, f1) = if parts.len() == 2 {
        assert(sp[1] == body@.subrange(parts@[1].0 as int, parts@[1].1 as int));
        parts[1]
    } else {
        assert(body@.subrange(0, 0) =~= Seq::<char>::empty());
        (0, 0)
    };
    let ghost int_part = sp[0];
    let ghost frac = body@.subrange(f0 as int, f1 as int);
    if !all_digits_range(&body, a0, a1) || !all_digits_range(&body, f0, f1) {
        return None;
    }
    if a1 == a0 && f1 == f0 {
        return None;
    }
    let zeros = all_zeros_range(&body, a0, a1) && all_zeros_range(&body, f0, f1);
    proof {
        lemma_zeros_concat(int_part, frac);
    }
    let below_zero = t.len() > 0 && t[0] == '-' && !zeros;
    if below_zero {
        return Some((true, 0));
    }
    let whole = match digits_value_u64(&body, a0, a1) {
        Some(x) => x,
        None => {
            return None;
        },
    };
    let frac_ms = fraction_millis_range(&body, f0, f1);
    let ms = match whole.checked_mul(1000) {
        Some(x) => x.checked_add(frac_ms),
        None => None,
    };
    match ms {
        Some(x) => Some((false, x)),
        None => None,
    }
}

/// An `InvalidTimeFormat` error whose detail is `prefix` followed by `v[lo..hi]`.
fn time_error(prefix: &str, v: &Vec<char>, lo: usize, hi: usize) -> (e: AppError)
    requires
        lo <= hi <= v.len(),
    ensures
        e matches AppError::InvalidTimeFormat(m) && m@ == prefix@ + v@.subrange(lo as int, hi as int),
{
    let mut m = String::from_str(prefix);
    push_range(&mut m, v, lo, hi);
    AppError::InvalidTimeFormat(m)
}

/// Reads the characters `v` as `hh:mm:ss,ms`.
fn read_clock(v: &Vec<char>) -> (r: Result<u64, AppError>)
    ensures
        r matches Ok(ms) ==> parse_clock(v@) == Ok::<nat, Seq<char>>(ms as nat),
        r matches Err(e) ==> e matches AppError::InvalidTimeFormat(m) && parse_clock(v@) == Err::<
            nat,
            Seq<char>,
        >(m@),
{
    let colon = vec![':'];
    assert(colon@ =~= seq![':']);
    let parts = split_ranges(v, &colon);
    let ghost sp = split_on(v@, seq![':']);
    assert(parts@.len() == sp.len());
    if parts.len() != 3 {
        let mut m = String::from_str("Invalid time format: ");
        push_range(&mut m, v, 0, v.len());
        m.append(". Expected [number]s or hh:mm:ss,ms");
        assert(v@.subrange(0, v@.len() as int) =~= v@);
        return Err(AppError::InvalidTimeFormat(m));
    }
    let (h0, h1) = parts[0];
    let (m0, m1) = parts[1];
    let (s0, s1) = parts[2];
    assert(sp[0] == v@.subrange(h0 as int, h1 as int));
    assert(sp[1] == v@.subrange(m0 as int, m1 as int));
    assert(sp[2] == v@.subrange(s0 as int, s1 as int));
    let hours = match parse_u32_range(v, h0, h1) {
        Some(x) => x,
        None => {
            return Err(time_error("Invalid hours format: ", v, h0, h1));
        },
    };
    let minutes = match parse_u32_range(v, m0, m1) {
        Some(x) => x,
        None => {
            return Err(time_error("Invalid minutes format: ", v, m0, m1));
        },
    };
    let sec_part = sub_vec(v, s0, s1);
    let comma = vec![','];
    assert(comma@ =~= seq![',']);
    let sm = split_ranges(&sec_part, &comma);
    let ghost ssp = split_on(sec_part@, seq![',']);
    assert(sm@.len() == ssp.len());
    if sm.len() != 2 {
        return Err(time_error("Invalid seconds/milliseconds format: ", v, s0, s1));
    }
    let (c0, c1) = sm[0];
    let (d0, d1) = sm[1];
    assert(ssp[0] == sec_part@.subrange(c0 as int, c1 as int));
    assert(ssp[1] == sec_part@.subrange(d0 as int, d1 as int));
    let seconds = match parse_u32_range(&sec_part, c0, c1) {
        Some(x) => x,
        None => {
            return Err(time_error("Invalid seconds format: ", &sec_part, c0, c1));
        },
    };
    let millis = match parse_u32_range(&sec_part, d0, d1) {
        Some(x) => x,
        None => {
            return Err(time_error("Invalid milliseconds format: ", &sec_part, d0, d1));
        },
    };
    if minutes >= 60 || seconds >= 60 || millis >= 1000 {
        assert(v@.subrange(0, v@.len() as int) =~= v@);
        return Err(time_error("Invalid hh:mm:ss,ms value: ", v, 0, v.len()));
    }
    Ok(hours as u64 * MILLIS_PER_HOUR + minutes as u64 * MILLIS_PER_MINUTE + seconds as u64
        * MILLIS_PER_SECOND + millis as u64)
}

/// Parses a time given as `[number]s` (such as `30s` or `0.5s`) or as
/// `hh:mm:ss,ms` (such as `00:01:30,500`), into milliseconds.
///
/// A number of seconds followed by one `s` is read first;
/// a negative one is refused. Otherwise the `hh:mm:ss,ms` form is read, with
/// minutes and seconds below 60 and milliseconds below 1000.
pub fn parse_time(time_str: &str) -> (res: Result<u64, AppError>)
    ensures
        res matches Ok(ms) ==> time_reading(time_str@) == Ok::<nat, Seq<char>>(ms as nat),
        res matches Err(e) ==> e matches AppError::InvalidTimeFormat(m) && time_reading(time_str@)
            == Err::<nat, Seq<char>>(m@),
{
    let v = chars_of(time_str);
    if v.len() > 0 && v[v.len() - 1] == 's' {
        let hi = v.len() - 1;
        assert(v@.subrange(0, hi as int) =~= v@.drop_last());
        match read_seconds(&v, hi) {
            Some((below_zero, ms)) => {
                if below_zero {
                    let mut m = String::from_str("Time cannot be negative: ");
                    m.append(time_str);
                    return Err(AppError::InvalidTimeFormat(m));
                }
                return Ok(ms);
            },
            None => {},
        }
    }
    read_clock(&v)
}

// ------------------------------------------------------------------
// Laws
// ------------------------------------------------------------------

/// Digits are none of the separators `:` and `,`.
proof fn lemma_digits_free(d: Seq<char>)
    requires
        all_digits(d),
    ensures
        forall|i: int| 0 <= i < d.len() ==> d[i] != ':',
        forall|i: int| 0 <= i < d.len() ==> d[i] != ',',
{
    assert forall|i: int| 0 <= i < d.len() implies d[i] != ':' && d[i] != ',' by {
        assert(is_digit(d[i]));
    }
}

/// A zero-padded number reads back through `u32::from_str` when it fits.
proof fn lemma_padded_reads_back(n: nat, width: nat)
    requires
        n <= u32::MAX,
    ensures
        parse_u32(zero_padded(n, width)) == Some(n),
{
    lemma_zero_padded(n, width);
}

/// Law: an SRT timestamp written by `millis_to_srt_time` reads back through
/// `parse_time` as the same milliseconds, whenever its hours fit in a `u32`.
pub proof fn lemma_srt_time_reads_back(ms: nat)
    requires
        ms / 3_600_000 <= u32::MAX,
    ensures
        time_reading(srt_time(ms)) == Ok::<nat, Seq<char>>(ms),
{
    let h = ms / 3_600_000;
    let mi = (ms % 3_600_000) / 60_000;
    let se = (ms % 60_000) / 1000;
    let mm = ms % 1000;
    let a = zero_padded(h, 2);
    let b = zero_padded(mi, 2);
    let c = zero_padded(se, 2);
    let d = zero_padded(mm, 3);
    lemma_zero_padded(h, 2);
    lemma_zero_padded(mi, 2);
    lemma_zero_padded(se, 2);
    lemma_zero_padded(mm, 3);
    lemma_digits_free(a);
    lemma_digits_free(b);
    lemma_digits_free(c);
    lemma_digits_free(d);
    let s = srt_time(ms);
    let cd = c + seq![','] + d;
    let rest = b + seq![':'] + cd;
    assert(s =~= a + seq![':'] + rest);
    // The last character is a digit, so the `[number]s` form does not apply.
    assert(s.last() == d.last());
    assert(is_digit(d[d.len() - 1]));
    // Splitting on ':' gives the hours, the minutes and `ss,mmm`.
    assert forall|i: int| 0 <= i < cd.len() implies cd[i] != ':' by {
        if i < c.len() {
            assert(cd[i] == c[i]);
        } else if i > c.len() {
            assert(cd[i] == d[i - c.len() - 1]);
        }
    }
    lemma_split_char_first(a, ':', rest);
    lemma_split_char_first(b, ':', cd);
    lemma_split_char_free(cd, ':');
    let parts = split_on(s, seq![':']);
    assert(parts =~= seq![a, b, cd]);
    // Splitting `ss,mmm` on ',' gives the seconds and the milliseconds.
    lemma_split_char_first(c, ',', d);
    lemma_split_char_free(d, ',');
    assert(split_on(cd, seq![',']) =~= seq![c, d]);
    lemma_padded_reads_back(h, 2);
    lemma_padded_reads_back(mi, 2);
    lemma_padded_reads_back(se, 2);
    lemma_padded_reads_back(mm, 3);
    assert(mi < 60 && se < 60 && mm < 1000);
    assert(h * 3_600_000 + mi * 60_000 + se * 1000 + mm == ms) by (nonlinear_arith)
        requires
            h == ms / 3_600_000,
            mi == (ms % 3_600_000) / 60_000,
            se == (ms % 60_000) / 1000,
            mm == ms % 1000,
    ;
}

/// Law: a whole number of seconds `n`, a `.`, one to three fraction digits
/// `f` and an `s` read as `n` seconds plus the fraction in milliseconds: the
/// fraction's digits count tenths, hundredths or thousandths by their number,
/// leading zeros included (`10.05s` is 10050 ms, `10.5s` is 10500 ms).
pub proof fn lemma_seconds_with_fraction(n: nat, f: Seq<char>)
    requires
        1 <= f.len() <= 3,
        all_digits(f),
        n * 1000 + 999 <= u64::MAX,
    ensures
        time_reading(decimal(n) + seq!['.'] + f + seq!['s']) == Ok::<nat, Seq<char>>(
            n * 1000 + digits_value(f) * (if f.len() == 1 {
                100nat
            } else if f.len() == 2 {
                10nat
            } else {
                1nat
            }),
        ),
{
    let d = decimal(n);
    lemma_decimal(n);
    lemma_digits_free(d);
    let t = d + seq!['.'] + f;
    let s = t + seq!['s'];
    assert(s.last() == 's');
    assert(s.drop_last() =~= t);
    assert(t[0] == d[0]);
    assert(is_digit(d[0]));
    assert(unsigned_part(t) == t);
    assert forall|i: int| 0 <= i < d.len() implies d[i] != '.' by {
        assert(is_digit(d[i]));
    }
    assert forall|i: int| 0 <= i < f.len() implies f[i] != '.' by {
        assert(is_digit(f[i]));
    }
    lemma_split_char_first(d, '.', f);
    lemma_split_char_free(f, '.');
    assert(split_on(t, seq!['.']) =~= seq![d, f]);
    if f.len() >= 3 {
        assert(f.take(3) =~= f);
    }
    assert(fraction_millis(f) <= 999) by {
        lemma_digits_small(f);
    }
}

/// Law: `n` seconds and `m` milliseconds, written with the milliseconds
/// zero-padded to three digits (`10.050s`, `10.005s`), read back as
/// `n * 1000 + m` milliseconds.
pub proof fn lemma_seconds_with_millis(n: nat, m: nat)
    requires
        m < 1000,
        n * 1000 + 999 <= u64::MAX,
    ensures
        time_reading(decimal(n) + seq!['.'] + zero_padded(m, 3) + seq!['s']) == Ok::<
            nat,
            Seq<char>,
        >(n * 1000 + m),
{
    lemma_zero_padded(m, 3);
    assert(decimal(m).len() <= 3) by {
        if m >= 10 {
            if m >= 100 {
                assert(decimal(m / 10 / 10).len() == 1);
            }
            assert(decimal(m / 10).len() <= 2);
        }
    }
    assert(zero_padded(m, 3).len() == 3);
    lemma_seconds_with_fraction(n, zero_padded(m, 3));
}

/// At most three digits spell less than 10 to the power of their number.
proof fn lemma_digits_small(f: Seq<char>)
    requires
        f.len() <= 3,
        all_digits(f),
    ensures
        f.len() == 0 ==> digits_value(f) == 0,
        f.len() == 1 ==> digits_value(f) < 10,
        f.len() == 2 ==> digits_value(f) < 100,
        f.len() == 3 ==> digits_value(f) < 1000,
    decreases f.len(),
{
    if f.len() > 0 {
        let g = f.drop_last();
        assert(all_digits(g)) by {
            assert forall|i: int| 0 <= i < g.len() implies is_digit(#[trigger] g[i]) by {
                assert(g[i] == f[i]);
            }
        }
        lemma_digits_small(g);
        assert(is_digit(f[f.len() - 1]));
    }
}

} // verus!
