//! Reading one line of the download tool's output: how far the transfer has
//! got, its rate and the time it still needs.
use vstd::prelude::*;

use crate::queue::DownloadQueue;
use crate::text::{
    chars_of, has_infix, holds_char, holds_infix, split_words, string_of, word_views,
    words,
};

verus! {

/// An exact, non-negative fraction `numer / denom`.
#[derive(Clone, Copy, Debug, PartialEq, Eq, Structural)]
pub struct Fraction {
    pub numer: u64,
    pub denom: u64,
}

impl Fraction {
    pub open spec fn wf(self) -> bool {
        self.denom > 0
    }

    /// `self <= other` as rationals.
    pub open spec fn at_most(self, other: Fraction) -> bool {
        self.numer * other.denom <= other.numer * self.denom
    }

    pub open spec fn spec_zero() -> Fraction {
        Fraction { numer: 0, denom: 1 }
    }

    pub open spec fn spec_one() -> Fraction {
        Fraction { numer: 1, denom: 1 }
    }

    /// `self <= other` as rationals.
    pub fn le(&self, other: &Fraction) -> (r: bool)
        ensures
            r == self.at_most(*other),
    {
        let a = self.numer as u128;
        let b = other.denom as u128;
        let c = other.numer as u128;
        let d = self.denom as u128;
        proof {
            assert(a * b <= u64::MAX as int * u64::MAX as int) by (nonlinear_arith)
                requires
                    a <= u64::MAX,
                    b <= u64::MAX,
            ;
            assert(c * d <= u64::MAX as int * u64::MAX as int) by (nonlinear_arith)
                requires
                    c <= u64::MAX,
                    d <= u64::MAX,
            ;
        }
        a * b <= c * d
    }

    /// This fraction, or the whole when it is more.
    pub fn capped(self) -> (r: Fraction)
        ensures
            r == (if self.at_most(Fraction::spec_one()) {
                self
            } else {
                Fraction::spec_one()
            }),
    {
        if self.numer <= self.denom {
            self
        } else {
            Fraction::one()
        }
    }

    pub fn zero() -> (r: Fraction)
        ensures
            r == Fraction::spec_zero(),
    {
        Fraction { numer: 0, denom: 1 }
    }

    pub fn one() -> (r: Fraction)
        ensures
            r == Fraction::spec_one(),
    {
        Fraction { numer: 1, denom: 1 }
    }
}

pub open spec fn is_digit(c: char) -> bool {
    '0' <= c && c <= '9'
}

pub open spec fn all_digits(s: Seq<char>) -> bool {
    forall|i: int| 0 <= i < s.len() ==> is_digit(#[trigger] s[i])
}

pub open spec fn digit_value(c: char) -> nat {
    ((c as u32) as int - 48) as nat
}

/// The number that the decimal digits `s` spell (0 for no digits).
pub open spec fn digits_value(s: Seq<char>) -> nat
    decreases s.len(),
{
    if s.len() == 0 {
        0
    } else {
        10 * digits_value(s.drop_last()) + digit_value(s.last())
    }
}

pub open spec fn pow10(n: nat) -> nat
    decreases n,
{
    if n == 0 {
        1
    } else {
        10 * pow10((n - 1) as nat)
    }
}

/// `s` without the `%` characters at its end.
pub open spec fn strip_percent(s: Seq<char>) -> Seq<char>
    decreases s.len(),
{
    if s.len() > 0 && s.last() == '%' {
        strip_percent(s.drop_last())
    } else {
        s
    }
}

/// Where the first `a` or `b` of `s` stands, or `s.len()` when it has none.
#[verifier::opaque]
pub open spec fn first_mark(s: Seq<char>, a: char, b: char) -> int {
    if exists|k: int| 0 <= k < s.len() && (s[k] == a || s[k] == b) {
        choose|k: int|
            0 <= k < s.len() && (s[k] == a || s[k] == b) && forall|j: int|
                0 <= j < k ==> s[j] != a && s[j] != b
    } else {
        s.len() as int
    }
}

/// Digits with at most one `.` among them and at least one digit: the digits
/// without the point, and how many of them follow it. So `45.2` gives
/// (`452`, 1).
#[verifier::opaque]
pub open spec fn mantissa(s: Seq<char>) -> Option<(Seq<char>, nat)> {
    let k = first_mark(s, '.', '.');
    let whole = s.take(k);
    let frac = if k < s.len() {
        s.skip(k + 1)
    } else {
        seq![]
    };
    if all_digits(whole) && all_digits(frac) && whole.len() + frac.len() > 0 {
        Some((whole + frac, frac.len()))
    } else {
        None
    }
}

/// An exponent: an optional `+` or `-`, then at least one digit.
#[verifier::opaque]
pub open spec fn exponent(s: Seq<char>) -> Option<int> {
    let signed = s.len() > 0 && (s[0] == '+' || s[0] == '-');
    let digits = if signed {
        s.drop_first()
    } else {
        s
    };
    if digits.len() > 0 && all_digits(digits) {
        Some(
            if s.len() > 0 && s[0] == '-' {
                -(digits_value(digits) as int)
            } else {
                digits_value(digits) as int
            },
        )
    } else {
        None
    }
}

/// `s` without a leading `+`.
pub open spec fn unsigned_part(s: Seq<char>) -> Seq<char> {
    if s.len() > 0 && s[0] == '+' {
        s.drop_first()
    } else {
        s
    }
}

/// A non-negative number as `f32::from_str` reads it: an optional `+`, a
/// mantissa, and an optional exponent after `e` or `E`. It stands for
/// `digits * 10^(exponent - scale)`, given as (digits, scale, exponent).
#[verifier::opaque]
pub open spec fn number(s: Seq<char>) -> Option<(Seq<char>, nat, int)> {
    let u = unsigned_part(s);
    let k = first_mark(u, 'e', 'E');
    match mantissa(u.take(k)) {
        Some((ds, scale)) => {
            if k < u.len() {
                match exponent(u.skip(k + 1)) {
                    Some(e) => Some((ds, scale, e)),
                    None => None,
                }
            } else {
                Some((ds, scale, 0))
            }
        },
        None => None,
    }
}

/// `digits * 10^t`, rounded down.
pub open spec fn scaled(ds: Seq<char>, t: int) -> nat {
    if t >= 0 {
        digits_value(ds) * pow10(t as nat)
    } else {
        digits_value(ds) / pow10((-t) as nat)
    }
}

/// `n`, or `u64::MAX` when it is more.
pub open spec fn saturated(n: nat) -> u64 {
    if n <= u64::MAX {
        n as u64
    } else {
        u64::MAX
    }
}

/// Readings are kept in billionths of the whole.
pub open spec fn reading_denom() -> u64 {
    1_000_000_000
}

/// The fraction that a word such as `45.2%` stands for: the number before
/// its `%` signs over 100, in billionths rounded down (`452000000 /
/// 1000000000`), and at most `u64::MAX` billionths.
#[verifier::opaque]
pub open spec fn percent_fraction(w: Seq<char>) -> Option<Fraction> {
    if w.len() > 0 && w.last() == '%' {
        match number(strip_percent(w)) {
            Some((ds, scale, e)) => Some(
                Fraction { numer: saturated(scaled(ds, e + 7 - scale)), denom: reading_denom() },
            ),
            None => None,
        }
    } else {
        None
    }
}

/// `e`, held within `-cap ..= cap`.
pub open spec fn clamp(e: int, cap: int) -> int {
    if e >= cap {
        cap
    } else if e <= -cap {
        -cap
    } else {
        e
    }
}

/// The fraction of the last word of `ws` that gives one.
pub open spec fn progress_in(ws: Seq<Seq<char>>) -> Option<Fraction>
    decreases ws.len(),
{
    if ws.len() == 0 {
        None
    } else {
        match percent_fraction(ws.last()) {
            Some(f) => Some(f),
            None => progress_in(ws.drop_last()),
        }
    }
}

/// The word that follows the last `key` of `ws` that some word follows.
pub open spec fn word_after(ws: Seq<Seq<char>>, key: Seq<char>) -> Option<Seq<char>>
    decreases ws.len(),
{
    if ws.len() < 2 {
        None
    } else if ws[ws.len() - 2] == key {
        Some(ws.last())
    } else {
        word_after(ws.drop_last(), key)
    }
}

pub open spec fn download_marker() -> Seq<char> {
    seq!['[', 'd', 'o', 'w', 'n', 'l', 'o', 'a', 'd', ']']
}

pub open spec fn rate_key() -> Seq<char> {
    seq!['a', 't']
}

pub open spec fn eta_key() -> Seq<char> {
    seq!['E', 'T', 'A']
}

/// What a line says, in this order: progress, rate, time left. Only a line
/// that holds `[download]` and a `%` says anything.
pub open spec fn line_fields(line: Seq<char>) -> (
    Option<Fraction>,
    Option<Seq<char>>,
    Option<Seq<char>>,
) {
    if has_infix(line, download_marker()) && line.contains('%') {
        let ws = words(line);
        (progress_in(ws), word_after(ws, rate_key()), word_after(ws, eta_key()))
    } else {
        (None, None, None)
    }
}

pub open spec fn opt_view(o: Option<String>) -> Option<Seq<char>> {
    match o {
        Some(s) => Some(s@),
        None => None,
    }
}

proof fn lemma_pow10_grows(a: nat, b: nat)
    requires
        a <= b,
    ensures
        pow10(a) <= pow10(b),
    decreases b,
{
    if a < b {
        lemma_pow10_grows(a, (b - 1) as nat);
    }
}


proof fn lemma_pow10_positive(n: nat)
    ensures
        pow10(n) >= 1,
    decreases n,
{
    if n > 0 {
        lemma_pow10_positive((n - 1) as nat);
    }
}

proof fn lemma_pow10_past_u64()
    ensures
        pow10(20) > u64::MAX,
{
    reveal_with_fuel(pow10, 21);
}

proof fn lemma_digits_below(s: Seq<char>)
    requires
        all_digits(s),
    ensures
        digits_value(s) < pow10(s.len()),
    decreases s.len(),
{
    if s.len() > 0 {
        let s2 = s.drop_last();
        assert(all_digits(s2)) by {
            assert forall|i: int| 0 <= i < s2.len() implies is_digit(#[trigger] s2[i]) by {
                assert(s2[i] == s[i]);
            }
        }
        lemma_digits_below(s2);
        assert(is_digit(s[s.len() - 1]));
        assert(pow10(s.len()) == 10 * pow10(s2.len()));
    }
}

/// Dropping the last `k` digits divides by `10^k`.
proof fn lemma_digits_drop(s: Seq<char>, k: nat)
    requires
        all_digits(s),
        k <= s.len(),
    ensures
        digits_value(s.take(s.len() - k)) == digits_value(s) / pow10(k),
    decreases k,
{
    if k == 0 {
        assert(s.take(s.len() as int) =~= s);
        assert(pow10(0) == 1);
        assert(digits_value(s) / 1 == digits_value(s));
    } else {
        let s2 = s.drop_last();
        assert(all_digits(s2)) by {
            assert forall|i: int| 0 <= i < s2.len() implies is_digit(#[trigger] s2[i]) by {
                assert(s2[i] == s[i]);
            }
        }
        lemma_digits_drop(s2, (k - 1) as nat);
        assert(s2.take(s2.len() - (k - 1)) =~= s.take(s.len() - k));
        assert(is_digit(s[s.len() - 1]));
        let d = digit_value(s.last());
        let x = digits_value(s) as int;
        let p = pow10((k - 1) as nat) as int;
        assert(x == 10 * digits_value(s2) + d);
        assert(d < 10);
        assert(pow10(k) == 10 * p);
        lemma_pow10_positive((k - 1) as nat);
        vstd::arithmetic::div_mod::lemma_fundamental_div_mod_converse(
            x,
            10,
            digits_value(s2) as int,
            d as int,
        );
        assert(x / 10 == digits_value(s2));
        vstd::arithmetic::div_mod::lemma_div_denominator(x, 10, p);
        assert(x / (10 * p) == (x / 10) / p);
        assert(digits_value(s.take(s.len() - k)) as int == digits_value(s2) as int / p);
    }
}

/// A scale that drops every digit gives nothing.
proof fn lemma_small_scale_zero(ds: Seq<char>, t: int)
    requires
        all_digits(ds),
        ds.len() + t <= 0,
    ensures
        scaled(ds, t) == 0,
{
    let x = digits_value(ds);
    lemma_digits_below(ds);
    lemma_pow10_grows(ds.len(), (-t) as nat);
    if t < 0 {
        vstd::arithmetic::div_mod::lemma_fundamental_div_mod_converse(
            x as int,
            pow10((-t) as nat) as int,
            0,
            x as int,
        );
    } else {
        assert(ds.len() == 0);
        assert(x == 0);
        assert(x * pow10(t as nat) == 0);
    }
}

/// A scale of 20 or more gives nothing or saturates.
proof fn lemma_large_scale(ds: Seq<char>, t: int)
    requires
        t >= 20,
    ensures
        saturated(scaled(ds, t)) == (if digits_value(ds) == 0 {
            0
        } else {
            u64::MAX
        }),
{
    let x = digits_value(ds);
    let p = pow10(t as nat);
    if x == 0 {
        assert(x * p == 0);
    } else {
        lemma_pow10_past_u64();
        lemma_pow10_grows(20, t as nat);
        assert(x * p >= p) by (nonlinear_arith)
            requires
                x >= 1,
        ;
    }
}

/// Far enough out, a scale gives nothing or saturates whatever its size.
proof fn lemma_far_scales_agree(ds: Seq<char>, t1: int, t2: int)
    requires
        all_digits(ds),
        (t1 >= 20 && t2 >= 20) || (ds.len() + t1 <= 0 && ds.len() + t2 <= 0),
    ensures
        saturated(scaled(ds, t1)) == saturated(scaled(ds, t2)),
{
    if t1 >= 20 && t2 >= 20 {
        lemma_large_scale(ds, t1);
        lemma_large_scale(ds, t2);
    } else {
        lemma_small_scale_zero(ds, t1);
        lemma_small_scale_zero(ds, t2);
    }
}

/// Every reading that a line gives has a positive denominator.
pub proof fn lemma_readings_have_denominator(line: Seq<char>)
    ensures
        match line_fields(line).0 {
            Some(f) => f.denom > 0,
            None => true,
        },
{
    lemma_progress_in_denominator(words(line));
}

proof fn lemma_progress_in_denominator(ws: Seq<Seq<char>>)
    ensures
        match progress_in(ws) {
            Some(f) => f.denom > 0,
            None => true,
        },
    decreases ws.len(),
{
    reveal(percent_fraction);
    if ws.len() > 0 {
        lemma_progress_in_denominator(ws.drop_last());
    }
}

/// The value of the first `k` digits of `ds`, or `cap` when it is more.
fn digits_up_to(ds: &Vec<char>, k: usize, cap: u128) -> (r: u128)
    requires
        k <= ds.len(),
        all_digits(ds@),
        cap <= 0x1_0000_0000_0000_0040,
    ensures
        r == (if digits_value(ds@.take(k as int)) <= cap {
            digits_value(ds@.take(k as int))
        } else {
            cap as nat
        }),
{
    let mut v: u128 = 0;
    let mut i: usize = 0;
    assert(ds@.take(0) =~= Seq::<char>::empty());
    while i < k
        invariant
            i <= k <= ds.len(),
            all_digits(ds@),
            cap <= 0x1_0000_0000_0000_0040,
            v == (if digits_value(ds@.take(i as int)) <= cap {
                digits_value(ds@.take(i as int))
            } else {
                cap as nat
            }),
        decreases k - i,
    {
        assert(ds@.take(i + 1).drop_last() =~= ds@.take(i as int));
        assert(is_digit(ds@[i as int]));
        let d = (ds[i] as u32 - 48) as u128;
        let n = v * 10 + d;
        v = if n <= cap {
            n
        } else {
            cap
        };
        i = i + 1;
    }
    v
}

/// `saturated(scaled(ds, t))`.
fn scaled_saturated(ds: &Vec<char>, t: i128) -> (r: u64)
    requires
        all_digits(ds@),
        -0x4_0000_0000_0000_0000 <= t <= 0x4_0000_0000_0000_0000,
    ensures
        r == saturated(scaled(ds@, t as int)),
{
    let n = ds.len();
    if t < 0 {
        let k: u128 = (-t) as u128;
        if k >= n as u128 {
            proof {
                lemma_small_scale_zero(ds@, t as int);
            }
            return 0;
        }
        let keep: usize = n - k as usize;
        proof {
            lemma_digits_drop(ds@, k as nat);
        }
        let v = digits_up_to(ds, keep, 0xffff_ffff_ffff_ffff);
        return v as u64;
    }
    assert(ds@.take(n as int) =~= ds@);
    let mut v = digits_up_to(ds, n, 0xffff_ffff_ffff_ffff);
    let ghost x = digits_value(ds@);
    assert(pow10(0) == 1);
    assert(x * pow10(0) == x);
    let mut j: i128 = 0;
    while j < t && v != 0 && v != 0xffff_ffff_ffff_ffff
        invariant
            0 <= j <= t,
            x == digits_value(ds@),
            v == saturated(x * pow10(j as nat)),
        decreases t - j,
    {
        proof {
            assert(pow10((j + 1) as nat) == 10 * pow10(j as nat));
            assert(x * pow10((j + 1) as nat) == 10 * (x * pow10(j as nat))) by (nonlinear_arith)
                requires
                    pow10((j + 1) as nat) == 10 * pow10(j as nat),
            ;
        }
        let n10 = v * 10;
        v = if n10 <= 0xffff_ffff_ffff_ffff {
            n10
        } else {
            0xffff_ffff_ffff_ffff
        };
        j = j + 1;
    }
    proof {
        if j < t {
            let pj = pow10(j as nat);
            let pt = pow10(t as nat);
            lemma_pow10_positive(j as nat);
            lemma_pow10_grows(j as nat, t as nat);
            if v == 0 {
                assert(x == 0) by (nonlinear_arith)
                    requires
                        x * pj == 0,
                        pj >= 1,
                ;
                assert(x * pt == 0) by (nonlinear_arith)
                    requires
                        x == 0,
                ;
            } else {
                assert(x * pt >= x * pj) by (nonlinear_arith)
                    requires
                        pt >= pj,
                ;
            }
        }
    }
    v as u64
}

/// Where the first `a` or `b` of `w[lo..hi]` stands, or `hi`.
fn first_mark_in(w: &Vec<char>, lo: usize, hi: usize, a: char, b: char) -> (k: usize)
    requires
        lo <= hi <= w.len(),
    ensures
        lo <= k <= hi,
        k - lo == first_mark(w@.subrange(lo as int, hi as int), a, b),
{
    reveal(first_mark);
    let ghost s = w@.subrange(lo as int, hi as int);
    let mut k: usize = lo;
    while k < hi && w[k] != a && w[k] != b
        invariant
            lo <= k <= hi <= w.len(),
            forall|j: int| lo <= j < k ==> w@[j] != a && w@[j] != b,
        decreases hi - k,
    {
        k = k + 1;
    }
    proof {
        let m = k - lo;
        if k < hi {
            assert(s[m] == w@[k as int]);
            let c = choose|c: int|
                0 <= c < s.len() && (s[c] == a || s[c] == b) && forall|j: int|
                    0 <= j < c ==> s[j] != a && s[j] != b;
            assert(c == m) by {
                if c < m {
                    assert(s[c] == w@[lo + c]);
                }
            }
        } else {
            assert(!exists|c: int| 0 <= c < s.len() && (s[c] == a || s[c] == b)) by {
                if exists|c: int| 0 <= c < s.len() && (s[c] == a || s[c] == b) {
                    let c = choose|c: int| 0 <= c < s.len() && (s[c] == a || s[c] == b);
                    assert(s[c] == w@[lo + c]);
                }
            }
        }
    }
    k
}

/// The mantissa that `w[lo..hi]` spells, as `mantissa` gives it.
fn parse_mantissa(w: &Vec<char>, lo: usize, hi: usize) -> (r: Option<(Vec<char>, usize)>)
    requires
        lo <= hi <= w.len(),
    ensures
        match mantissa(w@.subrange(lo as int, hi as int)) {
            Some((ds, scale)) => match r {
                Some((d, sc)) => d@ == ds && sc == scale && sc <= d@.len() && all_digits(d@),
                None => false,
            },
            None => r is None,
        },
{
    reveal(mantissa);
    let kd = first_mark_in(w, lo, hi, '.', '.');
    let frac_start: usize = if kd < hi {
        kd + 1
    } else {
        hi
    };
    let ghost s = w@.subrange(lo as int, hi as int);
    let ghost whole = s.take(kd - lo);
    let ghost frac = if kd < hi {
        s.skip(kd - lo + 1)
    } else {
        seq![]
    };
    assert(whole =~= w@.subrange(lo as int, kd as int));
    assert(frac =~= w@.subrange(frac_start as int, hi as int));
    let mut ds: Vec<char> = Vec::new();
    let whole_ok = append_digits(w, lo, kd, &mut ds);
    let frac_ok = append_digits(w, frac_start, hi, &mut ds);
    assert(ds@ =~= whole + frac);
    if !whole_ok || !frac_ok || ds.len() == 0 {
        return None;
    }
    assert(all_digits(ds@)) by {
        assert forall|i: int| 0 <= i < ds@.len() implies is_digit(#[trigger] ds@[i]) by {
            if i < whole.len() {
                assert(ds@[i] == whole[i]);
            } else {
                assert(ds@[i] == frac[i - whole.len()]);
            }
        }
    }
    Some((ds, hi - frac_start))
}

/// The exponent that `w[lo..hi]` spells, held within `-cap ..= cap`.
fn parse_exponent(w: &Vec<char>, lo: usize, hi: usize, cap: u128) -> (r: Option<i128>)
    requires
        lo <= hi <= w.len(),
        cap <= 0x1_0000_0000_0000_0040,
    ensures
        match exponent(w@.subrange(lo as int, hi as int)) {
            Some(e) => r == Some(clamp(e, cap as int) as i128),
            None => r is None,
        },
{
    reveal(exponent);
    let ghost s = w@.subrange(lo as int, hi as int);
    let signed = lo < hi && (w[lo] == '+' || w[lo] == '-');
    let neg = lo < hi && w[lo] == '-';
    let start: usize = if signed {
        lo + 1
    } else {
        lo
    };
    assert(w@.subrange(start as int, hi as int) =~= (if signed {
        s.drop_first()
    } else {
        s
    }));
    if start == hi {
        return None;
    }
    let mut ds: Vec<char> = Vec::new();
    let ok = append_digits(w, start, hi, &mut ds);
    assert(ds@ =~= w@.subrange(start as int, hi as int));
    if !ok {
        return None;
    }
    let m = digits_up_to(&ds, ds.len(), cap);
    assert(ds@.take(ds.len() as int) =~= ds@);
    if neg {
        Some(-(m as i128))
    } else {
        Some(m as i128)
    }
}

/// The number that `w[lo..hi]` spells, as `number` gives it, with its
/// exponent held within `digits + 64` either way.
fn parse_number(w: &Vec<char>, lo: usize, hi: usize) -> (r: Option<(Vec<char>, usize, i128)>)
    requires
        lo <= hi <= w.len(),
    ensures
        match number(w@.subrange(lo as int, hi as int)) {
            Some((ds, scale, e)) => match r {
                Some((d, sc, ec)) => d@ == ds && sc == scale && sc <= d@.len() && all_digits(d@)
                    && ec == clamp(e, d@.len() as int + 64) && -(d@.len() as int + 64) <= ec <= d@.len()
                    + 64,
                None => false,
            },
            None => r is None,
        },
        match r {
            Some((d, sc, ec)) => sc <= d@.len() && all_digits(d@) && -(d@.len() as int + 64) <= ec
                <= d@.len() + 64,
            None => true,
        },
{
    reveal(number);
    let ghost body = w@.subrange(lo as int, hi as int);
    let start: usize = if lo < hi && w[lo] == '+' {
        lo + 1
    } else {
        lo
    };
    let ghost u = w@.subrange(start as int, hi as int);
    assert(u =~= unsigned_part(body));
    let ke = first_mark_in(w, start, hi, 'e', 'E');
    assert(u.take(ke - start) =~= w@.subrange(start as int, ke as int));
    let (ds, scale) = match parse_mantissa(w, start, ke) {
        Some(m) => m,
        None => {
            return None;
        },
    };
    let cap: u128 = ds.len() as u128 + 64;
    if ke < hi {
        assert(u.skip(ke - start + 1) =~= w@.subrange(ke + 1, hi as int));
        match parse_exponent(w, ke + 1, hi, cap) {
            Some(e) => Some((ds, scale, e)),
            None => None,
        }
    } else {
        Some((ds, scale, 0))
    }
}

/// The fraction that one word stands for, as `percent_fraction` gives it.
pub fn parse_percent(w: &Vec<char>) -> (r: Option<Fraction>)
    ensures
        r == percent_fraction(w@),
{
    reveal(percent_fraction);
    let n = w.len();
    if n == 0 || w[n - 1] != '%' {
        return None;
    }
    let end = percent_body_len(w);
    assert(w@.subrange(0, end as int) =~= w@.take(end as int));
    let (ds, scale, e) = match parse_number(w, 0, end) {
        Some(x) => x,
        None => {
            return None;
        },
    };
    let dl: usize = ds.len();
    assert(-(dl as int + 64) <= e <= dl as int + 64);
    let t: i128 = e + 7 - scale as i128;
    let numer = scaled_saturated(&ds, t);
    proof {
        if let Some((_, _, e0)) = number(strip_percent(w@)) {
            if e0 != e as int {
                lemma_far_scales_agree(ds@, e0 + 7 - scale, t as int);
            }
        }
    }
    Some(Fraction { numer, denom: 1_000_000_000 })
}

/// Appends `w[lo..hi]` to `ds`, and tells whether those are all digits.
fn append_digits(w: &Vec<char>, lo: usize, hi: usize, ds: &mut Vec<char>) -> (r: bool)
    requires
        lo <= hi <= w.len(),
    ensures
        final(ds)@ == old(ds)@ + w@.subrange(lo as int, hi as int),
        r == all_digits(w@.subrange(lo as int, hi as int)),
{
    let mut ok = true;
    let mut i: usize = lo;
    while i < hi
        invariant
            lo <= i <= hi <= w.len(),
            ds@ == old(ds)@ + w@.subrange(lo as int, i as int),
            ok == all_digits(w@.subrange(lo as int, i as int)),
        decreases hi - i,
    {
        let c = w[i];
        let ghost before = w@.subrange(lo as int, i as int);
        let ghost after = w@.subrange(lo as int, i + 1);
        assert(after =~= before.push(c));
        if !('0' <= c && c <= '9') {
            ok = false;
            assert(!is_digit(after[after.len() - 1]));
        } else if ok {
            assert forall|j: int| 0 <= j < after.len() implies is_digit(#[trigger] after[j]) by {
                if j < before.len() {
                    assert(before[j] == after[j]);
                }
            }
        } else {
            proof {
                let j = choose|j: int| 0 <= j < before.len() && !is_digit(#[trigger] before[j]);
                assert(after[j] == before[j]);
            }
        }
        ds.push(c);
        i = i + 1;
    }
    ok
}

/// How much of `w` is left when the `%` signs at its end are taken off.
fn percent_body_len(w: &Vec<char>) -> (end: usize)
    ensures
        end <= w.len(),
        w@.take(end as int) == strip_percent(w@),
{
    let mut end: usize = w.len();
    assert(w@.take(end as int) =~= w@);
    while end > 0 && w[end - 1] == '%'
        invariant
            end <= w.len(),
            strip_percent(w@) == strip_percent(w@.take(end as int)),
        decreases end,
    {
        assert(w@.take(end - 1) =~= w@.take(end as int).drop_last());
        end = end - 1;
    }
    end
}

/// Whether `a` and `b` hold the same characters.
fn same_chars(a: &Vec<char>, b: &Vec<char>) -> (r: bool)
    ensures
        r == (a@ == b@),
{
    if a.len() != b.len() {
        return false;
    }
    let mut i: usize = 0;
    while i < a.len()
        invariant
            i <= a.len() == b.len(),
            forall|j: int| 0 <= j < i ==> a@[j] == b@[j],
        decreases a.len() - i,
    {
        if a[i] != b[i] {
            return false;
        }
        i = i + 1;
    }
    assert(a@ =~= b@);
    true
}

impl DownloadQueue {
    /// Reads one line of the download tool's output. A line without `[download]`
    /// or without a `%` says nothing. In one that has both, split into words at
    /// white space: the progress is the fraction of the last word such as
    /// `45.2%` (percent over 100) that reads as a number; the rate is the word
    /// after the last `at`, the time left the word after the last `ETA`, each
    /// kept as it stands.
    pub fn parse_download_line(line: &str) -> (r: (Option<Fraction>, Option<String>, Option<String>))
        ensures
            r.0 == line_fields(line@).0,
            opt_view(r.1) == line_fields(line@).1,
            opt_view(r.2) == line_fields(line@).2,
    {
        let cs = chars_of(line);
        let marker = vec!['[', 'd', 'o', 'w', 'n', 'l', 'o', 'a', 'd', ']'];
        assert(marker@ =~= download_marker());
        if !holds_infix(&cs, &marker) || !holds_char(&cs, '%') {
            return (None, None, None);
        }
        let ws = split_words(&cs);
        let ghost wv = word_views(ws@);
        let at_key = vec!['a', 't'];
        let eta_word = vec!['E', 'T', 'A'];
        assert(at_key@ =~= rate_key());
        assert(eta_word@ =~= eta_key());
        let mut progress: Option<Fraction> = None;
        let mut speed: Option<String> = None;
        let mut eta: Option<String> = None;
        let mut i: usize = 0;
        assert(wv.take(0) =~= seq![]);
        while i < ws.len()
            invariant
                i <= ws.len(),
                wv == word_views(ws@),
                at_key@ == rate_key(),
                eta_word@ == eta_key(),
                progress == progress_in(wv.take(i as int)),
                opt_view(speed) == word_after(wv.take(i as int), rate_key()),
                opt_view(eta) == word_after(wv.take(i as int), eta_key()),
            decreases ws.len() - i,
        {
            let ghost t = wv.take(i + 1);
            assert(t.drop_last() =~= wv.take(i as int));
            assert(t.last() == ws@[i as int]@);
            if let Some(f) = parse_percent(&ws[i]) {
                progress = Some(f);
            }
            if i > 0 {
                assert(t[t.len() - 2] == ws@[i - 1]@);
                if same_chars(&ws[i - 1], &at_key) {
                    speed = Some(string_of(&ws[i]));
                }
                if same_chars(&ws[i - 1], &eta_word) {
                    eta = Some(string_of(&ws[i]));
                }
            }
            i = i + 1;
        }
        assert(wv.take(i as int) =~= wv);
        (progress, speed, eta)
    }

}

} // verus!
