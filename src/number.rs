//! Decimal numbers written as text: unsigned integers and percentages.
use vstd::prelude::*;
use crate::text::{chars_of, split_on, split_text, views_of};

verus! {

/// The most significant digits a percentage keeps, so that they fit in 64 bits.
pub const MAX_PERCENT_DIGITS: usize = 19;

pub open spec fn is_digit(c: char) -> bool {
    '0' <= c <= '9'
}

pub open spec fn all_digits(s: Seq<char>) -> bool {
    forall|i: int| 0 <= i < s.len() ==> is_digit(#[trigger] s[i])
}

pub open spec fn digit_value(c: char) -> nat {
    (c as int - '0' as int) as nat
}

/// The number that the decimal digits `s` denote (0 for no digits).
pub open spec fn digits_value(s: Seq<char>) -> nat
    decreases s.len(),
{
    if s.len() == 0 {
        0
    } else {
        digits_value(s.drop_last()) * 10 + digit_value(s.last())
    }
}

pub open spec fn pow10(n: nat) -> nat
    decreases n,
{
    if n == 0 {
        1
    } else {
        10 * pow10((n - 1) as nat)
    }
}

/// The text after one leading `+`, if there is one.
pub open spec fn unsigned_body(s: Seq<char>) -> Seq<char> {
    if s.len() > 0 && s[0] == '+' {
        s.drop_first()
    } else {
        s
    }
}

/// What `u32::from_str` accepts: an optional `+`, then one or more ASCII digits
/// whose value fits in 32 bits.
pub open spec fn u32_of(s: Seq<char>) -> Option<u32> {
    let d = unsigned_body(s);
    if d.len() > 0 && all_digits(d) && digits_value(d) <= u32::MAX {
        Some(digits_value(d) as u32)
    } else {
        None
    }
}

/// A non-negative decimal number, `digits / 10^frac_len`. Parsing drops leading
/// and trailing zeros first: `012.50` and `12.5` are both 125 with one
/// fractional digit.
#[derive(Clone, Copy, Debug, PartialEq, Eq, Structural)]
pub struct Percentage {
    pub digits: u64,
    pub frac_len: u32,
}

/// The fractional part of a number split at `.`: empty where there is no `.`.
pub open spec fn frac_part(parts: Seq<Seq<char>>) -> Seq<char> {
    if parts.len() == 2 {
        parts[1]
    } else {
        Seq::<char>::empty()
    }
}

pub proof fn lemma_digits_bound(s: Seq<char>)
    requires
        all_digits(s),
    ensures
        digits_value(s) < pow10(s.len()),
    decreases s.len(),
{
    if s.len() > 0 {
        assert(all_digits(s.drop_last())) by {
            assert forall|i: int| 0 <= i < s.drop_last().len() implies is_digit(
                #[trigger] s.drop_last()[i],
            ) by {
                assert(s.drop_last()[i] == s[i]);
            }
        }
        assert(is_digit(s[s.len() - 1]));
        lemma_digits_bound(s.drop_last());
    }
}

pub proof fn lemma_digits_prefix(s: Seq<char>, k: int)
    requires
        0 <= k <= s.len(),
    ensures
        digits_value(s.take(k)) <= digits_value(s),
    decreases s.len(),
{
    if k < s.len() {
        assert(s.drop_last().take(k) =~= s.take(k));
        lemma_digits_prefix(s.drop_last(), k);
    } else {
        assert(s.take(k) =~= s);
    }
}

pub proof fn lemma_pow10_mono(a: nat, b: nat)
    requires
        a <= b,
    ensures
        pow10(a) <= pow10(b),
    decreases b,
{
    if a < b {
        lemma_pow10_mono(a, (b - 1) as nat);
    }
}

/// Parses an unsigned 32-bit integer as `u32::from_str` does.
pub fn parse_u32(s: &str) -> (r: Option<u32>)
    ensures
        r == u32_of(s@),
{
    let cs = chars_of(s);
    let n = cs.len();
    let start: usize = if n > 0 && cs[0] == '+' {
        1
    } else {
        0
    };
    let ghost d = unsigned_body(s@);
    assert(d =~= s@.subrange(start as int, n as int));
    if start == n {
        return None;
    }
    let mut acc: u64 = 0;
    let mut i: usize = start;
    assert(d.take(0) =~= Seq::<char>::empty());
    while i < n
        invariant
            cs@ == s@,
            n == s@.len(),
            d == s@.subrange(start as int, n as int),
            d == unsigned_body(s@),
            start <= i <= n,
            all_digits(d.take(i - start)),
            acc == digits_value(d.take(i - start)),
            acc <= u32::MAX,
        decreases n - i,
    {
        let c = cs[i];
        assert(d[i - start] == c);
        if !('0' <= c && c <= '9') {
            assert(!is_digit(d[i - start]));
            assert(!all_digits(d));
            assert(u32_of(s@).is_none());
            return None;
        }
        let ghost k = i - start;
        assert(d.take(k + 1).drop_last() =~= d.take(k));
        assert(d.take(k + 1).last() == c);
        let next: u64 = acc * 10 + (c as u64 - '0' as u64);
        assert(digits_value(d.take(k + 1)) == next);
        i = i + 1;
        if next > u32::MAX as u64 {
            proof {
                lemma_digits_prefix(d, k + 1);
            }
            assert(u32_of(s@).is_none());
            return None;
        }
        acc = next;
        assert(all_digits(d.take(i - start))) by {
            assert forall|j: int| 0 <= j < d.take(i - start).len() implies is_digit(
                #[trigger] d.take(i - start)[j],
            ) by {
                if j < k {
                    assert(d.take(i - start)[j] == d.take(k)[j]);
                }
            }
        }
    }
    assert(d.take(n - start) =~= d);
    Some(acc as u32)
}

/// The value of a run of at most `MAX_PERCENT_DIGITS` decimal digits.
fn digits_to_u64(cs: &Vec<char>) -> (r: u64)
    requires
        all_digits(cs@),
        cs@.len() <= MAX_PERCENT_DIGITS,
    ensures
        r == digits_value(cs@),
{
    proof {
        lemma_digits_bound(cs@);
        lemma_pow10_mono(cs@.len(), 19);
        reveal_with_fuel(pow10, 20);
        assert(pow10(19) == 10000000000000000000nat);
    }
    let mut acc: u64 = 0;
    let mut i: usize = 0;
    assert(cs@.take(0) =~= Seq::<char>::empty());
    while i < cs.len()
        invariant
            i <= cs@.len(),
            acc == digits_value(cs@.take(i as int)),
            all_digits(cs@),
            digits_value(cs@) < 10000000000000000000nat,
        decreases cs.len() - i,
    {
        let c = cs[i];
        assert(is_digit(cs@[i as int]));
        assert(cs@.take(i + 1).drop_last() =~= cs@.take(i as int));
        assert(cs@.take(i + 1).last() == c);
        proof {
            lemma_digits_prefix(cs@, i + 1);
        }
        assert(digits_value(cs@.take(i + 1)) == acc * 10 + digit_value(c));
        acc = acc * 10 + (c as u64 - '0' as u64);
        i = i + 1;
    }
    assert(cs@.take(cs@.len() as int) =~= cs@);
    acc
}

fn is_all_digits(cs: &Vec<char>) -> (r: bool)
    ensures
        r == all_digits(cs@),
{
    let mut i: usize = 0;
    while i < cs.len()
        invariant
            i <= cs@.len(),
            forall|j: int| 0 <= j < i ==> is_digit(#[trigger] cs@[j]),
        decreases cs.len() - i,
    {
        if !('0' <= cs[i] && cs[i] <= '9') {
            return false;
        }
        i = i + 1;
    }
    true
}


/// The index of the first exponent mark (`e` or `E`), or the length where there is none.
pub open spec fn exp_mark_index(s: Seq<char>) -> nat
    decreases s.len(),
{
    if s.len() == 0 || s[0] == 'e' || s[0] == 'E' {
        0
    } else {
        1 + exp_mark_index(s.drop_first())
    }
}

/// An exponent: an optional sign, then one or more digits. Its magnitude is
/// read saturating at `u64::MAX`.
pub open spec fn exponent_of(s: Seq<char>) -> Option<int> {
    let negative = s.len() > 0 && s[0] == '-';
    let d = if s.len() > 0 && (s[0] == '+' || s[0] == '-') {
        s.drop_first()
    } else {
        s
    };
    if d.len() > 0 && all_digits(d) {
        let m: int = if digits_value(d) > u64::MAX {
            u64::MAX as int
        } else {
            digits_value(d) as int
        };
        Some(
            if negative {
                -m
            } else {
                m
            },
        )
    } else {
        None
    }
}

pub open spec fn leading_zeros(s: Seq<char>) -> nat
    decreases s.len(),
{
    if s.len() > 0 && s[0] == '0' {
        1 + leading_zeros(s.drop_first())
    } else {
        0
    }
}

pub open spec fn trailing_zeros(s: Seq<char>) -> nat
    decreases s.len(),
{
    if s.len() > 0 && s.last() == '0' {
        1 + trailing_zeros(s.drop_last())
    } else {
        0
    }
}

/// The largest percentage: every side of at least one pixel that it scales
/// already exceeds 32 bits.
pub open spec fn saturated_percentage() -> Percentage {
    Percentage { digits: u64::MAX, frac_len: 0 }
}

/// The percentage `sig * 10^e`, for digits `sig` without leading or trailing zeros.
/// - No digits: zero.
/// - More than `MAX_PERCENT_DIGITS` digits before the point (at least 10^19
///   percent): `saturated_percentage()`.
/// - Otherwise the value, kept exactly where its digits fit in
///   `MAX_PERCENT_DIGITS`, else cut after the first `MAX_PERCENT_DIGITS`
///   digits (rounding toward zero).
/// - Where more than `u32::MAX` fractional digits would remain (a value under
///   10^-(u32::MAX - 19) percent): zero.
pub open spec fn fit_percentage(sig: Seq<char>, e: int) -> Percentage {
    if sig.len() == 0 {
        Percentage { digits: 0, frac_len: 0 }
    } else if sig.len() + e > MAX_PERCENT_DIGITS {
        saturated_percentage()
    } else if e >= 0 {
        Percentage { digits: (digits_value(sig) * pow10(e as nat)) as u64, frac_len: 0 }
    } else {
        let keep: int = if sig.len() > MAX_PERCENT_DIGITS {
            MAX_PERCENT_DIGITS as int
        } else {
            sig.len() as int
        };
        let f = keep - (sig.len() + e);
        if f > u32::MAX {
            Percentage { digits: 0, frac_len: 0 }
        } else {
            Percentage { digits: digits_value(sig.take(keep)) as u64, frac_len: f as u32 }
        }
    }
}

/// The text after one leading sign, `+` or `-`.
pub open spec fn unsigned_text(s: Seq<char>) -> Seq<char> {
    if s.len() > 0 && (s[0] == '+' || s[0] == '-') {
        s.drop_first()
    } else {
        s
    }
}

/// A percentage as a finite, non-negative floating-point literal: an optional
/// sign, digits with an optional `.` and at least one digit in all, then
/// optionally `e` or `E` and an exponent. A `-` is taken only where every
/// digit is zero. The value is `fit_percentage` of its significant digits.
pub open spec fn percentage_of(s: Seq<char>) -> Option<Percentage> {
    let negative = s.len() > 0 && s[0] == '-';
    let body = unsigned_text(s);
    let k = exp_mark_index(body);
    let parts = split_on(body.take(k as int), '.');
    let int_part = parts[0];
    let frac = frac_part(parts);
    let exponent = if k < body.len() {
        exponent_of(body.skip(k as int + 1))
    } else {
        Some(0int)
    };
    let all = int_part + frac;
    let t = all.skip(leading_zeros(all) as int);
    let tz = trailing_zeros(t);
    let sig = t.take(t.len() - tz);
    if (parts.len() == 1 || parts.len() == 2) && all_digits(int_part) && all_digits(frac)
        && all.len() >= 1 && exponent is Some && !(negative && sig.len() > 0) {
        Some(fit_percentage(sig, exponent->Some_0 - frac.len() + tz))
    } else {
        None
    }
}

pub proof fn lemma_pow10_add(a: nat, b: nat)
    ensures
        pow10(a + b) == pow10(a) * pow10(b),
    decreases a,
{
    if a > 0 {
        lemma_pow10_add((a - 1) as nat, b);
        assert(pow10(a + b) == 10 * pow10((a - 1 + b) as nat));
        assert(10 * (pow10((a - 1) as nat) * pow10(b)) == (10 * pow10((a - 1) as nat)) * pow10(b))
            by (nonlinear_arith);
    } else {
        assert(pow10(0) == 1);
        assert(a + b == b);
    }
}

fn exp_mark_position(cs: &Vec<char>) -> (r: usize)
    ensures
        r == exp_mark_index(cs@),
        r <= cs@.len(),
{
    let mut i: usize = 0;
    assert(cs@.skip(0) =~= cs@);
    while i < cs.len() && cs[i] != 'e' && cs[i] != 'E'
        invariant
            i <= cs@.len(),
            exp_mark_index(cs@) == i + exp_mark_index(cs@.skip(i as int)),
        decreases cs.len() - i,
    {
        assert(cs@.skip(i as int).drop_first() =~= cs@.skip(i + 1));
        assert(cs@.skip(i as int)[0] == cs@[i as int]);
        i = i + 1;
    }
    if i < cs.len() {
        assert(cs@.skip(i as int)[0] == cs@[i as int]);
    } else {
        assert(cs@.skip(i as int).len() == 0);
    }
    i
}

/// Parses an exponent, its magnitude saturating at `u64::MAX`.
fn parse_exponent(s: &str) -> (r: Option<i128>)
    ensures
        r matches Some(e) ==> exponent_of(s@) == Some(e as int) && -(u64::MAX as int) <= e
            <= u64::MAX,
        r is None ==> exponent_of(s@) is None,
{
    let cs = chars_of(s);
    let n = cs.len();
    let negative = n > 0 && cs[0] == '-';
    let start: usize = if n > 0 && (cs[0] == '+' || cs[0] == '-') {
        1
    } else {
        0
    };
    let ghost d = if s@.len() > 0 && (s@[0] == '+' || s@[0] == '-') {
        s@.drop_first()
    } else {
        s@
    };
    assert(d =~= s@.subrange(start as int, n as int));
    if start == n {
        return None;
    }
    let mut acc: u128 = 0;
    let mut i: usize = start;
    assert(d.take(0) =~= Seq::<char>::empty());
    while i < n
        invariant
            cs@ == s@,
            n == s@.len(),
            d == s@.subrange(start as int, n as int),
            d == (if s@.len() > 0 && (s@[0] == '+' || s@[0] == '-') {
                s@.drop_first()
            } else {
                s@
            }),
            start <= i <= n,
            all_digits(d.take(i - start)),
            acc as int == if digits_value(d.take(i - start)) > u64::MAX {
                u64::MAX as int
            } else {
                digits_value(d.take(i - start)) as int
            },
        decreases n - i,
    {
        let c = cs[i];
        assert(d[i - start] == c);
        if !('0' <= c && c <= '9') {
            assert(!is_digit(d[i - start]));
            assert(!all_digits(d));
            return None;
        }
        let ghost k = i - start;
        assert(d.take(k + 1).drop_last() =~= d.take(k));
        assert(d.take(k + 1).last() == c);
        let next: u128 = acc * 10 + (c as u128 - '0' as u128);
        acc = if next > u64::MAX as u128 {
            u64::MAX as u128
        } else {
            next
        };
        i = i + 1;
        assert(all_digits(d.take(i - start))) by {
            assert forall|j: int| 0 <= j < d.take(i - start).len() implies is_digit(
                #[trigger] d.take(i - start)[j],
            ) by {
                if j < k {
                    assert(d.take(i - start)[j] == d.take(k)[j]);
                }
            }
        }
    }
    assert(d.take(n - start) =~= d);
    if negative {
        Some(-(acc as i128))
    } else {
        Some(acc as i128)
    }
}

fn leading_zero_count(cs: &Vec<char>) -> (r: usize)
    ensures
        r == leading_zeros(cs@),
        r <= cs@.len(),
{
    let mut i: usize = 0;
    assert(cs@.skip(0) =~= cs@);
    while i < cs.len() && cs[i] == '0'
        invariant
            i <= cs@.len(),
            leading_zeros(cs@) == i + leading_zeros(cs@.skip(i as int)),
        decreases cs.len() - i,
    {
        assert(cs@.skip(i as int).drop_first() =~= cs@.skip(i + 1));
        assert(cs@.skip(i as int)[0] == cs@[i as int]);
        i = i + 1;
    }
    if i < cs.len() {
        assert(cs@.skip(i as int)[0] == cs@[i as int]);
    }
    i
}

fn trailing_zero_count(cs: &Vec<char>) -> (r: usize)
    ensures
        r == trailing_zeros(cs@),
        r <= cs@.len(),
{
    let n = cs.len();
    let mut j: usize = n;
    assert(cs@.take(n as int) =~= cs@);
    while j > 0 && cs[j - 1] == '0'
        invariant
            j <= n,
            n == cs@.len(),
            trailing_zeros(cs@) == (n - j) + trailing_zeros(cs@.take(j as int)),
        decreases j,
    {
        assert(cs@.take(j as int).drop_last() =~= cs@.take(j - 1));
        assert(cs@.take(j as int).last() == cs@[j - 1]);
        j = j - 1;
    }
    if j > 0 {
        assert(cs@.take(j as int).last() == cs@[j - 1]);
    }
    n - j
}

/// The characters of `cs` from `from` up to `to`.
fn sub_chars(cs: &Vec<char>, from: usize, to: usize) -> (r: Vec<char>)
    requires
        from <= to <= cs@.len(),
    ensures
        r@ == cs@.subrange(from as int, to as int),
{
    let mut r: Vec<char> = Vec::new();
    let mut i: usize = from;
    while i < to
        invariant
            from <= i <= to,
            to <= cs@.len(),
            r@ == cs@.subrange(from as int, i as int),
        decreases to - i,
    {
        r.push(cs[i]);
        i = i + 1;
        assert(r@ =~= cs@.subrange(from as int, i as int));
    }
    r
}

proof fn lemma_all_digits_sub(s: Seq<char>, a: int, b: int)
    requires
        all_digits(s),
        0 <= a <= b <= s.len(),
    ensures
        all_digits(s.subrange(a, b)),
{
    assert forall|j: int| 0 <= j < s.subrange(a, b).len() implies is_digit(
        #[trigger] s.subrange(a, b)[j],
    ) by {
        assert(s.subrange(a, b)[j] == s[a + j]);
    }
}

/// `b * 10^e`, where that stays below 10^19.
fn times_pow10(b: u64, e: u32) -> (r: u64)
    requires
        b * pow10(e as nat) < 10000000000000000000nat,
    ensures
        r == b * pow10(e as nat),
{
    let mut acc: u64 = b;
    let mut j: u32 = 0;
    assert(pow10(0) == 1);
    while j < e
        invariant
            j <= e,
            b * pow10(e as nat) < 10000000000000000000nat,
            acc == b * pow10(j as nat),
        decreases e - j,
    {
        proof {
            lemma_pow10_mono((j + 1) as nat, e as nat);
            assert(b * pow10((j + 1) as nat) <= b * pow10(e as nat)) by (nonlinear_arith)
                requires
                    pow10((j + 1) as nat) <= pow10(e as nat),
            ;
            assert(acc * 10 == b * pow10((j + 1) as nat)) by (nonlinear_arith)
                requires
                    acc == b * pow10(j as nat),
                    pow10((j + 1) as nat) == 10 * pow10(j as nat),
            ;
        }
        acc = acc * 10;
        j = j + 1;
    }
    acc
}

/// The percentage of significant digits `sig` times `10^e`.
fn fit_digits(sig: &Vec<char>, e: i128) -> (r: Percentage)
    requires
        all_digits(sig@),
        -0x4_0000_0000_0000_0000i128 <= e <= 0x4_0000_0000_0000_0000i128,
    ensures
        r == fit_percentage(sig@, e as int),
{
    let len = sig.len();
    if len == 0 {
        return Percentage { digits: 0, frac_len: 0 };
    }
    if len as i128 + e > MAX_PERCENT_DIGITS as i128 {
        return Percentage { digits: u64::MAX, frac_len: 0 };
    }
    if e >= 0 {
        let base = digits_to_u64(sig);
        proof {
            let b = digits_value(sig@);
            lemma_digits_bound(sig@);
            lemma_pow10_add(len as nat, e as nat);
            lemma_pow10_mono((len + e) as nat, 19);
            reveal_with_fuel(pow10, 20);
            assert(b * pow10(e as nat) < 10000000000000000000nat) by (nonlinear_arith)
                requires
                    b < pow10(len as nat),
                    pow10(len as nat) * pow10(e as nat) <= 10000000000000000000nat,
            ;
        }
        return Percentage { digits: times_pow10(base, e as u32), frac_len: 0 };
    }
    let keep: usize = if len > MAX_PERCENT_DIGITS {
        MAX_PERCENT_DIGITS
    } else {
        len
    };
    let f: i128 = keep as i128 - (len as i128 + e);
    if f > u32::MAX as i128 {
        return Percentage { digits: 0, frac_len: 0 };
    }
    let kept = sub_chars(sig, 0, keep);
    assert(kept@ =~= sig@.take(keep as int));
    proof {
        lemma_all_digits_sub(sig@, 0, keep as int);
    }
    let digits = digits_to_u64(&kept);
    Percentage { digits, frac_len: f as u32 }
}

/// Parses a percentage written as a finite, non-negative floating-point literal.
pub fn parse_percentage(s: &str) -> (r: Option<Percentage>)
    ensures
        r == percentage_of(s@),
{
    let n = s.unicode_len();
    let negative = n > 0 && s.get_char(0) == '-';
    let body: &str = if n > 0 && (s.get_char(0) == '+' || s.get_char(0) == '-') {
        s.substring_char(1, n)
    } else {
        s
    };
    assert(body@ == unsigned_text(s@));
    let bcs = chars_of(body);
    let k = exp_mark_position(&bcs);
    let exponent: Option<i128> = if k < bcs.len() {
        let tail = body.substring_char(k + 1, bcs.len());
        assert(tail@ =~= body@.skip(k + 1));
        parse_exponent(tail)
    } else {
        Some(0)
    };
    let mant = body.substring_char(0, k);
    assert(mant@ =~= body@.take(k as int));
    let parts = split_text(mant, '.');
    proof {
        crate::text::lemma_split_nonempty(mant@, '.');
        assert(views_of(parts@)[0] == parts@[0]@);
    }
    if parts.len() != 1 && parts.len() != 2 {
        return None;
    }
    let mut all = chars_of(parts[0].as_str());
    let mut frac: Vec<char> = Vec::new();
    if parts.len() == 2 {
        assert(views_of(parts@)[1] == parts@[1]@);
        frac = chars_of(parts[1].as_str());
    }
    assert(frac@ == frac_part(split_on(mant@, '.')));
    let int_digits = is_all_digits(&all);
    let frac_digits = is_all_digits(&frac);
    if !int_digits || !frac_digits {
        return None;
    }
    let e = match exponent {
        Some(e) => e,
        None => {
            return None;
        },
    };
    let frac_len = frac.len();
    let ghost int_part = all@;
    let mut frac_copy = frac.clone();
    all.append(&mut frac_copy);
    assert(all@ =~= int_part + frac@);
    if all.len() == 0 {
        return None;
    }
    assert(all_digits(all@)) by {
        assert forall|j: int| 0 <= j < all@.len() implies is_digit(#[trigger] all@[j]) by {
            if j < int_part.len() {
                assert(all@[j] == int_part[j]);
            } else {
                assert(all@[j] == frac@[j - int_part.len()]);
            }
        }
    }
    let lead = leading_zero_count(&all);
    let t = sub_chars(&all, lead, all.len());
    assert(t@ =~= all@.skip(lead as int));
    let tz = trailing_zero_count(&t);
    let sig = sub_chars(&t, 0, t.len() - tz);
    assert(sig@ =~= t@.take(t@.len() - tz));
    proof {
        lemma_all_digits_sub(all@, lead as int, all@.len() as int);
        lemma_all_digits_sub(t@, 0, t@.len() - tz);
    }
    if negative && sig.len() > 0 {
        return None;
    }
    let exp_total: i128 = e - frac_len as i128 + tz as i128;
    Some(fit_digits(&sig, exp_total))
}

} // verus!
