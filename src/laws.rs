//! Properties that relate the parsing and run functions across all inputs.
use vstd::prelude::*;
use crate::number::{
    all_digits, digit_value, digits_value, exp_mark_index, fit_percentage, is_digit, leading_zeros,
    lemma_digits_bound, lemma_pow10_add, lemma_pow10_mono, percentage_of, pow10, trailing_zeros,
    saturated_percentage, u32_of, Percentage, MAX_PERCENT_DIGITS,
};
use vstd::arithmetic::div_mod::{lemma_basic_div, lemma_div_by_multiple, lemma_div_is_ordered};
use crate::options::{
    config_from, config_of, filter_of, first_malformed, option_pair, pairs_map, raw_options_of,
    size_mode_of, ConfigFault, FilterKind, ResizeConfig, ResizeMode,
};
use crate::dispatch::scaled_side;
use crate::run::{accepts_event, next_step, Action, Event, Phase, RunError};
use crate::text::{lemma_split_two, lemma_split_without_sep, split_on};

verus! {

proof fn lemma_digits_exclude(s: Seq<char>, c: char)
    requires
        all_digits(s),
        !is_digit(c),
    ensures
        !s.contains(c),
{
    if s.contains(c) {
        let i = choose|i: int| 0 <= i < s.len() && s[i] == c;
        assert(is_digit(s[i]));
    }
}

proof fn lemma_concat_excludes(a: Seq<char>, b: Seq<char>, c: char)
    requires
        !a.contains(c),
        !b.contains(c),
    ensures
        !(a + b).contains(c),
{
    if (a + b).contains(c) {
        let i = choose|i: int| 0 <= i < (a + b).len() && (a + b)[i] == c;
        if i < a.len() {
            assert(a[i] == c);
        } else {
            assert(b[i - a.len()] == c);
        }
    }
}

proof fn lemma_single_excludes(a: char, c: char)
    requires
        a != c,
    ensures
        !seq![a].contains(c),
{
    if seq![a].contains(c) {
        let i = choose|i: int| 0 <= i < 1 && seq![a][i] == c;
    }
}

/// The option string `size=<v>`, for a non-empty value without `,` or `=`,
/// gives that size with the cubic filter, or fails as the size does.
pub proof fn lemma_size_option(v: Seq<char>)
    requires
        v.len() > 0,
        !v.contains(','),
        !v.contains('='),
    ensures
        config_of("size="@ + v) == match size_mode_of(v) {
            Some(mode) => Ok(ResizeConfig { mode, filter: FilterKind::Cubic }),
            None => Err(ConfigFault::InvalidSize(v)),
        },
{
    reveal_strlit("size=");
    reveal_strlit("size");
    reveal_strlit("filter");
    let key = "size"@;
    assert("size="@ =~= key.push('='));
    let s = key.push('=') + v;
    assert(!key.contains(',') && !key.contains('=')) by {
        if key.contains(',') || key.contains('=') {
            let i = choose|i: int| 0 <= i < key.len() && (key[i] == ',' || key[i] == '=');
        }
    }
    lemma_single_excludes('=', ',');
    assert(key.push('=') =~= key + seq!['=']);
    lemma_concat_excludes(key, seq!['='], ',');
    lemma_concat_excludes(key.push('='), v, ',');
    lemma_split_without_sep(s, ',');
    lemma_split_two(key, v, '=');
    assert(seq![s].drop_first() =~= Seq::<Seq<char>>::empty());
    assert(seq![s].drop_last() =~= Seq::<Seq<char>>::empty());
    assert("filter"@ != key) by {
        assert("filter"@.len() != key.len());
    }
    assert(("size="@ + v) == s);
    assert(split_on(s, '=') == seq![key, v]);
    assert(option_pair(s) == Some((key, v)));
    assert(seq![s][0] == s && seq![s].last() == s);
    assert(first_malformed(Seq::<Seq<char>>::empty()) is None);
    assert(first_malformed(seq![s]) is None);
    assert(pairs_map(Seq::<Seq<char>>::empty()) == Map::<Seq<char>, Seq<char>>::empty());
    let m = Map::<Seq<char>, Seq<char>>::empty().insert(key, v);
    assert(pairs_map(seq![s]) == m);
    assert(raw_options_of(s) == Ok::<_, ConfigFault>(m));
    assert(m.contains_key(key) && m[key] == v);
    assert(!m.contains_key("filter"@));
}

/// A size written as two decimal integers around an `x`, each fitting in 32
/// bits, denotes exactly that absolute size.
pub proof fn lemma_size_pair(w: Seq<char>, h: Seq<char>)
    requires
        w.len() > 0,
        h.len() > 0,
        all_digits(w),
        all_digits(h),
        digits_value(w) <= u32::MAX,
        digits_value(h) <= u32::MAX,
    ensures
        size_mode_of(w.push('x') + h) == Some(
            ResizeMode::AbsoluteSize {
                width: digits_value(w) as u32,
                height: digits_value(h) as u32,
            },
        ),
        config_of("size="@ + (w.push('x') + h)) == Ok::<_, ConfigFault>(
            ResizeConfig {
                mode: ResizeMode::AbsoluteSize {
                    width: digits_value(w) as u32,
                    height: digits_value(h) as u32,
                },
                filter: FilterKind::Cubic,
            },
        ),
{
    lemma_digits_exclude(w, ',');
    lemma_digits_exclude(h, ',');
    lemma_digits_exclude(w, '=');
    lemma_digits_exclude(h, '=');
    assert(w.push('x') =~= w + seq!['x']);
    lemma_single_excludes('x', ',');
    lemma_single_excludes('x', '=');
    lemma_concat_excludes(w, seq!['x'], ',');
    lemma_concat_excludes(w, seq!['x'], '=');
    lemma_concat_excludes(w.push('x'), h, ',');
    lemma_concat_excludes(w.push('x'), h, '=');
    lemma_size_option(w.push('x') + h);
    lemma_digits_exclude(w, 'x');
    lemma_digits_exclude(h, 'x');
    lemma_split_two(w, h, 'x');
    assert(is_digit(w[0]) && is_digit(h[0]));
    assert(u32_of(w) == Some(digits_value(w) as u32));
    assert(u32_of(h) == Some(digits_value(h) as u32));
}

/// A non-negative decimal number as written: the integer digits, then, where
/// there are fractional digits, a `.` and those digits.
pub open spec fn decimal_text(int_part: Seq<char>, frac: Seq<char>) -> Seq<char> {
    if frac.len() == 0 {
        int_part
    } else {
        int_part.push('.') + frac
    }
}

proof fn lemma_no_exp_mark(s: Seq<char>)
    requires
        !s.contains('e'),
        !s.contains('E'),
    ensures
        exp_mark_index(s) == s.len(),
    decreases s.len(),
{
    if s.len() > 0 {
        assert(s[0] != 'e' && s[0] != 'E') by {
            assert(s.contains(s[0]));
        }
        assert(!s.drop_first().contains('e') && !s.drop_first().contains('E')) by {
            if s.drop_first().contains('e') || s.drop_first().contains('E') {
                let i = choose|i: int| 0 <= i < s.drop_first().len() && (s.drop_first()[i] == 'e'
                    || s.drop_first()[i] == 'E');
                assert(s[i + 1] == s.drop_first()[i]);
            }
        }
        lemma_no_exp_mark(s.drop_first());
    }
}

proof fn lemma_decimal_excludes(int_part: Seq<char>, frac: Seq<char>, c: char)
    requires
        all_digits(int_part),
        all_digits(frac),
        !is_digit(c),
        c != '.',
        c != '%',
    ensures
        !decimal_text(int_part, frac).push('%').contains(c),
{
    let text = decimal_text(int_part, frac);
    lemma_digits_exclude(int_part, c);
    lemma_digits_exclude(frac, c);
    lemma_single_excludes('.', c);
    lemma_single_excludes('%', c);
    if frac.len() > 0 {
        assert(int_part.push('.') =~= int_part + seq!['.']);
        lemma_concat_excludes(int_part, seq!['.'], c);
        lemma_concat_excludes(int_part.push('.'), frac, c);
    }
    assert(text.push('%') =~= text + seq!['%']);
    lemma_concat_excludes(text, seq!['%'], c);
}

/// The significant digits of a run of digits: without leading or trailing zeros.
pub open spec fn significant(all: Seq<char>) -> Seq<char> {
    let t = all.skip(leading_zeros(all) as int);
    t.take(t.len() - trailing_zeros(t))
}

/// The number of trailing zeros that `significant` drops.
pub open spec fn dropped_zeros(all: Seq<char>) -> nat {
    trailing_zeros(all.skip(leading_zeros(all) as int))
}

proof fn lemma_decimal_unfold(int_part: Seq<char>, frac: Seq<char>)
    requires
        all_digits(int_part),
        all_digits(frac),
        1 <= int_part.len() + frac.len(),
    ensures
        !decimal_text(int_part, frac).push('%').contains('x'),
        !decimal_text(int_part, frac).push('%').contains(','),
        !decimal_text(int_part, frac).push('%').contains('='),
        percentage_of(decimal_text(int_part, frac)) == Some(
            fit_percentage(
                significant(int_part + frac),
                dropped_zeros(int_part + frac) - frac.len(),
            ),
        ),
{
    let text = decimal_text(int_part, frac);
    lemma_digits_exclude(int_part, '.');
    lemma_digits_exclude(frac, '.');
    lemma_decimal_excludes(int_part, frac, 'x');
    lemma_decimal_excludes(int_part, frac, ',');
    lemma_decimal_excludes(int_part, frac, '=');
    lemma_decimal_excludes(int_part, frac, 'e');
    lemma_decimal_excludes(int_part, frac, 'E');
    assert(text.len() > 0 && text[0] != '+' && text[0] != '-') by {
        if int_part.len() > 0 {
            assert(is_digit(int_part[0]));
        }
    }
    assert(!text.contains('e') && !text.contains('E')) by {
        if text.contains('e') || text.contains('E') {
            let i = choose|i: int| 0 <= i < text.len() && (text[i] == 'e' || text[i] == 'E');
            assert(text.push('%')[i] == text[i]);
        }
    }
    lemma_no_exp_mark(text);
    assert(text.take(text.len() as int) =~= text);
    if frac.len() == 0 {
        lemma_split_without_sep(int_part, '.');
        assert(int_part + frac =~= int_part);
    } else {
        lemma_split_two(int_part, frac, '.');
    }
}

/// A size written as a non-negative decimal number (digits, optionally a `.`
/// and more digits) followed by `%` denotes scaling by that number's
/// percentage, alone and as the option `size`.
pub proof fn lemma_size_percent(int_part: Seq<char>, frac: Seq<char>)
    requires
        all_digits(int_part),
        all_digits(frac),
        1 <= int_part.len() + frac.len(),
    ensures
        percentage_of(decimal_text(int_part, frac)) is Some,
        size_mode_of(decimal_text(int_part, frac).push('%')) == Some(
            ResizeMode::ScaleFactor { percent: percentage_of(decimal_text(int_part, frac))->Some_0 },
        ),
        config_of("size="@ + decimal_text(int_part, frac).push('%')) == Ok::<_, ConfigFault>(
            ResizeConfig {
                mode: ResizeMode::ScaleFactor {
                    percent: percentage_of(decimal_text(int_part, frac))->Some_0,
                },
                filter: FilterKind::Cubic,
            },
        ),
{
    let text = decimal_text(int_part, frac);
    lemma_decimal_unfold(int_part, frac);
    lemma_split_without_sep(text.push('%'), 'x');
    assert(text.push('%').drop_last() =~= text);
    lemma_size_option(text.push('%'));
}

proof fn lemma_leading_zeros_value(s: Seq<char>)
    requires
        all_digits(s),
    ensures
        digits_value(s.skip(leading_zeros(s) as int)) == digits_value(s),
        all_digits(s.skip(leading_zeros(s) as int)),
        leading_zeros(s) <= s.len(),
    decreases s.len(),
{
    if s.len() > 0 && s[0] == '0' {
        lemma_drop_leading_zero(s);
        assert(all_digits(s.drop_first())) by {
            assert forall|j: int| 0 <= j < s.drop_first().len() implies is_digit(
                #[trigger] s.drop_first()[j],
            ) by {
                assert(s.drop_first()[j] == s[j + 1]);
            }
        }
        lemma_leading_zeros_value(s.drop_first());
        assert(s.drop_first().skip(leading_zeros(s.drop_first()) as int) =~= s.skip(
            leading_zeros(s) as int,
        ));
    } else {
        assert(s.skip(0) =~= s);
    }
}

proof fn lemma_drop_leading_zero(s: Seq<char>)
    requires
        s.len() > 0,
        s[0] == '0',
    ensures
        digits_value(s) == digits_value(s.drop_first()),
    decreases s.len(),
{
    if s.len() == 1 {
        assert(s.drop_last().len() == 0);
        assert(s.drop_first().len() == 0);
        assert(s.last() == s[0]);
        assert(digit_value(s.last()) == 0);
        assert(digits_value(s.drop_last()) == 0);
        assert(digits_value(s.drop_first()) == 0);
        assert(digits_value(s) == digits_value(s.drop_last()) * 10 + digit_value(s.last()));
    } else {
        assert(s.drop_last()[0] == '0');
        lemma_drop_leading_zero(s.drop_last());
        assert(s.drop_first().drop_last() =~= s.drop_last().drop_first());
        assert(s.drop_first().last() == s.last());
        assert(digits_value(s) == digits_value(s.drop_last()) * 10 + digit_value(s.last()));
        assert(digits_value(s.drop_first()) == digits_value(s.drop_first().drop_last()) * 10
            + digit_value(s.drop_first().last()));
    }
}

proof fn lemma_trailing_zeros_value(t: Seq<char>)
    ensures
        digits_value(t) == digits_value(t.take(t.len() - trailing_zeros(t))) * pow10(
            trailing_zeros(t),
        ),
        trailing_zeros(t) <= t.len(),
    decreases t.len(),
{
    if t.len() > 0 && t.last() == '0' {
        lemma_trailing_zeros_value(t.drop_last());
        let k = trailing_zeros(t.drop_last());
        let base = digits_value(t.take(t.len() - trailing_zeros(t)));
        assert(t.drop_last().take(t.drop_last().len() - k) =~= t.take(t.len() - trailing_zeros(t)));
        assert(trailing_zeros(t) == k + 1);
        assert(digit_value(t.last()) == 0);
        assert(digits_value(t) == digits_value(t.drop_last()) * 10 + digit_value(t.last()));
        assert(digits_value(t.drop_last()) == base * pow10(k));
        assert(pow10(k + 1) == 10 * pow10(k));
        assert(base * pow10(k) * 10 == base * pow10(k + 1)) by (nonlinear_arith)
            requires
                pow10(k + 1) == 10 * pow10(k),
        ;
    } else {
        assert(t.take(t.len() as int) =~= t);
        assert(pow10(0) == 1);
        assert(digits_value(t) * 1 == digits_value(t));
    }
}

/// A decimal number of at most `MAX_PERCENT_DIGITS` written digits keeps its
/// exact value: `digits / 10^frac_len` equals the number written.
pub proof fn lemma_percentage_exact(int_part: Seq<char>, frac: Seq<char>)
    requires
        all_digits(int_part),
        all_digits(frac),
        1 <= int_part.len() + frac.len() <= MAX_PERCENT_DIGITS,
    ensures
        ({
            let p = percentage_of(decimal_text(int_part, frac))->Some_0;
            p.digits * pow10(frac.len()) == digits_value(int_part + frac) * pow10(
                p.frac_len as nat,
            )
        }),
{
    lemma_decimal_unfold(int_part, frac);
    let all = int_part + frac;
    assert(all_digits(all)) by {
        assert forall|j: int| 0 <= j < all.len() implies is_digit(#[trigger] all[j]) by {
            if j < int_part.len() {
                assert(all[j] == int_part[j]);
            } else {
                assert(all[j] == frac[j - int_part.len()]);
            }
        }
    }
    lemma_leading_zeros_value(all);
    let t = all.skip(leading_zeros(all) as int);
    lemma_trailing_zeros_value(t);
    let tz = trailing_zeros(t);
    let sig = significant(all);
    let fl = frac.len();
    let e = tz - fl;
    let v = digits_value(sig);
    assert(all_digits(sig)) by {
        assert forall|j: int| 0 <= j < sig.len() implies is_digit(#[trigger] sig[j]) by {
            assert(sig[j] == t[j]);
        }
    }
    lemma_digits_bound(sig);
    assert(digits_value(all) == v * pow10(tz));
    let p = percentage_of(decimal_text(int_part, frac))->Some_0;
    assert(t.len() == sig.len() + tz);
    lemma_fit_exact(sig, tz, fl);
    assert(p.digits * pow10(fl) == digits_value(all) * pow10(p.frac_len as nat));
}

proof fn lemma_pow10_19()
    ensures
        pow10(19) == 10000000000000000000nat,
{
    reveal_with_fuel(pow10, 20);
}

proof fn lemma_fit_exact_up(sig: Seq<char>, tz: nat, fl: nat)
    requires
        all_digits(sig),
        sig.len() > 0,
        sig.len() + tz <= MAX_PERCENT_DIGITS,
        tz >= fl,
    ensures
        ({
            let p = fit_percentage(sig, tz - fl);
            p.digits * pow10(fl) == digits_value(sig) * pow10(tz) * pow10(p.frac_len as nat)
        }),
{
    let e: nat = (tz - fl) as nat;
    let v = digits_value(sig);
    let p = fit_percentage(sig, tz - fl);
    lemma_digits_bound(sig);
    lemma_pow10_add(sig.len(), e);
    lemma_pow10_add(e, fl);
    lemma_pow10_mono(sig.len() + e, 19);
    lemma_pow10_19();
    assert(v * pow10(e) < 10000000000000000000nat) by (nonlinear_arith)
        requires
            v < pow10(sig.len()),
            pow10(sig.len()) * pow10(e) <= 10000000000000000000nat,
    ;
    assert(e + fl == tz);
    assert(p.digits == v * pow10(e));
    assert(v * pow10(e) * pow10(fl) == v * pow10(tz)) by (nonlinear_arith)
        requires
            pow10(tz) == pow10(e) * pow10(fl),
    ;
    assert(p.frac_len == 0);
    assert(pow10(0) == 1);
}

proof fn lemma_fit_exact_down(sig: Seq<char>, tz: nat, fl: nat)
    requires
        all_digits(sig),
        sig.len() > 0,
        sig.len() + tz <= MAX_PERCENT_DIGITS,
        tz < fl <= MAX_PERCENT_DIGITS,
    ensures
        ({
            let p = fit_percentage(sig, tz - fl);
            p.digits * pow10(fl) == digits_value(sig) * pow10(tz) * pow10(p.frac_len as nat)
        }),
{
    let v = digits_value(sig);
    let p = fit_percentage(sig, tz - fl);
    lemma_digits_bound(sig);
    lemma_pow10_add(tz, (fl - tz) as nat);
    lemma_pow10_mono(sig.len(), 19);
    lemma_pow10_19();
    assert(sig.take(sig.len() as int) =~= sig);
    assert(p.frac_len == fl - tz);
    assert(p.digits == v);
    assert(v * pow10(fl) == v * pow10(tz) * pow10((fl - tz) as nat)) by (nonlinear_arith)
        requires
            pow10(fl) == pow10(tz) * pow10((fl - tz) as nat),
    ;
}

proof fn lemma_fit_exact(sig: Seq<char>, tz: nat, fl: nat)
    requires
        all_digits(sig),
        sig.len() + tz <= MAX_PERCENT_DIGITS,
        fl <= MAX_PERCENT_DIGITS,
    ensures
        ({
            let p = fit_percentage(sig, tz - fl);
            p.digits * pow10(fl) == digits_value(sig) * pow10(tz) * pow10(p.frac_len as nat)
        }),
{
    if sig.len() == 0 {
        let v = digits_value(sig);
        let p = fit_percentage(sig, tz - fl);
        assert(v == 0);
        assert(p.digits == 0);
        assert(v * pow10(tz) * pow10(p.frac_len as nat) == 0) by (nonlinear_arith)
            requires
                v == 0,
        ;
    } else if tz >= fl {
        lemma_fit_exact_up(sig, tz, fl);
    } else {
        lemma_fit_exact_down(sig, tz, fl);
    }
}

/// A percentage of at least 10^19 scales every side of at least one pixel to
/// `u32::MAX` and keeps a zero side zero; so does `saturated_percentage()`,
/// which stands for every larger value.
pub proof fn lemma_huge_percentage_sides(dim: u32, p: Percentage)
    requires
        p.digits >= 10000000000000000000nat * pow10(p.frac_len as nat),
    ensures
        scaled_side(dim, p) == (if dim == 0 {
            0u32
        } else {
            u32::MAX
        }),
        scaled_side(dim, saturated_percentage()) == scaled_side(dim, p),
{
    let d = pow10(p.frac_len as nat);
    lemma_pow10_mono(0, p.frac_len as nat);
    assert(pow10(0) == 1);
    let den: int = (100 * d) as int;
    let x: int = (dim * p.digits) as int;
    if dim == 0 {
        assert(x == 0);
        lemma_basic_div(0, den);
    } else {
        let q: int = dim * 100000000000000000int;
        assert(x >= q * den) by (nonlinear_arith)
            requires
                x == dim * p.digits,
                p.digits >= 10000000000000000000nat * d,
                q == dim * 100000000000000000int,
                den == 100 * d,
                dim >= 1,
        ;
        lemma_div_by_multiple(q, den);
        lemma_div_is_ordered(q * den, x, den);
        assert(q > u32::MAX);
    }
    let sat = saturated_percentage();
    assert(sat.digits >= 10000000000000000000nat * pow10(sat.frac_len as nat));
    let xs: int = (dim * sat.digits) as int;
    if dim == 0 {
        assert(xs == 0);
        lemma_basic_div(0, 100);
    } else {
        let q: int = dim * 100000000000000000int;
        assert(xs >= q * 100) by (nonlinear_arith)
            requires
                xs == dim * sat.digits,
                sat.digits == u64::MAX,
                q == dim * 100000000000000000int,
                dim >= 1,
        ;
        lemma_div_by_multiple(q, 100);
        lemma_div_is_ordered(q * 100, xs, 100);
    }
}

/// A size that is neither two parts around one `x` nor ends in `%` is refused,
/// and a configuration with such a size fails with `InvalidSize`.
pub proof fn lemma_size_other_forms_fail(m: Map<Seq<char>, Seq<char>>)
    requires
        m.contains_key("size"@),
        split_on(m["size"@], 'x').len() != 2,
        !(m["size"@].len() > 0 && m["size"@].last() == '%'),
    ensures
        size_mode_of(m["size"@]) is None,
        config_from(m) == Err::<ResizeConfig, _>(ConfigFault::InvalidSize(m["size"@])),
{
}

/// An option string whose items are all well formed but hold no `size` key
/// fails with `MissingSize`, whatever else it holds.
pub proof fn lemma_missing_size(raw: Seq<char>)
    requires
        raw_options_of(raw) is Ok,
        !(raw_options_of(raw)->Ok_0).contains_key("size"@),
    ensures
        config_of(raw) == Err::<ResizeConfig, _>(ConfigFault::MissingSize),
{
}

/// A `filter` value that names no filter gives cubic rather than an error.
pub proof fn lemma_unknown_filter_is_cubic(m: Map<Seq<char>, Seq<char>>)
    requires
        m.contains_key("filter"@),
        m["filter"@] != "default"@,
        m["filter"@] != "nearest"@,
        m["filter"@] != "linear"@,
        m["filter"@] != "cubic"@,
        m["filter"@] != "gaussian"@,
        m["filter"@] != "lanczos3"@,
    ensures
        filter_of(m["filter"@]) == FilterKind::Cubic,
        m.contains_key("size"@) && size_mode_of(m["size"@]) is Some ==> config_from(m) == Ok::<
            _,
            ConfigFault,
        >(ResizeConfig { mode: size_mode_of(m["size"@])->Some_0, filter: FilterKind::Cubic }),
{
}

/// A source path that is not a directory ends the run at once: the walk is
/// never started, and no further event is taken.
pub proof fn lemma_file_source_stops_before_walk(config: ResizeConfig)
    ensures
        next_step(Phase::Start, config, Event::SourceChecked { is_dir: false }) == (
            Phase::Finished,
            Action::Abort { error: RunError::NotADirectory },
        ),
        forall|e: Event| !accepts_event(Phase::Finished, e),
{
}

} // verus!
