//! Locale-aware rendering of numbers for statistics output: a value printed
//! with four decimals loses its trailing zeros, its integer part gets the
//! locale's thousands separators, and the decimal point becomes the locale's
//! separator.

use vstd::prelude::*;
use num_format::{Locale, ToFormattedString};
use crate::chars::{
    chars_of, slice_to_vec, find_char, first_index, lemma_first_index, append_str, append_chars,
    push_char,
};
use crate::cli::LocaleKind;
use crate::decimal::{dec_digits, parse_magnitude};

verus! {

/// The thousands separator of a locale in `num_format`: `,` for English,
/// a narrow no-break space for French, `.` for the others.
pub open spec fn thousands_separator(loc: LocaleKind) -> Seq<char> {
    match loc {
        LocaleKind::En => seq![','],
        LocaleKind::Fr => seq!['\u{202f}'],
        _ => seq!['.'],
    }
}

/// Decimal digits with `sep` between groups of three, counted from the right.
pub open spec fn group_thousands(d: Seq<char>, sep: Seq<char>) -> Seq<char>
    decreases d.len(),
{
    if d.len() <= 3 {
        d
    } else {
        group_thousands(d.subrange(0, d.len() - 3), sep) + sep + d.subrange(
            d.len() - 3,
            d.len() as int,
        )
    }
}

/// `n.to_formatted_string(locale)` of `num_format` for a non-negative `n`.
///
/// Trusted: the locales used here all have standard grouping (every three
/// digits) and the separators given by `thousands_separator`, as the crate's
/// locale tables show.
#[verifier::external_body]
fn grouped_decimal(n: u64, loc: LocaleKind) -> (s: String)
    requires
        n <= i64::MAX,
    ensures
        s@ == group_thousands(dec_digits(n as nat), thousands_separator(loc)),
{
    let l: &Locale = match loc {
        LocaleKind::En => &Locale::en,
        LocaleKind::De => &Locale::de,
        LocaleKind::Fr => &Locale::fr,
        LocaleKind::Es => &Locale::es,
        LocaleKind::It => &Locale::it,
        LocaleKind::Pt => &Locale::pt,
        LocaleKind::Nl => &Locale::nl,
    };
    (n as i64).to_formatted_string(l)
}

/// `s` without its trailing `0`s.
pub open spec fn strip_zeros(s: Seq<char>) -> Seq<char>
    decreases s.len(),
{
    if s.len() > 0 && s.last() == '0' {
        strip_zeros(s.drop_last())
    } else {
        s
    }
}

/// A fixed-point text without insignificant decimals: trailing zeros of the
/// fraction removed, and the point too when nothing follows it.
pub open spec fn trimmed_fraction(s: Seq<char>) -> Seq<char> {
    if first_index(s, '.') is Some {
        let t = strip_zeros(s);
        if t.len() > 0 && t.last() == '.' {
            t.drop_last()
        } else {
            t
        }
    } else {
        s
    }
}

/// `s` without its leading `-` signs.
pub open spec fn strip_minus(s: Seq<char>) -> Seq<char>
    decreases s.len(),
{
    if s.len() > 0 && s[0] == '-' {
        strip_minus(s.drop_first())
    } else {
        s
    }
}

/// `str::parse::<i64>` of a text without a minus sign, `0` when it does not
/// parse.
pub open spec fn parse_or_zero(s: Seq<char>) -> nat {
    let body = if s.len() > 0 && s[0] == '+' {
        s.drop_first()
    } else {
        s
    };
    match parse_magnitude(body) {
        Some(v) => if v <= i64::MAX {
            v
        } else {
            0
        },
        None => 0,
    }
}

/// The integer part rendered for the locale: its sign, then its digits
/// grouped.
pub open spec fn localized_integer(intp: Seq<char>, loc: LocaleKind) -> Seq<char> {
    let sign = if intp.len() > 0 && intp[0] == '-' {
        seq!['-']
    } else {
        Seq::empty()
    };
    sign + group_thousands(dec_digits(parse_or_zero(strip_minus(intp))), thousands_separator(loc))
}

/// A number printed with four decimals (`format!("{:.4}", x)`), rendered for
/// a locale: insignificant decimals dropped, the integer part grouped, and
/// `dec_sep` before the remaining decimals.
pub open spec fn localized_fixed(fixed: Seq<char>, loc: LocaleKind, dec_sep: char) -> Seq<char> {
    let t = trimmed_fraction(fixed);
    match first_index(t, '.') {
        Some(i) => {
            let frac = t.skip(i + 1);
            if frac.len() == 0 {
                localized_integer(t.take(i), loc)
            } else {
                localized_integer(t.take(i), loc) + seq![dec_sep] + frac
            }
        },
        None => localized_integer(t, loc),
    }
}

fn strip_zeros_exec(v: &Vec<char>) -> (r: Vec<char>)
    ensures
        r@ == strip_zeros(v@),
{
    let mut n: usize = v.len();
    assert(v@.take(v@.len() as int) =~= v@);
    while n > 0 && v[n - 1] == '0'
        invariant
            n <= v@.len(),
            strip_zeros(v@) == strip_zeros(v@.take(n as int)),
        decreases n,
    {
        assert(v@.take(n as int).drop_last() =~= v@.take(n - 1));
        n = n - 1;
    }
    let r = slice_to_vec(v.as_slice(), 0, n);
    assert(r@ =~= v@.take(n as int));
    r
}

fn strip_minus_exec(v: &[char]) -> (r: Vec<char>)
    ensures
        r@ == strip_minus(v@),
{
    let mut i: usize = 0;
    assert(v@.skip(0) =~= v@);
    while i < v.len() && v[i] == '-'
        invariant
            i <= v@.len(),
            strip_minus(v@) == strip_minus(v@.skip(i as int)),
        decreases v@.len() - i,
    {
        assert(v@.skip(i as int).drop_first() =~= v@.skip(i + 1));
        i = i + 1;
    }
    let r = slice_to_vec(v, i, v.len());
    assert(r@ =~= v@.skip(i as int));
    proof {
        let w = v@.skip(i as int);
        if w.len() > 0 {
            assert(w[0] == v@[i as int]);
        }
    }
    r
}

fn parse_or_zero_exec(v: &[char]) -> (n: u64)
    ensures
        n as nat == parse_or_zero(v@),
        n <= i64::MAX,
{
    let start: usize = if v.len() > 0 && v[0] == '+' {
        1
    } else {
        0
    };
    let b = slice_to_vec(v, start, v.len());
    assert(start == 1 ==> b@ =~= v@.drop_first());
    assert(start == 0 ==> b@ =~= v@);
    if b.len() == 0 {
        return 0;
    }
    let mut i: usize = 0;
    while i < b.len()
        invariant
            i <= b@.len(),
            b@ == (if v@.len() > 0 && v@[0] == '+' {
                v@.drop_first()
            } else {
                v@
            }),
            b@.len() > 0,
            forall|k: int| 0 <= k < i ==> crate::decimal::is_digit(#[trigger] b@[k]),
        decreases b@.len() - i,
    {
        if !('0' <= b[i] && b[i] <= '9') {
            assert(!crate::decimal::is_digit(b@[i as int]));
            assert(!crate::decimal::all_digits(b@));
            return 0;
        }
        i = i + 1;
    }
    let mut acc: u64 = 0;
    let mut j: usize = 0;
    while j < b.len()
        invariant
            j <= b@.len(),
            b@ == (if v@.len() > 0 && v@[0] == '+' {
                v@.drop_first()
            } else {
                v@
            }),
            b@.len() > 0,
            crate::decimal::all_digits(b@),
            acc as nat == crate::decimal::digits_value(b@.take(j as int)),
            acc <= i64::MAX,
        decreases b@.len() - j,
    {
        assert(crate::decimal::is_digit(b@[j as int]));
        let d = ((b[j] as u32) - ('0' as u32)) as u64;
        assert(b@.take(j + 1).drop_last() =~= b@.take(j as int));
        assert(b@.take(j + 1).last() == b@[j as int]);
        if acc > (0x7FFF_FFFF_FFFF_FFFF - d) / 10 {
            proof {
                crate::decimal::lemma_digits_value_prefix(b@, j + 1);
                assert(crate::decimal::digits_value(b@.take(j + 1)) == acc * 10 + d);
                assert(acc * 10 + d > 0x7FFF_FFFF_FFFF_FFFF) by (nonlinear_arith)
                    requires
                        acc > (0x7FFF_FFFF_FFFF_FFFF - d) / 10,
                        d <= 9,
                ;
            }
            return 0;
        }
        assert(acc * 10 + d <= 0x7FFF_FFFF_FFFF_FFFF) by (nonlinear_arith)
            requires
                acc <= (0x7FFF_FFFF_FFFF_FFFF - d) / 10,
                d <= 9,
        ;
        acc = acc * 10 + d;
        j = j + 1;
    }
    assert(b@.take(b@.len() as int) =~= b@);
    acc
}

fn push_localized_integer(out: &mut String, intp: &[char], loc: LocaleKind)
    ensures
        final(out)@ == old(out)@ + localized_integer(intp@, loc),
{
    if intp.len() > 0 && intp[0] == '-' {
        push_char(out, '-');
    }
    let digits = strip_minus_exec(intp);
    let n = parse_or_zero_exec(digits.as_slice());
    let g = grouped_decimal(n, loc);
    append_str(out, g.as_str());
    assert(final(out)@ =~= old(out)@ + localized_integer(intp@, loc));
}

/// Renders a number printed with four decimals for a locale (see
/// `localized_fixed`).
pub fn fmt_float_with_locale(fixed: &str, loc: LocaleKind, dec_sep: char) -> (s: String)
    ensures
        s@ == localized_fixed(fixed@, loc, dec_sep),
{
    let v = chars_of(fixed);
    let t: Vec<char> = match find_char(v.as_slice(), '.') {
        Some(_) => {
            let z = strip_zeros_exec(&v);
            if z.len() > 0 && z[z.len() - 1] == '.' {
                slice_to_vec(z.as_slice(), 0, z.len() - 1)
            } else {
                z
            }
        },
        None => v,
    };
    assert(t@ =~= trimmed_fraction(fixed@));
    proof {
        crate::chars::lemma_first_index(t@, '.');
    }
    let mut s = String::new();
    match find_char(t.as_slice(), '.') {
        Some(i) => {
            let intp = slice_to_vec(t.as_slice(), 0, i);
            let frac = slice_to_vec(t.as_slice(), i + 1, t.len());
            assert(intp@ =~= t@.take(i as int));
            assert(frac@ =~= t@.skip(i + 1));
            push_localized_integer(&mut s, intp.as_slice(), loc);
            if frac.len() > 0 {
                push_char(&mut s, dec_sep);
                append_chars(&mut s, frac.as_slice());
            }
        },
        None => {
            push_localized_integer(&mut s, t.as_slice(), loc);
        },
    }
    s
}

} // verus!

verus! {

proof fn lemma_strip_zeros_shape(s: Seq<char>)
    ensures
        strip_zeros(s).len() <= s.len(),
        strip_zeros(s) == s.take(strip_zeros(s).len() as int),
        forall|j: int| strip_zeros(s).len() <= j < s.len() ==> s[j] == '0',
        strip_zeros(s).len() == 0 || strip_zeros(s).last() != '0',
    decreases s.len(),
{
    if s.len() > 0 && s.last() == '0' {
        let t = s.drop_last();
        lemma_strip_zeros_shape(t);
        let r = strip_zeros(t);
        assert(r == s.take(r.len() as int)) by {
            assert(t.take(r.len() as int) =~= s.take(r.len() as int));
        }
        assert forall|j: int| r.len() <= j < s.len() implies s[j] == '0' by {
            if j < t.len() {
                assert(t[j] == s[j]);
            }
        }
    } else {
        assert(s.take(s.len() as int) =~= s);
    }
}

proof fn lemma_strip_zeros_after(a: Seq<char>, b: Seq<char>)
    requires
        a.len() > 0,
        a.last() != '0',
    ensures
        strip_zeros(a + b) == a + strip_zeros(b),
    decreases b.len(),
{
    if b.len() == 0 {
        assert(a + b =~= a);
        assert(a + strip_zeros(b) =~= a);
    } else if b.last() == '0' {
        assert((a + b).drop_last() =~= a + b.drop_last());
        lemma_strip_zeros_after(a, b.drop_last());
    } else {
        assert((a + b).last() == b.last());
    }
}

/// Whether the first `n` digits after the point at `i` are the significant
/// ones: every later digit is `0` and the `n`-th is not.
pub open spec fn keeps_significant_digits(fixed: Seq<char>, i: int, n: int) -> bool {
    &&& 0 <= n <= fixed.len() - i - 1
    &&& forall|j: int| i + 1 + n <= j < fixed.len() ==> #[trigger] fixed[j] == '0'
    &&& (n == 0 || fixed[i + n] != '0')
}

/// Only trailing zeros leave the fraction: for a fixed-point text with one
/// point at `i`, the rendered number is the localized integer part followed
/// (when anything remains) by `dec_sep` and a prefix of the fraction's
/// digits, where exactly the digits after that prefix are zeros and the
/// prefix does not end in a zero.
pub proof fn law_fraction_loses_only_trailing_zeros(
    fixed: Seq<char>,
    loc: LocaleKind,
    dec_sep: char,
    i: int,
)
    requires
        0 <= i < fixed.len(),
        fixed[i] == '.',
        forall|k: int| 0 <= k < fixed.len() && k != i ==> fixed[k] != '.',
    ensures
        exists|n: int|
            #[trigger] keeps_significant_digits(fixed, i, n) && localized_fixed(fixed, loc, dec_sep)
                == localized_integer(fixed.take(i), loc) + (if n == 0 {
                Seq::<char>::empty()
            } else {
                seq![dec_sep] + fixed.subrange(i + 1, i + 1 + n)
            }),
{
    let a = fixed.take(i + 1);
    let b = fixed.skip(i + 1);
    assert(fixed =~= a + b);
    lemma_strip_zeros_shape(b);
    lemma_strip_zeros_after(a, b);
    let sz = strip_zeros(b);
    let n = sz.len() as int;
    lemma_first_index(fixed, '.');
    assert(first_index(fixed, '.') is Some);
    let t = a + sz;
    assert(strip_zeros(fixed) == t);
    assert forall|j: int| i + 1 + n <= j < fixed.len() implies #[trigger] fixed[j] == '0' by {
        assert(b[j - i - 1] == fixed[j]);
    }
    if n > 0 {
        assert(fixed[i + n] == b[n - 1]);
        assert(sz[n - 1] == b[n - 1]);
    }
    let lhs = localized_fixed(fixed, loc, dec_sep);
    if n == 0 {
        assert(t =~= a);
        assert(t.last() == '.');
        let t2 = t.drop_last();
        assert(t2 =~= fixed.take(i));
        assert(trimmed_fraction(fixed) == t2);
        lemma_first_index(t2, '.');
        assert(first_index(t2, '.') is None) by {
            if first_index(t2, '.') is Some {
                let j = first_index(t2, '.')->0;
                assert(t2[j] == fixed[j]);
            }
        }
        assert(lhs == localized_integer(fixed.take(i), loc) + Seq::<char>::empty());
    } else {
        assert(t.last() == sz[n - 1]);
        assert(sz[n - 1] == b[n - 1]);
        assert(b[n - 1] == fixed[i + n]);
        assert(t.last() != '.');
        assert(trimmed_fraction(fixed) == t);
        lemma_first_index(t, '.');
        assert(t[i] == '.');
        assert(first_index(t, '.') == Some(i)) by {
            let j = first_index(t, '.')->0;
            if j < i {
                assert(t[j] == fixed[j]);
            }
        }
        assert(t.skip(i + 1) =~= sz);
        assert(t.take(i) =~= fixed.take(i));
        assert(sz =~= fixed.subrange(i + 1, i + 1 + n));
    }
    assert(keeps_significant_digits(fixed, i, n));
}

} // verus!
