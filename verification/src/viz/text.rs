//! Text measurement, truncation and wrapping.
//!
//! Widths follow the single-precision heuristic `ceil(chars * font_px * 0.6)`;
//! the rounding of each single-precision step is modelled exactly with integers.

use vstd::prelude::*;
use vstd::arithmetic::power2::{
    pow2, lemma_pow2_unfold, lemma_pow2_pos, lemma_pow2_strictly_increases, lemma2_to64,
};
use vstd::arithmetic::div_mod::{
    lemma_div_denominator, lemma_fundamental_div_mod, lemma_div_is_ordered, lemma_mod_bound,
};
use vstd::arithmetic::mul::lemma_mul_inequality;

verus! {

/// Number of halvings that bring `x` below `2^24` (the significand width of `f32`).
pub open spec fn excess_bits(x: nat) -> nat
    decreases x,
{
    if x < 0x100_0000 {
        0
    } else {
        1 + excess_bits(x / 2)
    }
}

/// The nearest `f32` to the non-negative integer `x` (ties to even), as an
/// integer. Values below `2^24` are exact; larger ones are rounded to a
/// multiple of `2^excess_bits(x)`.
pub open spec fn round_f32(x: nat) -> nat {
    let k = excess_bits(x);
    let p = pow2(k);
    let q = x / p;
    let r = x % p;
    if k == 0 {
        x
    } else if r * 2 < p {
        q * p
    } else if r * 2 > p {
        (q + 1) * p
    } else if q % 2 == 0 {
        q * p
    } else {
        (q + 1) * p
    }
}

/// `0.6f32` is `SIXTENTHS_F32 / 2^24`.
pub open spec fn six_tenths_f32_num() -> nat {
    10066330
}

/// `estimate_text_width_px` for a text of `n` characters:
/// `((n as f32) * (font_px as f32) * 0.6).ceil() as u32`, every product
/// rounded to the nearest `f32` and the final cast saturating.
pub open spec fn text_width(n: nat, font_px: nat) -> nat {
    let prod = round_f32(round_f32(n) * round_f32(font_px));
    let scaled = round_f32(prod * six_tenths_f32_num());
    let c = (scaled + 0xFF_FFFF) / 0x100_0000;
    if c > u32::MAX {
        u32::MAX as nat
    } else {
        c
    }
}

/// Exact integer rounding to the nearest `f32` (see `round_f32`).
pub(crate) fn round_f32_exec(x: u128) -> (r: u128)
    requires
        x < 0x4000_0000_0000_0000_0000_0000_0000_0000,
    ensures
        r as nat == round_f32(x as nat),
        r <= 2 * x,
{
    let mut q: u128 = x;
    let mut p: u128 = 1;
    let ghost mut k: nat = 0;
    proof {
        assert(pow2(0) == 1) by {
            vstd::arithmetic::power2::lemma2_to64();
        }
    }
    while q >= 0x100_0000
        invariant
            p == pow2(k),
            p >= 1,
            q == x / p,
            p * q <= x,
            x < 0x4000_0000_0000_0000_0000_0000_0000_0000,
            excess_bits(x as nat) == k + excess_bits(q as nat),
            k > 0 ==> q >= 0x80_0000,
            k > 0 <==> p >= 2,
        decreases q,
    {
        proof {
            lemma_pow2_unfold(k + 1);
            lemma_div_denominator(x as int, p as int, 2);
            assert(p * 2 <= p * q) by (nonlinear_arith)
                requires
                    q >= 2,
                    p >= 1,
            ;
            assert((p * 2) * (q / 2) <= p * q) by (nonlinear_arith)
                requires
                    p >= 1,
            ;
        }
        q = q / 2;
        p = p * 2;
        proof {
            k = k + 1;
        }
    }
    if p == 1 {
        return x;
    }
    proof {
        lemma_fundamental_div_mod(x as int, p as int);
    }
    let rem: u128 = x - q * p;
    assert(rem == x % p);
    let twice = rem * 2;
    proof {
        assert(p <= x) by (nonlinear_arith)
            requires
                p * q <= x,
                q >= 1,
                p >= 1,
        ;
        assert((q + 1) * p == q * p + p) by (nonlinear_arith);
    }
    if twice < p {
        q * p
    } else if twice > p {
        (q + 1) * p
    } else if q % 2 == 0 {
        q * p
    } else {
        (q + 1) * p
    }
}

/// Heuristic pixel width of `text` at `font_px` (Plotters has no text metrics):
/// `text_width` of its character count.
pub fn estimate_text_width_px(text: &str, font_px: u32) -> (w: u32)
    ensures
        w as nat == text_width(text@.len(), font_px as nat),
{
    let v = crate::chars::chars_of(text);
    width_of_count(v.len() as u128, font_px)
}

/// `text_width(n, font_px)` for a character count.
pub(crate) fn width_of_count(n: u128, font_px: u32) -> (w: u32)
    requires
        n <= 0x1_0000_0000_0000_0000,
    ensures
        w as nat == text_width(n as nat, font_px as nat),
{
    let rn = round_f32_exec(n as u128);
    let rf = round_f32_exec(font_px as u128);
    proof {
        assert(rn * rf <= 0x4_0000_0000_0000_0000_0000_0000) by (nonlinear_arith)
            requires
                rn <= 2 * n,
                rf <= 2 * (font_px as u128),
                n <= 0x1_0000_0000_0000_0000,
                font_px <= u32::MAX,
        ;
    }
    let prod = round_f32_exec(rn * rf);
    let scaled = round_f32_exec(prod * 10066330);
    let c = (scaled + 0xFF_FFFF) / 0x100_0000;
    if c > 0xFFFF_FFFF {
        0xFFFF_FFFF
    } else {
        c as u32
    }
}

} // verus!

verus! {

/// UTF-8 length of one character.
pub open spec fn utf8_width(c: char) -> nat {
    if (c as u32) < 0x80 {
        1
    } else if (c as u32) < 0x800 {
        2
    } else if (c as u32) < 0x10000 {
        3
    } else {
        4
    }
}

/// UTF-8 length of a character sequence (`str::len`).
pub open spec fn utf8_len(s: Seq<char>) -> nat
    decreases s.len(),
{
    if s.len() == 0 {
        0
    } else {
        utf8_len(s.drop_last()) + utf8_width(s.last())
    }
}

/// The ellipsis appended by truncation.
pub open spec fn ellipsis() -> char {
    '\u{2026}'
}

/// What `truncate_to_width` returns once `out` (the longest fitting prefix
/// scanned so far) has been found too short to take the next character.
pub open spec fn ellipsize(out: Seq<char>, font_px: nat, max_px: nat) -> Seq<char> {
    if out.len() == 0 {
        out
    } else if text_width(out.len() + 1, font_px) <= max_px {
        out.push(ellipsis())
    } else if utf8_len(out) > 1 {
        out.drop_last().push(ellipsis())
    } else {
        out
    }
}

/// Scan of `truncate_to_width` from position `i`: the first `k >= i` whose
/// prefix of `k + 1` characters is wider than `max_px` ends the scan.
pub open spec fn truncate_from(t: Seq<char>, font_px: nat, max_px: nat, i: nat) -> Seq<char>
    decreases t.len() - i,
{
    if i >= t.len() {
        t
    } else if text_width(i + 1, font_px) > max_px {
        ellipsize(t.take(i as int), font_px, max_px)
    } else {
        truncate_from(t, font_px, max_px, i + 1)
    }
}

/// `truncate_to_width(text, font_px, max_px)`.
pub open spec fn truncate_spec(t: Seq<char>, font_px: nat, max_px: nat) -> Seq<char> {
    truncate_from(t, font_px, max_px, 0)
}

proof fn lemma_utf8_len_ge(s: Seq<char>)
    ensures
        utf8_len(s) >= s.len(),
    decreases s.len(),
{
    if s.len() > 0 {
        lemma_utf8_len_ge(s.drop_last());
    }
}

proof fn lemma_utf8_len_gt1(s: Seq<char>)
    requires
        s.len() > 0,
    ensures
        (utf8_len(s) > 1) == (s.len() >= 2 || (s[0] as u32) >= 0x80),
{
    if s.len() == 1 {
        assert(s.drop_last() =~= Seq::<char>::empty());
        assert(utf8_len(s.drop_last()) == 0);
        assert(s.last() == s[0]);
        assert(utf8_len(s) == utf8_width(s[0]));
    } else {
        lemma_utf8_len_ge(s.drop_last());
    }
}

fn ellipsize_exec(out: Vec<char>, font_px: u32, max_px: u32) -> (r: Vec<char>)
    ensures
        r@ == ellipsize(out@, font_px as nat, max_px as nat),
{
    let ghost old_out = out@;
    let mut out = out;
    if out.len() == 0 {
        return out;
    }
    if width_of_count(out.len() as u128 + 1, font_px) <= max_px {
        out.push('\u{2026}');
        return out;
    }
    proof {
        lemma_utf8_len_gt1(out@);
    }
    if out.len() >= 2 || (out[0] as u32) >= 0x80 {
        let last = out.len() - 1;
        out.truncate(last);
        out.push('\u{2026}');
        assert(out@ =~= old_out.drop_last().push(ellipsis()));
    }
    out
}

} // verus!

verus! {

proof fn lemma_truncate_from_step(t: Seq<char>, font_px: nat, max_px: nat, i: nat)
    requires
        i < t.len(),
        text_width(i + 1, font_px) <= max_px,
    ensures
        truncate_from(t, font_px, max_px, i) == truncate_from(t, font_px, max_px, i + 1),
{
}

fn truncate_chars(t: &[char], font_px: u32, max_px: u32) -> (r: Vec<char>)
    ensures
        r@ == truncate_spec(t@, font_px as nat, max_px as nat),
{
    let mut i: usize = 0;
    while i < t.len()
        invariant
            i <= t.len(),
            truncate_spec(t@, font_px as nat, max_px as nat) == truncate_from(
                t@,
                font_px as nat,
                max_px as nat,
                i as nat,
            ),
        decreases t.len() - i,
    {
        if width_of_count(i as u128 + 1, font_px) > max_px {
            let mut out: Vec<char> = Vec::new();
            let mut k: usize = 0;
            while k < i
                invariant
                    k <= i < t.len(),
                    out@ == t@.take(k as int),
                decreases i - k,
            {
                out.push(t[k]);
                k = k + 1;
                assert(out@ =~= t@.take(k as int));
            }
            return ellipsize_exec(out, font_px, max_px);
        }
        proof {
            lemma_truncate_from_step(t@, font_px as nat, max_px as nat, i as nat);
        }
        i = i + 1;
    }
    let mut all: Vec<char> = Vec::new();
    let mut k: usize = 0;
    while k < t.len()
        invariant
            k <= t.len(),
            all@ == t@.take(k as int),
        decreases t.len() - k,
    {
        all.push(t[k]);
        k = k + 1;
        assert(all@ =~= t@.take(k as int));
    }
    assert(all@ =~= t@);
    all
}

/// Truncates `text` to fit `max_px` and adds a single ellipsis if it was cut.
pub fn truncate_to_width(text: &str, font_px: u32, max_px: u32) -> (out: String)
    ensures
        out@ == truncate_spec(text@, font_px as nat, max_px as nat),
{
    let t = crate::chars::chars_of(text);
    let r = truncate_chars(t.as_slice(), font_px, max_px);
    crate::chars::string_of(r.as_slice())
}

} // verus!

verus! {

use crate::chars::{views, words, split_words, slice_to_vec};

/// Character-wise breaking of a word that does not fit on a line of its own,
/// continuing from position `j` with the lines so far and the open chunk `buf`.
/// A first character that does not fit on its own yields the truncated word.
pub open spec fn hard_break_from(
    word: Seq<char>,
    font_px: nat,
    max_px: nat,
    j: nat,
    lines: Seq<Seq<char>>,
    buf: Seq<char>,
) -> Seq<Seq<char>>
    decreases word.len() - j,
{
    if j >= word.len() {
        if buf.len() > 0 {
            lines.push(buf)
        } else {
            lines
        }
    } else {
        let cand = buf.push(word[j as int]);
        if text_width(cand.len(), font_px) > max_px {
            if buf.len() == 0 {
                lines.push(truncate_spec(word, font_px, max_px))
            } else {
                hard_break_from(word, font_px, max_px, j + 1, lines.push(buf), seq![word[j as int]])
            }
        } else {
            hard_break_from(word, font_px, max_px, j + 1, lines, cand)
        }
    }
}

/// The line `cur` extended by `word` (joined with one space).
pub open spec fn extend_line(cur: Seq<char>, word: Seq<char>) -> Seq<char> {
    if cur.len() == 0 {
        word
    } else {
        cur + seq![' '] + word
    }
}

/// Greedy word wrap over `ws[i..]` with the finished `lines` and the open line `cur`:
/// a word joins the open line when it fits there, otherwise it starts a new
/// line, broken by characters when it does not fit a line of its own.
pub open spec fn wrap_from(
    ws: Seq<Seq<char>>,
    font_px: nat,
    max_px: nat,
    i: nat,
    lines: Seq<Seq<char>>,
    cur: Seq<char>,
) -> Seq<Seq<char>>
    decreases ws.len() - i,
{
    if i >= ws.len() {
        if cur.len() > 0 {
            lines.push(cur)
        } else {
            lines
        }
    } else {
        let word = ws[i as int];
        let cand = extend_line(cur, word);
        if text_width(cand.len(), font_px) <= max_px {
            wrap_from(ws, font_px, max_px, i + 1, lines, cand)
        } else {
            let closed = if cur.len() == 0 {
                lines
            } else {
                lines.push(cur)
            };
            if text_width(word.len(), font_px) <= max_px {
                wrap_from(ws, font_px, max_px, i + 1, closed, word)
            } else {
                wrap_from(
                    ws,
                    font_px,
                    max_px,
                    i + 1,
                    hard_break_from(word, font_px, max_px, 0, closed, Seq::empty()),
                    Seq::empty(),
                )
            }
        }
    }
}

/// `wrap_text_to_width(text, font_px, max_px)`: a single truncated line when
/// `max_px <= 12`, otherwise the greedy wrap of the words of `text`.
pub open spec fn wrap_spec(t: Seq<char>, font_px: nat, max_px: nat) -> Seq<Seq<char>> {
    if max_px <= 12 {
        seq![truncate_spec(t, font_px, max_px)]
    } else {
        wrap_from(words(t), font_px, max_px, 0, Seq::empty(), Seq::empty())
    }
}

fn hard_break(word: &Vec<char>, font_px: u32, max_px: u32, lines: &mut Vec<Vec<char>>)
    ensures
        views(final(lines)@) == hard_break_from(
            word@,
            font_px as nat,
            max_px as nat,
            0,
            views(old(lines)@),
            Seq::empty(),
        ),
{
    let ghost goal = hard_break_from(
        word@,
        font_px as nat,
        max_px as nat,
        0,
        views(lines@),
        Seq::empty(),
    );
    let mut buf: Vec<char> = Vec::new();
    let mut j: usize = 0;
    while j < word.len()
        invariant
            j <= word.len(),
            goal == hard_break_from(
                word@,
                font_px as nat,
                max_px as nat,
                j as nat,
                views(lines@),
                buf@,
            ),
            buf@.len() <= j,
            goal == hard_break_from(
                word@,
                font_px as nat,
                max_px as nat,
                0,
                views(old(lines)@),
                Seq::empty(),
            ),
        decreases word.len() - j,
    {
        let ch = word[j];
        if width_of_count(buf.len() as u128 + 1, font_px) > max_px {
            if buf.len() == 0 {
                assert(buf@ =~= Seq::<char>::empty());
                assert(buf@.push(word@[j as int]).len() == 1);
                let t = truncate_chars(word.as_slice(), font_px, max_px);
                let ghost before = views(lines@);
                lines.push(t);
                assert(views(lines@) =~= before.push(t@));
                return;
            } else {
                let ghost before = views(lines@);
                let ghost b = buf@;
                lines.push(buf);
                assert(views(lines@) =~= before.push(b));
                buf = Vec::new();
                buf.push(ch);
                assert(buf@ =~= seq![word@[j as int]]);
            }
        } else {
            buf.push(ch);
        }
        j = j + 1;
    }
    if buf.len() > 0 {
        let ghost before = views(lines@);
        let ghost b = buf@;
        lines.push(buf);
        assert(views(lines@) =~= before.push(b));
    }
}

fn extend_line_exec(cur: &Vec<char>, word: &Vec<char>) -> (r: Vec<char>)
    ensures
        r@ == extend_line(cur@, word@),
{
    let mut r: Vec<char> = Vec::new();
    let mut k: usize = 0;
    while k < cur.len()
        invariant
            k <= cur.len(),
            r@ == cur@.take(k as int),
        decreases cur.len() - k,
    {
        r.push(cur[k]);
        k = k + 1;
        assert(r@ =~= cur@.take(k as int));
    }
    assert(r@ =~= cur@);
    if cur.len() > 0 {
        r.push(' ');
    }
    let ghost base = r@;
    let mut k: usize = 0;
    while k < word.len()
        invariant
            k <= word.len(),
            r@ == base + word@.take(k as int),
        decreases word.len() - k,
    {
        r.push(word[k]);
        k = k + 1;
        assert(r@ =~= base + word@.take(k as int));
    }
    assert(word@.take(word.len() as int) =~= word@);
    assert(cur.len() == 0 ==> r@ =~= word@);
    r
}

/// `String`s holding the given character vectors.
pub(crate) fn strings_of(v: &Vec<Vec<char>>) -> (r: Vec<String>)
    ensures
        r@.map_values(|s: String| s@) == views(v@),
{
    let mut r: Vec<String> = Vec::new();
    let mut k: usize = 0;
    while k < v.len()
        invariant
            k <= v.len(),
            r@.map_values(|s: String| s@) == views(v@).take(k as int),
        decreases v.len() - k,
    {
        let s = crate::chars::string_of(v[k].as_slice());
        let ghost before = r@.map_values(|s: String| s@);
        r.push(s);
        assert(r@.map_values(|s: String| s@) =~= before.push(s@));
        k = k + 1;
        assert(views(v@).take(k as int) =~= views(v@).take(k - 1).push(v@[k - 1]@));
    }
    assert(views(v@).take(v.len() as int) =~= views(v@));
    r
}

/// Wraps `text` to lines of at most `max_px` (by the width heuristic),
/// breaking at whitespace; a word too wide for a line of its own is broken
/// by characters, and `max_px <= 12` yields one truncated line.
pub fn wrap_text_to_width(text: &str, font_px: u32, max_px: u32) -> (lines: Vec<String>)
    ensures
        lines@.map_values(|s: String| s@) == wrap_spec(text@, font_px as nat, max_px as nat),
{
    let t = crate::chars::chars_of(text);
    if max_px <= 12 {
        let one = truncate_chars(t.as_slice(), font_px, max_px);
        let mut v: Vec<Vec<char>> = Vec::new();
        v.push(one);
        assert(views(v@) =~= seq![truncate_spec(text@, font_px as nat, max_px as nat)]);
        return strings_of(&v);
    }
    let ws = split_words(t.as_slice());
    let ghost wsv = views(ws@);
    let mut lines: Vec<Vec<char>> = Vec::new();
    let mut cur: Vec<char> = Vec::new();
    let mut i: usize = 0;
    assert(views(lines@) =~= Seq::<Seq<char>>::empty());
    assert(cur@ =~= Seq::<char>::empty());
    while i < ws.len()
        invariant
            i <= ws.len(),
            wsv == views(ws@),
            wsv == words(text@),
            wrap_spec(text@, font_px as nat, max_px as nat) == wrap_from(
                wsv,
                font_px as nat,
                max_px as nat,
                i as nat,
                views(lines@),
                cur@,
            ),
            max_px > 12,
        decreases ws.len() - i,
    {
        let word = &ws[i];
        assert(word@ == wsv[i as int]);
        let cand = extend_line_exec(&cur, word);
        if width_of_count(cand.len() as u128, font_px) <= max_px {
            cur = cand;
        } else {
            if cur.len() > 0 {
                let ghost before = views(lines@);
                let ghost c = cur@;
                lines.push(cur);
                assert(views(lines@) =~= before.push(c));
            }
            if width_of_count(word.len() as u128, font_px) <= max_px {
                cur = slice_to_vec(word.as_slice(), 0, word.len());
                assert(cur@ =~= word@);
            } else {
                hard_break(word, font_px, max_px, &mut lines);
                cur = Vec::new();
                assert(cur@ =~= Seq::<char>::empty());
            }
        }
        i = i + 1;
    }
    if cur.len() > 0 {
        let ghost before = views(lines@);
        let ghost c = cur@;
        lines.push(cur);
        assert(views(lines@) =~= before.push(c));
    }
    strings_of(&lines)
}

} // verus!

verus! {

proof fn lemma_width_zero(font_px: nat)
    ensures
        text_width(0, font_px) == 0,
{
    assert(excess_bits(0) == 0);
    assert(round_f32(0) == 0);
    assert(round_f32(0) * round_f32(font_px) == 0);
    assert(0nat * six_tenths_f32_num() == 0);
}

proof fn lemma_truncate_from_fits(t: Seq<char>, font_px: nat, max_px: nat, i: nat)
    requires
        i <= t.len(),
        forall|k: nat| 1 <= k <= i ==> text_width(k, font_px) <= max_px,
    ensures
        text_width(truncate_from(t, font_px, max_px, i).len(), font_px) <= max_px,
        (exists|k: int|
            0 <= k <= t.len() && (truncate_from(t, font_px, max_px, i) == t.take(k)
                || truncate_from(t, font_px, max_px, i) == t.take(k).push(ellipsis()))),
    decreases t.len() - i,
{
    lemma_width_zero(font_px);
    if i >= t.len() {
        assert(t.take(t.len() as int) =~= t);
        if t.len() > 0 {
            assert(text_width(t.len(), font_px) <= max_px);
        }
    } else if text_width(i + 1, font_px) > max_px {
        let out = t.take(i as int);
        if out.len() == 0 {
        } else if text_width(out.len() + 1, font_px) <= max_px {
        } else if utf8_len(out) > 1 {
            assert(out.drop_last() =~= t.take(i - 1));
            assert(text_width(i as nat, font_px) <= max_px);
        } else {
            assert(text_width(i as nat, font_px) <= max_px);
        }
    } else {
        assert forall|k: nat| 1 <= k <= i + 1 implies text_width(k, font_px) <= max_px by {}
        lemma_truncate_from_fits(t, font_px, max_px, i + 1);
    }
}

/// Law: the result of `truncate_to_width` fits `max_px` by the width heuristic,
/// and is a prefix of the text, possibly followed by one ellipsis.
pub proof fn law_truncate_fits_and_is_prefix(t: Seq<char>, font_px: nat, max_px: nat)
    ensures
        text_width(truncate_spec(t, font_px, max_px).len(), font_px) <= max_px,
        exists|k: int|
            0 <= k <= t.len() && (truncate_spec(t, font_px, max_px) == t.take(k)
                || truncate_spec(t, font_px, max_px) == t.take(k).push(ellipsis())),
{
    lemma_truncate_from_fits(t, font_px, max_px, 0);
}

proof fn lemma_truncate_from_keeps(t: Seq<char>, font_px: nat, max_px: nat, i: nat)
    requires
        i <= t.len(),
        forall|k: nat| 1 <= k <= t.len() ==> text_width(k, font_px) <= max_px,
    ensures
        truncate_from(t, font_px, max_px, i) == t,
    decreases t.len() - i,
{
    if i < t.len() {
        assert(text_width(i + 1, font_px) <= max_px);
        lemma_truncate_from_keeps(t, font_px, max_px, i + 1);
    }
}

/// Law: a text all of whose prefixes fit `max_px` is returned unchanged by
/// `truncate_to_width`.
pub proof fn law_truncate_keeps_fitting_text(t: Seq<char>, font_px: nat, max_px: nat)
    requires
        forall|k: nat| 1 <= k <= t.len() ==> text_width(k, font_px) <= max_px,
    ensures
        truncate_spec(t, font_px, max_px) == t,
{
    lemma_truncate_from_keeps(t, font_px, max_px, 0);
}

/// A line fits `max_px` by the width heuristic.
pub open spec fn line_fits(l: Seq<char>, font_px: nat, max_px: nat) -> bool {
    text_width(l.len(), font_px) <= max_px
}

proof fn lemma_hard_break_ok(
    word: Seq<char>,
    font_px: nat,
    max_px: nat,
    j: nat,
    lines: Seq<Seq<char>>,
    buf: Seq<char>,
)
    requires
        j <= word.len(),
        forall|k: int| 0 <= k < lines.len() ==> line_fits(#[trigger] lines[k], font_px, max_px),
        buf.len() > 0 ==> text_width(buf.len(), font_px) <= max_px,
        j > 0 ==> text_width(1, font_px) <= max_px,
        j == 0 ==> buf.len() == 0,
    ensures
        forall|k: int|
            0 <= k < hard_break_from(word, font_px, max_px, j, lines, buf).len() ==> line_fits(
                #[trigger] hard_break_from(word, font_px, max_px, j, lines, buf)[k],
                font_px,
                max_px,
            ),
    decreases word.len() - j,
{
    let r = hard_break_from(word, font_px, max_px, j, lines, buf);
    if j >= word.len() {
        if buf.len() > 0 {
            assert(r == lines.push(buf));
            assert forall|k: int| 0 <= k < r.len() implies line_fits(#[trigger] r[k], font_px, max_px) by {
                if k < lines.len() {
                    assert(r[k] == lines[k]);
                }
            }
        } else {
            assert(r == lines);
        }
    } else {
        let cand = buf.push(word[j as int]);
        if text_width(cand.len(), font_px) > max_px {
            if buf.len() == 0 {
                law_truncate_fits_and_is_prefix(word, font_px, max_px);
                assert(r == lines.push(truncate_spec(word, font_px, max_px)));
                assert forall|k: int| 0 <= k < r.len() implies line_fits(#[trigger] r[k], font_px, max_px) by {
                    if k < lines.len() {
                        assert(r[k] == lines[k]);
                    }
                }
            } else {
                let l2 = lines.push(buf);
                assert forall|k: int| 0 <= k < l2.len() implies line_fits(#[trigger] l2[k], font_px, max_px) by {
                    if k < lines.len() {
                        assert(l2[k] == lines[k]);
                    }
                }
                assert(seq![word[j as int]].len() == 1);
                lemma_hard_break_ok(word, font_px, max_px, j + 1, l2, seq![word[j as int]]);
                assert(r == hard_break_from(word, font_px, max_px, j + 1, l2, seq![word[j as int]]));
            }
        } else {
            lemma_hard_break_ok(word, font_px, max_px, j + 1, lines, cand);
            assert(r == hard_break_from(word, font_px, max_px, j + 1, lines, cand));
        }
    }
}

proof fn lemma_wrap_from_ok(
    ws: Seq<Seq<char>>,
    font_px: nat,
    max_px: nat,
    i: nat,
    lines: Seq<Seq<char>>,
    cur: Seq<char>,
)
    requires
        forall|k: int| 0 <= k < lines.len() ==> line_fits(#[trigger] lines[k], font_px, max_px),
        cur.len() > 0 ==> line_fits(cur, font_px, max_px),
    ensures
        forall|k: int|
            0 <= k < wrap_from(ws, font_px, max_px, i, lines, cur).len() ==> line_fits(
                #[trigger] wrap_from(ws, font_px, max_px, i, lines, cur)[k],
                font_px,
                max_px,
            ),
    decreases ws.len() - i,
{
    let r = wrap_from(ws, font_px, max_px, i, lines, cur);
    if i >= ws.len() {
        if cur.len() > 0 {
            assert(r == lines.push(cur));
            assert forall|k: int| 0 <= k < r.len() implies line_fits(#[trigger] r[k], font_px, max_px) by {
                if k < lines.len() {
                    assert(r[k] == lines[k]);
                }
            }
        } else {
            assert(r == lines);
        }
    } else {
        let word = ws[i as int];
        let cand = extend_line(cur, word);
        if text_width(cand.len(), font_px) <= max_px {
            lemma_wrap_from_ok(ws, font_px, max_px, i + 1, lines, cand);
            assert(r == wrap_from(ws, font_px, max_px, i + 1, lines, cand));
        } else {
            let closed = if cur.len() == 0 {
                lines
            } else {
                lines.push(cur)
            };
            assert forall|k: int| 0 <= k < closed.len() implies line_fits(
                #[trigger] closed[k],
                font_px,
                max_px,
            ) by {
                if k < lines.len() {
                    assert(closed[k] == lines[k]);
                }
            }
            if text_width(word.len(), font_px) <= max_px {
                lemma_wrap_from_ok(ws, font_px, max_px, i + 1, closed, word);
                assert(r == wrap_from(ws, font_px, max_px, i + 1, closed, word));
            } else {
                lemma_hard_break_ok(word, font_px, max_px, 0, closed, Seq::empty());
                let l2 = hard_break_from(word, font_px, max_px, 0, closed, Seq::empty());
                lemma_wrap_from_ok(ws, font_px, max_px, i + 1, l2, Seq::empty());
                assert(r == wrap_from(ws, font_px, max_px, i + 1, l2, Seq::empty()));
            }
        }
    }
}

/// Law: every line produced by `wrap_text_to_width` fits `max_px` by the width
/// heuristic (a word that does not fit a line of its own is broken by
/// characters; a single character wider than `max_px` leaves the truncated
/// word).
pub proof fn law_wrap_lines_fit(t: Seq<char>, font_px: nat, max_px: nat)
    ensures
        forall|k: int|
            0 <= k < wrap_spec(t, font_px, max_px).len() ==> line_fits(
                #[trigger] wrap_spec(t, font_px, max_px)[k],
                font_px,
                max_px,
            ),
{
    if max_px <= 12 {
        law_truncate_fits_and_is_prefix(t, font_px, max_px);
    } else {
        lemma_wrap_from_ok(words(t), font_px, max_px, 0, Seq::empty(), Seq::empty());
    }
}

} // verus!

verus! {

proof fn lemma_excess_bounds(x: nat)
    ensures
        x / pow2(excess_bits(x)) < 0x100_0000,
        excess_bits(x) > 0 ==> x / pow2((excess_bits(x) - 1) as nat) >= 0x100_0000,
    decreases x,
{
    lemma2_to64();
    if x >= 0x100_0000 {
        let h = x / 2;
        lemma_excess_bounds(h);
        let kh = excess_bits(h);
        let k = excess_bits(x);
        assert(k == kh + 1);
        lemma_pow2_unfold(k);
        lemma_pow2_pos(kh);
        lemma_div_denominator(x as int, 2, pow2(kh) as int);
        assert(x / pow2(k) == h / pow2(kh));
        if kh > 0 {
            lemma_pow2_unfold(kh);
            lemma_pow2_pos((kh - 1) as nat);
            lemma_div_denominator(x as int, 2, pow2((kh - 1) as nat) as int);
            assert(x / pow2(kh) == h / pow2((kh - 1) as nat));
        } else {
            assert(pow2(kh) == 1);
            assert(x / 1 == x);
        }
    }
}

proof fn lemma_excess_mono(x: nat, y: nat)
    requires
        x <= y,
    ensures
        excess_bits(x) <= excess_bits(y),
    decreases y,
{
    if x >= 0x100_0000 {
        lemma_div_is_ordered(x as int, y as int, 2);
        lemma_excess_mono(x / 2, y / 2);
    }
}

/// `round_f32(x)` lies between `q * p` and `(q + 1) * p`, where `p` is
/// `2^excess_bits(x)` and `q = x / p`.
proof fn lemma_round_between(x: nat)
    ensures
        (x / pow2(excess_bits(x))) * pow2(excess_bits(x)) <= round_f32(x),
        round_f32(x) <= (x / pow2(excess_bits(x)) + 1) * pow2(excess_bits(x)),
        excess_bits(x) == 0 ==> round_f32(x) == x,
{
    let k = excess_bits(x);
    let p = pow2(k);
    let q = x / p;
    lemma_pow2_pos(k);
    lemma2_to64();
    assert(q * p <= (q + 1) * p) by (nonlinear_arith)
        requires
            p > 0,
    ;
    if k == 0 {
        assert(p == 1);
        assert(x / 1 == x);
        assert(q == x);
        assert(q * p == x) by (nonlinear_arith)
            requires
                p == 1,
                q == x,
        ;
    }
}

proof fn lemma_round_mono(x: nat, y: nat)
    requires
        x <= y,
    ensures
        round_f32(x) <= round_f32(y),
{
    let kx = excess_bits(x);
    let ky = excess_bits(y);
    lemma_excess_mono(x, y);
    lemma_excess_bounds(x);
    lemma_excess_bounds(y);
    lemma_round_between(x);
    lemma_round_between(y);
    lemma2_to64();
    let px = pow2(kx);
    let py = pow2(ky);
    lemma_pow2_pos(kx);
    lemma_pow2_pos(ky);
    let qx = x / px;
    let qy = y / py;
    if ky == 0 {
    } else if kx == ky {
        lemma_div_is_ordered(x as int, y as int, px as int);
        lemma_fundamental_div_mod(x as int, px as int);
        lemma_fundamental_div_mod(y as int, px as int);
        lemma_mod_bound(x as int, px as int);
        lemma_mod_bound(y as int, px as int);
        if qx < qy {
            lemma_mul_inequality((qx + 1) as int, qy as int, px as int);
        } else {
            assert(qx == qy);
            assert(x % px <= y % px);
        }
    } else {
        // kx < ky: x rounds to at most 2^24 * px, y to at least 2^23 * py
        lemma_pow2_unfold(ky);
        lemma_pow2_pos((ky - 1) as nat);
        lemma_div_denominator(y as int, pow2((ky - 1) as nat) as int, 2);
        assert(qy == (y / pow2((ky - 1) as nat)) / 2);
        assert(qy >= 0x80_0000);
        lemma_mul_inequality(0x80_0000, qy as int, py as int);
        if kx + 1 < ky {
            lemma_pow2_strictly_increases(kx + 1, ky);
        }
        lemma_pow2_unfold(kx + 1);
        assert(py >= 2 * px);
        assert(0x80_0000 * py >= 0x100_0000 * px) by (nonlinear_arith)
            requires
                py >= 2 * px,
        ;
        lemma_mul_inequality((qx + 1) as int, 0x100_0000, px as int);
    }
}

/// The estimated width of a text never shrinks as the text gets longer, and
/// an empty text has width 0.
pub proof fn law_text_width_monotone(n: nat, m: nat, font_px: nat)
    requires
        n <= m,
    ensures
        text_width(n, font_px) <= text_width(m, font_px),
        text_width(0, font_px) == 0,
{
    lemma_width_zero(font_px);
    lemma_round_mono(n, m);
    let rf = round_f32(font_px);
    lemma_mul_inequality(round_f32(n) as int, round_f32(m) as int, rf as int);
    lemma_round_mono(round_f32(n) * rf, round_f32(m) * rf);
    let pn = round_f32(round_f32(n) * rf);
    let pm = round_f32(round_f32(m) * rf);
    lemma_mul_inequality(pn as int, pm as int, six_tenths_f32_num() as int);
    lemma_round_mono(pn * six_tenths_f32_num(), pm * six_tenths_f32_num());
    let sn = round_f32(pn * six_tenths_f32_num());
    let sm = round_f32(pm * six_tenths_f32_num());
    lemma_div_is_ordered((sn + 0xFF_FFFF) as int, (sm + 0xFF_FFFF) as int, 0x100_0000);
}

} // verus!
