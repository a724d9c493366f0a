//! Command-line argument logic: code lists, date arguments, output format
//! inference and locale tags.

use vstd::prelude::*;
use crate::chars::{
    is_ws, trim, trim_chars, chars_of, views, slice_to_vec, first_index, find_char,
    ascii_lower_seq, lower_equals, append_str, append_chars, push_char, to_ascii_lower,
};
use crate::decimal::{parse_i32_spec, parse_i32_chars};
use crate::models::DateSpec;
use crate::viz::text::strings_of;

verus! {

/// Output file format.
#[derive(Clone, Copy, Debug, PartialEq, Eq, Structural)]
pub enum OutFormat {
    Csv,
    Json,
}

// ------------------------------------------------------------------
// Code lists
// ------------------------------------------------------------------

/// Separators of a code list.
pub open spec fn is_list_sep(c: char) -> bool {
    c == ',' || c == ';'
}

/// The pieces of `s` between separators, as `str::split([',', ';'])` yields
/// them (always at least one, possibly empty).
pub open spec fn fields(s: Seq<char>) -> Seq<Seq<char>>
    decreases s.len(),
{
    if s.len() == 0 {
        seq![Seq::<char>::empty()]
    } else {
        let f = fields(s.drop_last());
        let c = s.last();
        if is_list_sep(c) {
            f.push(Seq::<char>::empty())
        } else {
            f.update(f.len() - 1, f.last().push(c))
        }
    }
}

/// The trimmed pieces that are not empty after trimming, in order.
pub open spec fn kept_items(fs: Seq<Seq<char>>) -> Seq<Seq<char>>
    decreases fs.len(),
{
    if fs.len() == 0 {
        Seq::empty()
    } else {
        let r = kept_items(fs.drop_last());
        let t = trim(fs.last());
        if t.len() > 0 {
            r.push(t)
        } else {
            r
        }
    }
}

/// The codes of a list like `"USA, DEU ; CHN"`: split at `,` and `;`, each
/// piece trimmed, empty pieces dropped.
pub open spec fn parse_list_spec(s: Seq<char>) -> Seq<Seq<char>> {
    kept_items(fields(s))
}

/// Splits a code list at `,` and `;`, trims each piece and drops empty ones.
pub fn parse_list(s: &str) -> (items: Vec<String>)
    ensures
        items@.map_values(|x: String| x@) == parse_list_spec(s@),
{
    let t = chars_of(s);
    let mut done: Vec<Vec<char>> = Vec::new();
    let mut cur: Vec<char> = Vec::new();
    let mut i: usize = 0;
    proof {
        assert(t@.take(0) =~= Seq::<char>::empty());
        assert(cur@ =~= Seq::<char>::empty());
        assert(views(done@) =~= Seq::<Seq<char>>::empty());
    }
    while i < t.len()
        invariant
            i <= t.len(),
            t@ == s@,
            fields(t@.take(i as int)).len() >= 1,
            cur@ == fields(t@.take(i as int)).last(),
            views(done@) == kept_items(fields(t@.take(i as int)).drop_last()),
        decreases t.len() - i,
    {
        let c = t[i];
        let ghost f = fields(t@.take(i as int));
        assert(t@.take(i + 1).drop_last() =~= t@.take(i as int));
        assert(t@.take(i + 1).last() == c);
        if c == ',' || c == ';' {
            let tc = trim_chars(cur.as_slice());
            let ghost before = views(done@);
            if tc.len() > 0 {
                done.push(tc);
                assert(views(done@) =~= before.push(tc@));
            }
            cur = Vec::new();
            proof {
                let f2 = fields(t@.take(i + 1));
                assert(f2 == f.push(Seq::<char>::empty()));
                assert(f2.drop_last() =~= f);
                assert(f.drop_last() =~= f.drop_last());
                assert(cur@ =~= f2.last());
            }
        } else {
            cur.push(c);
            proof {
                let f2 = fields(t@.take(i + 1));
                assert(f2 == f.update(f.len() - 1, f.last().push(c)));
                assert(f2.drop_last() =~= f.drop_last());
                assert(cur@ =~= f2.last());
            }
        }
        i = i + 1;
    }
    assert(t@.take(t.len() as int) =~= t@);
    let tc = trim_chars(cur.as_slice());
    let ghost before = views(done@);
    if tc.len() > 0 {
        done.push(tc);
        assert(views(done@) =~= before.push(tc@));
    }
    proof {
        let f = fields(t@);
        assert(f.drop_last().push(f.last()) =~= f);
        assert(f.drop_last().push(f.last()).drop_last() =~= f.drop_last());
    }
    strings_of(&done)
}

// ------------------------------------------------------------------
// Date arguments
// ------------------------------------------------------------------

/// `YYYY:YYYY` gives a range (split at the first `:`), anything else is read
/// as a single year; `None` when a number does not parse as `i32`.
pub open spec fn parse_date_spec(s: Seq<char>) -> Option<DateSpec> {
    match first_index(s, ':') {
        Some(i) => match (parse_i32_spec(s.take(i)), parse_i32_spec(s.skip(i + 1))) {
            (Some(a), Some(b)) => Some(DateSpec::Range { start: a, end: b }),
            _ => None,
        },
        None => match parse_i32_spec(s) {
            Some(y) => Some(DateSpec::Year(y)),
            None => None,
        },
    }
}

/// Parses a `--date` argument: `YYYY` or `YYYY:YYYY`.
pub fn parse_date(s: &str) -> (d: Option<DateSpec>)
    ensures
        d == parse_date_spec(s@),
{
    let t = chars_of(s);
    proof {
        crate::chars::lemma_first_index(t@, ':');
    }
    match find_char(t.as_slice(), ':') {
        Some(i) => {
            let a = slice_to_vec(t.as_slice(), 0, i);
            let b = slice_to_vec(t.as_slice(), i + 1, t.len());
            assert(a@ =~= s@.take(i as int));
            assert(b@ =~= s@.skip(i + 1));
            match (parse_i32_chars(a.as_slice()), parse_i32_chars(b.as_slice())) {
                (Some(x), Some(y)) => Some(DateSpec::Range { start: x, end: y }),
                _ => None,
            }
        },
        None => match parse_i32_chars(t.as_slice()) {
            Some(y) => Some(DateSpec::Year(y)),
            None => None,
        },
    }
}

// ------------------------------------------------------------------
// Output format
// ------------------------------------------------------------------

/// Why no output format could be decided.
#[derive(Clone, Debug)]
pub enum FormatError {
    /// `--format` names one format and the extension the other.
    Conflict { flag: OutFormat, ext: String },
    /// No `--format` and an extension other than csv/json (the extension is
    /// given lower-cased).
    UnknownExtension { ext: String },
}

/// The text of a format's name, as the output file extension.
pub open spec fn format_name(f: OutFormat) -> Seq<char> {
    match f {
        OutFormat::Csv => seq!['c', 's', 'v'],
        OutFormat::Json => seq!['j', 's', 'o', 'n'],
    }
}

/// Whether the extension (compared case-insensitively) names the other
/// format than the flag.
pub open spec fn format_conflict(ext: Option<Seq<char>>, flag: Option<OutFormat>) -> bool {
    match (flag, ext) {
        (Some(f), Some(e)) => {
            (ascii_lower_seq(e) == format_name(OutFormat::Csv) && f == OutFormat::Json) || (
            ascii_lower_seq(e) == format_name(OutFormat::Json) && f == OutFormat::Csv)
        },
        _ => false,
    }
}

/// The format chosen when there is no conflict: the flag if given, else the
/// extension (case-insensitively), else csv when there is no extension;
/// `None` for an unknown extension without a flag.
pub open spec fn chosen_format(ext: Option<Seq<char>>, flag: Option<OutFormat>) -> Option<
    OutFormat,
> {
    match (flag, ext) {
        (Some(f), _) => Some(f),
        (None, Some(e)) => if ascii_lower_seq(e) == format_name(OutFormat::Csv) {
            Some(OutFormat::Csv)
        } else if ascii_lower_seq(e) == format_name(OutFormat::Json) {
            Some(OutFormat::Json)
        } else {
            None
        },
        (None, None) => Some(OutFormat::Csv),
    }
}

/// `s.to_ascii_lowercase()`.
fn lower_text(s: &str) -> (r: String)
    ensures
        r@ == ascii_lower_seq(s@),
{
    let v = chars_of(s);
    let mut r = String::new();
    let mut i: usize = 0;
    while i < v.len()
        invariant
            i <= v@.len(),
            v@ == s@,
            r@ == ascii_lower_seq(s@).take(i as int),
        decreases v@.len() - i,
    {
        let ghost before = r@;
        push_char(&mut r, to_ascii_lower(v[i]));
        assert(r@ =~= ascii_lower_seq(s@).take(i + 1));
        i = i + 1;
    }
    assert(ascii_lower_seq(s@).take(v@.len() as int) =~= ascii_lower_seq(s@));
    r
}

/// The output format for a file with extension `ext` (if it has one) and an
/// optional `--format` flag: the name of the format (`"csv"` or `"json"`),
/// or why none could be chosen.
pub fn decide_output_format(ext: Option<&str>, format_flag: Option<OutFormat>) -> (r: Result<
    &'static str,
    FormatError,
>)
    ensures
        format_conflict(opt_view(ext), format_flag) ==> match r {
            Err(FormatError::Conflict { flag, ext: e }) => Some(flag) == format_flag && Some(e@)
                == opt_view(ext),
            _ => false,
        },
        !format_conflict(opt_view(ext), format_flag) ==> match chosen_format(
            opt_view(ext),
            format_flag,
        ) {
            Some(f) => match r {
                Ok(name) => name@ == format_name(f),
                _ => false,
            },
            None => match r {
                Err(FormatError::UnknownExtension { ext: e }) => match opt_view(ext) {
                    Some(x) => e@ == ascii_lower_seq(x),
                    None => false,
                },
                _ => false,
            },
        },
{
    let csv_chars: [char; 3] = ['c', 's', 'v'];
    let json_chars: [char; 4] = ['j', 's', 'o', 'n'];
    assert(csv_chars@ =~= format_name(OutFormat::Csv));
    assert(json_chars@ =~= format_name(OutFormat::Json));
    let (is_csv, is_json) = match ext {
        Some(e) => {
            let ev = chars_of(e);
            (lower_equals(ev.as_slice(), &csv_chars), lower_equals(ev.as_slice(), &json_chars))
        },
        None => (false, false),
    };
    match (format_flag, ext) {
        (Some(f), Some(e)) => {
            let conflict = match f {
                OutFormat::Json => is_csv,
                OutFormat::Csv => is_json,
            };
            if conflict {
                let mut es = String::new();
                append_str(&mut es, e);
                assert(es@ =~= e@);
                return Err(FormatError::Conflict { flag: f, ext: es });
            }
        },
        _ => {},
    }
    proof {
        reveal_strlit("csv");
        reveal_strlit("json");
    }
    match (format_flag, ext) {
        (Some(OutFormat::Csv), _) => Ok("csv"),
        (Some(OutFormat::Json), _) => Ok("json"),
        (None, Some(e)) => {
            if is_csv {
                Ok("csv")
            } else if is_json {
                Ok("json")
            } else {
                Err(FormatError::UnknownExtension { ext: lower_text(e) })
            }
        },
        (None, None) => Ok("csv"),
    }
}

/// The view of an optional text.
pub open spec fn opt_view(o: Option<&str>) -> Option<Seq<char>> {
    match o {
        Some(s) => Some(s@),
        None => None,
    }
}

/// The extension that `std::path::Path::extension` finds in the path text
/// `p` (the portion of the file name after its final `.`, if the name has
/// one that is not its first character).
pub uninterp spec fn std_path_extension(p: Seq<char>) -> Option<Seq<char>>;

/// `Path::new(p).extension()`, as text.
///
/// Trusted: the result is stated only as `std_path_extension` of the path;
/// the parsing of path components is std's and not restated here.
#[verifier::external_body]
fn path_extension(p: &str) -> (r: Option<String>)
    ensures
        match r {
            Some(e) => std_path_extension(p@) == Some(e@),
            None => std_path_extension(p@) is None,
        },
{
    std::path::Path::new(p).extension().and_then(|e| e.to_str()).map(|e| e.to_string())
}

/// The output format for the output path `path`: `decide_output_format` of
/// the path's extension.
pub fn decide_output_format_for_path(path: &str, format_flag: Option<OutFormat>) -> (r: Result<
    &'static str,
    FormatError,
>)
    ensures
        format_conflict(std_path_extension(path@), format_flag) ==> match r {
            Err(FormatError::Conflict { flag, ext: e }) => Some(flag) == format_flag && Some(e@)
                == std_path_extension(path@),
            _ => false,
        },
        !format_conflict(std_path_extension(path@), format_flag) ==> match chosen_format(
            std_path_extension(path@),
            format_flag,
        ) {
            Some(f) => match r {
                Ok(name) => name@ == format_name(f),
                _ => false,
            },
            None => match r {
                Err(FormatError::UnknownExtension { ext: e }) => match std_path_extension(path@) {
                    Some(x) => e@ == ascii_lower_seq(x),
                    None => false,
                },
                _ => false,
            },
        },
{
    let ext = path_extension(path);
    match ext {
        Some(e) => decide_output_format(Some(e.as_str()), format_flag),
        None => decide_output_format(None, format_flag),
    }
}

/// Debug name of a format (`"Csv"`, `"Json"`).
pub open spec fn format_debug_name(f: OutFormat) -> Seq<char> {
    match f {
        OutFormat::Csv => "Csv"@,
        OutFormat::Json => "Json"@,
    }
}

impl FormatError {
    /// The error text shown to the user.
    pub fn message(&self) -> (m: String)
        ensures
            match self {
                FormatError::Conflict { flag, ext } => m@ == "Format conflict: --format "@
                    + format_debug_name(*flag) + " but output extension '."@ + ext@
                    + "'. Align them or omit --format."@,
                FormatError::UnknownExtension { ext } => m@ == "Unknown output extension '."@
                    + ext@ + "'. Use .csv/.json or pass --format csv|json."@,
            },
    {
        let mut m = String::new();
        match self {
            FormatError::Conflict { flag, ext } => {
                append_str(&mut m, "Format conflict: --format ");
                match flag {
                    OutFormat::Csv => append_str(&mut m, "Csv"),
                    OutFormat::Json => append_str(&mut m, "Json"),
                }
                append_str(&mut m, " but output extension '.");
                append_str(&mut m, ext.as_str());
                append_str(&mut m, "'. Align them or omit --format.");
            },
            FormatError::UnknownExtension { ext } => {
                append_str(&mut m, "Unknown output extension '.");
                append_str(&mut m, ext.as_str());
                append_str(&mut m, "'. Use .csv/.json or pass --format csv|json.");
            },
        }
        m
    }
}

// ------------------------------------------------------------------
// Locales
// ------------------------------------------------------------------

/// Number-formatting locales the tools understand.
#[derive(Clone, Copy, Debug, PartialEq, Eq, Structural)]
pub enum LocaleKind {
    En,
    De,
    Fr,
    Es,
    It,
    Pt,
    Nl,
}

/// The locale of a tag, compared case-insensitively: `de`, `de_de`, `german`;
/// `fr`, `fr_fr`; `es`, `es_es`; `it`, `it_it`; `pt`, `pt_pt`, `pt_br`;
/// `nl`, `nl_nl`; English for anything else.
pub open spec fn locale_of(tag: Seq<char>) -> LocaleKind {
    let t = ascii_lower_seq(tag);
    if t == seq!['d', 'e'] || t == seq!['d', 'e', '_', 'd', 'e'] || t == seq![
        'g',
        'e',
        'r',
        'm',
        'a',
        'n',
    ] {
        LocaleKind::De
    } else if t == seq!['f', 'r'] || t == seq!['f', 'r', '_', 'f', 'r'] {
        LocaleKind::Fr
    } else if t == seq!['e', 's'] || t == seq!['e', 's', '_', 'e', 's'] {
        LocaleKind::Es
    } else if t == seq!['i', 't'] || t == seq!['i', 't', '_', 'i', 't'] {
        LocaleKind::It
    } else if t == seq!['p', 't'] || t == seq!['p', 't', '_', 'p', 't'] || t == seq![
        'p',
        't',
        '_',
        'b',
        'r',
    ] {
        LocaleKind::Pt
    } else if t == seq!['n', 'l'] || t == seq!['n', 'l', '_', 'n', 'l'] {
        LocaleKind::Nl
    } else {
        LocaleKind::En
    }
}

/// Decimal separator of a locale: `.` for English, `,` for the others.
pub open spec fn decimal_separator(k: LocaleKind) -> char {
    match k {
        LocaleKind::En => '.',
        _ => ',',
    }
}

/// Maps a user-provided locale tag to its locale and decimal separator.
pub fn map_locale(tag: &str) -> (r: (LocaleKind, char))
    ensures
        r.0 == locale_of(tag@),
        r.1 == decimal_separator(locale_of(tag@)),
{
    let t = chars_of(tag);
    let ts = t.as_slice();
    let de1: [char; 2] = ['d', 'e'];
    let de2: [char; 5] = ['d', 'e', '_', 'd', 'e'];
    let de3: [char; 6] = ['g', 'e', 'r', 'm', 'a', 'n'];
    let fr1: [char; 2] = ['f', 'r'];
    let fr2: [char; 5] = ['f', 'r', '_', 'f', 'r'];
    let es1: [char; 2] = ['e', 's'];
    let es2: [char; 5] = ['e', 's', '_', 'e', 's'];
    let it1: [char; 2] = ['i', 't'];
    let it2: [char; 5] = ['i', 't', '_', 'i', 't'];
    let pt1: [char; 2] = ['p', 't'];
    let pt2: [char; 5] = ['p', 't', '_', 'p', 't'];
    let pt3: [char; 5] = ['p', 't', '_', 'b', 'r'];
    let nl1: [char; 2] = ['n', 'l'];
    let nl2: [char; 5] = ['n', 'l', '_', 'n', 'l'];
    assert(de1@ =~= seq!['d', 'e']);
    assert(de2@ =~= seq!['d', 'e', '_', 'd', 'e']);
    assert(de3@ =~= seq!['g', 'e', 'r', 'm', 'a', 'n']);
    assert(fr1@ =~= seq!['f', 'r']);
    assert(fr2@ =~= seq!['f', 'r', '_', 'f', 'r']);
    assert(es1@ =~= seq!['e', 's']);
    assert(es2@ =~= seq!['e', 's', '_', 'e', 's']);
    assert(it1@ =~= seq!['i', 't']);
    assert(it2@ =~= seq!['i', 't', '_', 'i', 't']);
    assert(pt1@ =~= seq!['p', 't']);
    assert(pt2@ =~= seq!['p', 't', '_', 'p', 't']);
    assert(pt3@ =~= seq!['p', 't', '_', 'b', 'r']);
    assert(nl1@ =~= seq!['n', 'l']);
    assert(nl2@ =~= seq!['n', 'l', '_', 'n', 'l']);
    if lower_equals(ts, &de1) || lower_equals(ts, &de2) || lower_equals(ts, &de3) {
        (LocaleKind::De, ',')
    } else if lower_equals(ts, &fr1) || lower_equals(ts, &fr2) {
        (LocaleKind::Fr, ',')
    } else if lower_equals(ts, &es1) || lower_equals(ts, &es2) {
        (LocaleKind::Es, ',')
    } else if lower_equals(ts, &it1) || lower_equals(ts, &it2) {
        (LocaleKind::It, ',')
    } else if lower_equals(ts, &pt1) || lower_equals(ts, &pt2) || lower_equals(ts, &pt3) {
        (LocaleKind::Pt, ',')
    } else if lower_equals(ts, &nl1) || lower_equals(ts, &nl2) {
        (LocaleKind::Nl, ',')
    } else {
        (LocaleKind::En, '.')
    }
}

} // verus!

verus! {

/// The date range of a `get` command: the parsed `--date`, or 2000..=2020
/// when none is given; `None` when the argument does not parse.
pub open spec fn date_arg_spec(arg: Option<Seq<char>>) -> Option<DateSpec> {
    match arg {
        Some(s) => parse_date_spec(s),
        None => Some(DateSpec::Range { start: 2000, end: 2020 }),
    }
}

/// Resolves the `--date` argument of a `get` command.
pub fn date_or_default(arg: Option<&str>) -> (d: Option<DateSpec>)
    ensures
        d == date_arg_spec(opt_view(arg)),
{
    match arg {
        Some(s) => parse_date(s),
        None => Some(DateSpec::Range { start: 2000, end: 2020 }),
    }
}

/// The text reported for an unparsable `--date`.
pub fn invalid_date_message() -> (m: String)
    ensures
        m@ == "invalid --date, expected YYYY or YYYY:YYYY"@,
{
    let mut m = String::new();
    append_str(&mut m, "invalid --date, expected YYYY or YYYY:YYYY");
    m
}

/// The chart title of a `get` command: `--title`, or "World Bank
/// Indicator(s)" when none is given.
pub fn title_or_default(arg: Option<&str>) -> (t: String)
    ensures
        t@ == match arg {
            Some(s) => s@,
            None => "World Bank Indicator(s)"@,
        },
{
    let mut t = String::new();
    match arg {
        Some(s) => append_str(&mut t, s),
        None => append_str(&mut t, "World Bank Indicator(s)"),
    }
    t
}

} // verus!

verus! {

proof fn lemma_dec_digits_facts(n: nat)
    ensures
        dec_digits_len_pos(n),
        crate::decimal::all_digits(crate::decimal::dec_digits(n)),
        crate::decimal::digits_value(crate::decimal::dec_digits(n)) == n,
    decreases n,
{
    let d = crate::decimal::dec_digits(n);
    lemma_digit_char_value(n % 10);
    if n < 10 {
        assert(d == seq![crate::decimal::digit_char(n)]);
        assert(d.drop_last() =~= Seq::<char>::empty());
        assert(d.last() == crate::decimal::digit_char(n));
        assert(crate::decimal::digits_value(Seq::<char>::empty()) == 0);
        assert(n % 10 == n);
        assert(crate::decimal::digits_value(d) == n);
    } else {
        lemma_dec_digits_facts(n / 10);
        let p = crate::decimal::dec_digits(n / 10);
        assert(d == p.push(crate::decimal::digit_char(n % 10)));
        assert(d.drop_last() =~= p);
        assert(d.last() == crate::decimal::digit_char(n % 10));
        assert(crate::decimal::digits_value(d) == (n / 10) * 10 + n % 10);
        assert forall|i: int| 0 <= i < d.len() implies crate::decimal::is_digit(#[trigger] d[i]) by {
            if i < p.len() {
                assert(d[i] == p[i]);
            }
        }
    }
}

proof fn lemma_digit_char_value(d: nat)
    requires
        d < 10,
    ensures
        crate::decimal::digit_value(crate::decimal::digit_char(d)) == d,
        crate::decimal::is_digit(crate::decimal::digit_char(d)),
{
    let c = crate::decimal::digit_char(d);
    assert(c as u32 == 48 + d);
}

spec fn dec_digits_len_pos(n: nat) -> bool {
    crate::decimal::dec_digits(n).len() > 0
}

proof fn lemma_parse_dec_int(y: i32)
    ensures
        parse_i32_spec(crate::decimal::dec_int(y as int)) == Some(y),
        first_index(crate::decimal::dec_int(y as int), ':') is None,
{
    let t = crate::decimal::dec_int(y as int);
    if y < 0 {
        let m = (-(y as int)) as nat;
        lemma_dec_digits_facts(m);
        let d = crate::decimal::dec_digits(m);
        assert(t.drop_first() =~= d);
        assert(t[0] == '-');
        assert forall|k: int| 0 <= k < t.len() implies t[k] != ':' by {
            if k > 0 {
                assert(t[k] == d[k - 1]);
                assert(crate::decimal::is_digit(d[k - 1]));
            }
        }
    } else {
        lemma_dec_digits_facts(y as nat);
        let d = crate::decimal::dec_digits(y as nat);
        assert(crate::decimal::is_digit(d[0]));
        assert forall|k: int| 0 <= k < t.len() implies t[k] != ':' by {
            assert(crate::decimal::is_digit(d[k]));
        }
    }
    crate::chars::lemma_first_index(t, ':');
}

/// The date text sent to the API parses back to the same date
/// specification: `parse_date` undoes `DateSpec::to_query_param`.
pub proof fn law_date_query_text_parses_back(d: DateSpec)
    ensures
        parse_date_spec(d.query_text()) == Some(d),
{
    match d {
        DateSpec::Year(y) => {
            lemma_parse_dec_int(y);
        },
        DateSpec::Range { start, end } => {
            lemma_parse_dec_int(start);
            lemma_parse_dec_int(end);
            let a = crate::decimal::dec_int(start as int);
            let b = crate::decimal::dec_int(end as int);
            let t = a + seq![':'] + b;
            crate::chars::lemma_first_index(a, ':');
            assert(t[a.len() as int] == ':');
            assert forall|k: int| 0 <= k < a.len() implies t[k] != ':' by {
                assert(t[k] == a[k]);
            }
            crate::chars::lemma_first_index(t, ':');
            match first_index(t, ':') {
                Some(i) => {
                    if i < a.len() {
                        assert(t[i] == a[i]);
                    }
                    if i > a.len() {
                        assert(t[a.len() as int] == ':');
                    }
                    assert(i == a.len());
                    assert(t.take(i) =~= a);
                    assert(t.skip(i + 1) =~= b);
                },
                None => {
                    assert(t[a.len() as int] == ':');
                },
            }
        },
    }
}

} // verus!

verus! {

proof fn lemma_fields_have_no_separator(s: Seq<char>)
    ensures
        fields(s).len() >= 1,
        forall|j: int, k: int|
            0 <= j < fields(s).len() && 0 <= k < fields(s)[j].len() ==> !is_list_sep(
                #[trigger] fields(s)[j][k],
            ),
    decreases s.len(),
{
    if s.len() > 0 {
        lemma_fields_have_no_separator(s.drop_last());
        let f = fields(s.drop_last());
        let c = s.last();
        if !is_list_sep(c) {
            let g = f.update(f.len() - 1, f.last().push(c));
            assert forall|j: int, k: int|
                0 <= j < g.len() && 0 <= k < g[j].len() implies !is_list_sep(#[trigger] g[j][k]) by {
                if j == f.len() - 1 && k == f.last().len() {
                } else if j == f.len() - 1 {
                    assert(g[j][k] == f[j][k]);
                }
            }
        } else {
            let g = f.push(Seq::<char>::empty());
            assert forall|j: int, k: int|
                0 <= j < g.len() && 0 <= k < g[j].len() implies !is_list_sep(#[trigger] g[j][k]) by {
                assert(j < f.len());
                assert(g[j] == f[j]);
            }
        }
    }
}

proof fn lemma_kept_items_origin(fs: Seq<Seq<char>>)
    ensures
        forall|i: int|
            0 <= i < kept_items(fs).len() ==> exists|j: int|
                0 <= j < fs.len() && #[trigger] kept_items(fs)[i] == trim(fs[j]) && trim(
                    fs[j],
                ).len() > 0,
    decreases fs.len(),
{
    if fs.len() > 0 {
        lemma_kept_items_origin(fs.drop_last());
        let r = kept_items(fs.drop_last());
        assert forall|i: int| 0 <= i < kept_items(fs).len() implies exists|j: int|
            0 <= j < fs.len() && #[trigger] kept_items(fs)[i] == trim(fs[j]) && trim(fs[j]).len()
                > 0 by {
            if i < r.len() {
                let j = choose|j: int|
                    0 <= j < fs.drop_last().len() && r[i] == trim(fs.drop_last()[j]) && trim(
                        fs.drop_last()[j],
                    ).len() > 0;
                assert(kept_items(fs)[i] == r[i]);
                assert(fs[j] == fs.drop_last()[j]);
            } else {
                assert(kept_items(fs)[i] == trim(fs.last()));
                assert(fs[fs.len() - 1] == fs.last());
            }
        }
    }
}

/// Every code of a parsed list is non-empty, has no surrounding
/// whitespace, and contains no separator.
pub proof fn law_list_items_are_clean(s: Seq<char>)
    ensures
        forall|i: int|
            0 <= i < parse_list_spec(s).len() ==> {
                let x = #[trigger] parse_list_spec(s)[i];
                &&& x.len() > 0
                &&& trim(x) == x
                &&& forall|k: int| 0 <= k < x.len() ==> !is_list_sep(x[k])
            },
{
    let fs = fields(s);
    lemma_fields_have_no_separator(s);
    lemma_kept_items_origin(fs);
    assert forall|i: int| 0 <= i < parse_list_spec(s).len() implies {
        let x = #[trigger] parse_list_spec(s)[i];
        &&& x.len() > 0
        &&& trim(x) == x
        &&& forall|k: int| 0 <= k < x.len() ==> !is_list_sep(x[k])
    } by {
        let x = parse_list_spec(s)[i];
        let j = choose|j: int| 0 <= j < fs.len() && x == trim(fs[j]) && trim(fs[j]).len() > 0;
        crate::chars::lemma_trim_shape(fs[j]);
        let (a, b) = choose|a: int, b: int|
            0 <= a <= b <= fs[j].len() && trim(fs[j]) == fs[j].subrange(a, b);
        assert forall|k: int| 0 <= k < x.len() implies !is_list_sep(x[k]) by {
            assert(x[k] == fs[j][a + k]);
        }
    }
}

} // verus!
