//! Request planning for the World Bank Indicators API (v2): query URLs,
//! the per-indicator fallback, pagination, and unit enrichment.
//!
//! The transport (HTTP) and JSON decoding live with the caller; this module
//! decides what to request, when to retry and how long to wait, and what to
//! do with the answers.
//!
//! - A request is tried up to three times: a success is decoded, a status
//!   other than a server error fails at once, and a server or network error
//!   is retried after 100, 300 and 700 ms.
//!
//! - Codes are trimmed and percent-encoded (`-`, `_`, `.` and ASCII letters
//!   and digits stay as they are) and joined with `;`.
//! - Several indicators without a `source` are fetched one indicator at a
//!   time and the results concatenated.
//! - At most 1000 pages are fetched.
//! - Observations without a (non-blank) unit take the unit of their
//!   indicator's metadata, when it has one.

use vstd::prelude::*;
use crate::chars::{trim, trim_str, append_str, append_chars, push_char, join_with, views};
use crate::decimal::{dec_digits, u64_digits};
use crate::models::{DataPoint, DateSpec, IndicatorMeta};
use crate::viz_style::{hex2, push_hex2};
use vstd::utf8::encode_utf8;

verus! {

/// Bytes kept as they are in codes: ASCII letters and digits, `-`, `_`, `.`.
pub open spec fn is_safe_byte(b: u8) -> bool {
    (0x30 <= b <= 0x39) || (0x41 <= b <= 0x5A) || (0x61 <= b <= 0x7A) || b == 0x2D || b == 0x5F
        || b == 0x2E
}

/// Percent-encoding of bytes: safe bytes as themselves, every other byte as
/// `%XX` with upper-case hex digits.
pub open spec fn pct_encode(bytes: Seq<u8>) -> Seq<char>
    decreases bytes.len(),
{
    if bytes.len() == 0 {
        Seq::empty()
    } else {
        let b = bytes.last();
        pct_encode(bytes.drop_last()) + if is_safe_byte(b) {
            seq![b as char]
        } else {
            seq!['%'] + hex2(b)
        }
    }
}

/// The encoded form of one code: trimmed, UTF-8, percent-encoded.
pub open spec fn encoded_code(code: Seq<char>) -> Seq<char> {
    pct_encode(encode_utf8(trim(code)))
}

/// Codes encoded and joined with `;`.
pub open spec fn encoded_codes(codes: Seq<Seq<char>>) -> Seq<char> {
    join_with(codes.map_values(|c: Seq<char>| encoded_code(c)), ';')
}

/// The escape `%XX` of a byte, with upper-case hex digits.
fn percent_escape(b: u8) -> (s: String)
    ensures
        s@ == seq!['%'] + hex2(b),
{
    let mut s = String::new();
    push_char(&mut s, '%');
    push_hex2(&mut s, b);
    assert(s@ =~= seq!['%'] + hex2(b));
    s
}

fn is_safe(b: u8) -> (r: bool)
    ensures
        r == is_safe_byte(b),
{
    (0x30 <= b && b <= 0x39) || (0x41 <= b && b <= 0x5A) || (0x61 <= b && b <= 0x7A) || b == 0x2D
        || b == 0x5F || b == 0x2E
}

/// Appends the encoded form of `code` to `out`.
fn push_encoded(out: &mut String, code: &str)
    ensures
        final(out)@ == old(out)@ + encoded_code(code@),
{
    let t = trim_str(code);
    let bytes = t.as_str().as_bytes();
    let ghost bs = bytes@;
    assert(bs == encode_utf8(trim(code@)));
    let ghost o0 = out@;
    let mut i: usize = 0;
    assert(bs.take(0) =~= Seq::<u8>::empty());
    while i < bytes.len()
        invariant
            i <= bs.len(),
            bs == bytes@,
            out@ == o0 + pct_encode(bs.take(i as int)),
        decreases bs.len() - i,
    {
        let b = bytes[i];
        assert(bs.take(i + 1).drop_last() =~= bs.take(i as int));
        assert(bs.take(i + 1).last() == b);
        if is_safe(b) {
            push_char(out, b as char);
        } else {
            let e = percent_escape(b);
            append_str(out, e.as_str());
        }
        assert(out@ =~= o0 + pct_encode(bs.take(i + 1)));
        i = i + 1;
    }
    assert(bs.take(bs.len() as int) =~= bs);
}

/// A character an encoded path segment may hold: an unreserved ASCII
/// character (digit, letter, `-`, `_`, `.`) or the `%` of an escape.
pub open spec fn is_segment_char(c: char) -> bool {
    let u = c as u32;
    (0x30 <= u <= 0x39) || (0x41 <= u <= 0x5A) || (0x61 <= u <= 0x7A) || u == 0x2D || u == 0x5F
        || u == 0x2E || u == 0x25
}

proof fn lemma_pct_encode_segment_chars(bytes: Seq<u8>)
    ensures
        forall|i: int|
            0 <= i < pct_encode(bytes).len() ==> is_segment_char(#[trigger] pct_encode(bytes)[i]),
    decreases bytes.len(),
{
    if bytes.len() > 0 {
        lemma_pct_encode_segment_chars(bytes.drop_last());
        let b = bytes.last();
        let prev = pct_encode(bytes.drop_last());
        let tail = if is_safe_byte(b) {
            seq![b as char]
        } else {
            seq!['%'] + hex2(b)
        };
        assert(pct_encode(bytes) == prev + tail);
        let hi = (b / 16) as nat;
        let lo = (b % 16) as nat;
        assert(hi < 16 && lo < 16);
        assert(forall|i: int| 0 <= i < tail.len() ==> is_segment_char(#[trigger] tail[i]));
        assert forall|i: int| 0 <= i < pct_encode(bytes).len() implies is_segment_char(
            #[trigger] pct_encode(bytes)[i],
        ) by {
            if i >= prev.len() {
                assert(pct_encode(bytes)[i] == tail[i - prev.len()]);
            } else {
                assert(pct_encode(bytes)[i] == prev[i]);
            }
        }
    }
}

/// Codes go into the request path percent-encoded: an encoded code holds
/// only unreserved ASCII characters and `%`, so it can neither end the path
/// segment (`/`), start a query (`?`, `&`, `#`) nor contain the `;` that
/// joins codes.
pub proof fn law_encoded_code_is_path_safe(code: Seq<char>)
    ensures
        forall|i: int|
            0 <= i < encoded_code(code).len() ==> is_segment_char(#[trigger] encoded_code(code)[i]),
{
    lemma_pct_encode_segment_chars(encode_utf8(trim(code)));
}

/// Encodes codes for a URL path segment: each trimmed and percent-encoded,
/// joined with `;`.
pub fn enc_join(parts: &[String]) -> (s: String)
    ensures
        s@ == encoded_codes(views_of(parts@)),
{
    let ghost ps = views_of(parts@);
    let ghost enc = ps.map_values(|c: Seq<char>| encoded_code(c));
    let mut s = String::new();
    let mut i: usize = 0;
    assert(enc.take(0) =~= Seq::<Seq<char>>::empty());
    while i < parts.len()
        invariant
            i <= parts@.len(),
            ps == views_of(parts@),
            enc == ps.map_values(|c: Seq<char>| encoded_code(c)),
            s@ == join_with(enc.take(i as int), ';'),
        decreases parts@.len() - i,
    {
        assert(enc.take(i + 1).drop_last() =~= enc.take(i as int));
        assert(enc.take(i + 1).last() == encoded_code(parts@[i as int]@));
        if i > 0 {
            push_char(&mut s, ';');
        }
        push_encoded(&mut s, parts[i].as_str());
        proof {
            if i == 0 {
                assert(enc.take(1) =~= seq![encoded_code(parts@[0]@)]);
                assert(s@ =~= join_with(enc.take(1), ';'));
            } else {
                assert(s@ =~= join_with(enc.take(i + 1), ';'));
            }
        }
        i = i + 1;
    }
    assert(enc.take(parts@.len() as int) =~= enc);
    s
}

/// The texts of a slice of strings.
pub open spec fn views_of(v: Seq<String>) -> Seq<Seq<char>> {
    v.map_values(|s: String| s@)
}

/// API client settings.
#[derive(Debug, Clone)]
pub struct Client {
    pub base_url: String,
}

/// Why a fetch cannot proceed.
#[derive(Debug, Clone, Copy, PartialEq, Eq, Structural)]
pub enum FetchError {
    NoCountries,
    NoIndicators,
    /// More than 1000 pages.
    PageLimit,
}

/// The text of a fetch error.
pub open spec fn fetch_error_text(e: FetchError) -> Seq<char> {
    match e {
        FetchError::NoCountries => "at least one country/region code required"@,
        FetchError::NoIndicators => "at least one indicator code required"@,
        FetchError::PageLimit => "page limit exceeded (1000)"@,
    }
}

impl FetchError {
    /// The text of this error.
    pub fn message(&self) -> (m: String)
        ensures
            m@ == fetch_error_text(*self),
    {
        let mut m = String::new();
        match self {
            FetchError::NoCountries => append_str(&mut m, "at least one country/region code required"),
            FetchError::NoIndicators => append_str(&mut m, "at least one indicator code required"),
            FetchError::PageLimit => append_str(&mut m, "page limit exceeded (1000)"),
        }
        assert(m@ =~= fetch_error_text(*self));
        m
    }
}

/// How a fetch is carried out.
#[derive(Debug, Clone)]
pub enum FetchPlan {
    /// Several indicators without a source: one fetch per indicator, in
    /// order, results concatenated.
    PerIndicator(Vec<String>),
    /// One paged query at this URL (without the `page` parameter).
    Paged(String),
}

/// The `date` parameter of a query, if any.
pub open spec fn date_part(date: Option<DateSpec>) -> Seq<char> {
    match date {
        Some(d) => "&date="@ + d.query_text(),
        None => Seq::empty(),
    }
}

/// The `source` parameter of a query, if any.
pub open spec fn source_part(source: Option<u32>) -> Seq<char> {
    match source {
        Some(s) => "&source="@ + dec_digits(s as nat),
        None => Seq::empty(),
    }
}

/// The data query for countries and indicators.
pub open spec fn data_url(
    base: Seq<char>,
    countries: Seq<Seq<char>>,
    indicators: Seq<Seq<char>>,
    date: Option<DateSpec>,
    source: Option<u32>,
) -> Seq<char> {
    base + "/country/"@ + encoded_codes(countries) + "/indicator/"@ + encoded_codes(indicators)
        + "?format=json&per_page=1000"@ + date_part(date) + source_part(source)
}

/// The metadata query for indicators.
pub open spec fn units_url_text(base: Seq<char>, indicators: Seq<Seq<char>>) -> Seq<char> {
    base + "/indicator/"@ + encoded_codes(indicators) + "?format=json&per_page=1000"@
}

impl Client {
    /// The address of the public API.
    pub open spec fn default_base() -> Seq<char> {
        "https://api.worldbank.org/v2"@
    }

    /// A client for the public API.
    pub fn with_default_base() -> (c: Client)
        ensures
            c.base_url@ == Self::default_base(),
    {
        let mut b = String::new();
        append_str(&mut b, "https://api.worldbank.org/v2");
        Client { base_url: b }
    }

    /// Decides how to fetch: errors for empty country or indicator lists;
    /// one fetch per indicator when there are several and no source;
    /// otherwise a single paged query.
    pub fn plan_fetch(
        &self,
        countries: &[String],
        indicators: &[String],
        date: Option<DateSpec>,
        source: Option<u32>,
    ) -> (r: Result<FetchPlan, FetchError>)
        ensures
            countries@.len() == 0 ==> r == Err::<FetchPlan, FetchError>(FetchError::NoCountries),
            countries@.len() > 0 && indicators@.len() == 0 ==> r == Err::<FetchPlan, FetchError>(
                FetchError::NoIndicators,
            ),
            countries@.len() > 0 && indicators@.len() > 1 && source is None ==> match r {
                Ok(FetchPlan::PerIndicator(v)) => views_of(v@) == views_of(indicators@),
                _ => false,
            },
            countries@.len() > 0 && indicators@.len() > 0 && !(indicators@.len() > 1
                && source is None) ==> match r {
                Ok(FetchPlan::Paged(u)) => u@ == data_url(
                    self.base_url@,
                    views_of(countries@),
                    views_of(indicators@),
                    date,
                    source,
                ),
                _ => false,
            },
    {
        if countries.len() == 0 {
            return Err(FetchError::NoCountries);
        }
        if indicators.len() == 0 {
            return Err(FetchError::NoIndicators);
        }
        if indicators.len() > 1 && source.is_none() {
            let mut v: Vec<String> = Vec::new();
            let mut i: usize = 0;
            while i < indicators.len()
                invariant
                    i <= indicators@.len(),
                    views_of(v@) == views_of(indicators@).take(i as int),
                decreases indicators@.len() - i,
            {
                let c = indicators[i].clone();
                let ghost before = views_of(v@);
                v.push(c);
                assert(views_of(v@) =~= before.push(indicators@[i as int]@));
                assert(views_of(indicators@).take(i + 1) =~= views_of(indicators@).take(i as int).push(
                    indicators@[i as int]@,
                ));
                i = i + 1;
            }
            assert(views_of(indicators@).take(indicators@.len() as int) =~= views_of(indicators@));
            return Ok(FetchPlan::PerIndicator(v));
        }
        let mut u = String::new();
        append_str(&mut u, self.base_url.as_str());
        append_str(&mut u, "/country/");
        let c = enc_join(countries);
        append_str(&mut u, c.as_str());
        append_str(&mut u, "/indicator/");
        let ind = enc_join(indicators);
        append_str(&mut u, ind.as_str());
        append_str(&mut u, "?format=json&per_page=1000");
        match date {
            Some(d) => {
                append_str(&mut u, "&date=");
                let q = d.to_query_param();
                append_str(&mut u, q.as_str());
            },
            None => {},
        }
        match source {
            Some(s) => {
                append_str(&mut u, "&source=");
                let digits = u64_digits(s as u64);
                append_chars(&mut u, digits.as_slice());
            },
            None => {},
        }
        assert(u@ =~= data_url(
            self.base_url@,
            views_of(countries@),
            views_of(indicators@),
            date,
            source,
        ));
        Ok(FetchPlan::Paged(u))
    }

    /// The metadata query for the indicators' units; `None` when there are
    /// no indicators (nothing is requested then).
    pub fn units_url(&self, indicators: &[String]) -> (r: Option<String>)
        ensures
            indicators@.len() == 0 ==> r is None,
            indicators@.len() > 0 ==> match r {
                Some(u) => u@ == units_url_text(self.base_url@, views_of(indicators@)),
                None => false,
            },
    {
        if indicators.len() == 0 {
            return None;
        }
        let mut u = String::new();
        append_str(&mut u, self.base_url.as_str());
        append_str(&mut u, "/indicator/");
        let ind = enc_join(indicators);
        append_str(&mut u, ind.as_str());
        append_str(&mut u, "?format=json&per_page=1000");
        assert(u@ =~= units_url_text(self.base_url@, views_of(indicators@)));
        Some(u)
    }
}

/// The query of one page: `<url>&page=<n>`.
pub fn page_url(url: &str, page: u32) -> (s: String)
    ensures
        s@ == url@ + "&page="@ + dec_digits(page as nat),
{
    let mut s = String::new();
    append_str(&mut s, url);
    append_str(&mut s, "&page=");
    let d = u64_digits(page as u64);
    append_chars(&mut s, d.as_slice());
    s
}

/// The points of fetched batches, one batch after the other.
pub open spec fn concat_batches(b: Seq<Seq<DataPoint>>) -> Seq<DataPoint>
    decreases b.len(),
{
    if b.len() == 0 {
        Seq::empty()
    } else {
        concat_batches(b.drop_last()) + b.last()
    }
}

/// A fetch made one indicator at a time: the indicators, how many have been
/// fetched, their points concatenated in indicator order, and whether a
/// fetch failed (which ends the run).
pub struct PerIndicatorFetch {
    pub indicators: Vec<String>,
    pub next: usize,
    pub points: Vec<DataPoint>,
    pub failed: bool,
    /// The batches fetched so far, in order.
    pub batches: Ghost<Seq<Seq<DataPoint>>>,
}

impl PerIndicatorFetch {
    /// The points are the fetched batches concatenated in order, one batch
    /// per indicator fetched so far; a failure is the fetch of indicator
    /// `next`.
    pub open spec fn wf(&self) -> bool {
        &&& self.next <= self.indicators@.len()
        &&& self.batches@.len() == self.next
        &&& self.points@ == concat_batches(self.batches@)
        &&& self.failed ==> self.next < self.indicators@.len()
    }

    /// Whether the run is over: every indicator fetched, or one failed.
    pub open spec fn finished(&self) -> bool {
        self.failed || self.next == self.indicators@.len()
    }

    /// A fetch of `indicators` that has fetched nothing yet.
    pub fn start(indicators: Vec<String>) -> (f: Self)
        ensures
            f.wf(),
            f.next == 0,
            !f.failed,
            f.indicators@ == indicators@,
            f.points@.len() == 0,
    {
        PerIndicatorFetch {
            indicators,
            next: 0,
            points: Vec::new(),
            failed: false,
            batches: Ghost(Seq::empty()),
        }
    }

    /// The indicator to fetch next: the first one not fetched yet, or `None`
    /// when all have been or one failed.
    pub fn next_request(&self) -> (r: Option<String>)
        requires
            self.wf(),
        ensures
            !self.finished() ==> (r matches Some(s) && s@ == self.indicators@[self.next as int]@),
            self.finished() ==> r is None,
    {
        if !self.failed && self.next < self.indicators.len() {
            Some(self.indicators[self.next].clone())
        } else {
            None
        }
    }

    /// Records the points fetched for the next indicator.
    pub fn record(&mut self, batch: Vec<DataPoint>)
        requires
            old(self).wf(),
            !old(self).finished(),
        ensures
            final(self).wf(),
            !final(self).failed,
            final(self).indicators@ == old(self).indicators@,
            final(self).next == old(self).next + 1,
            final(self).batches@ == old(self).batches@.push(batch@),
            final(self).points@ == old(self).points@ + batch@,
    {
        let n = self.indicators.len();
        assert(self.next < n);
        let ghost b = self.batches@;
        let mut batch = batch;
        let ghost bv = batch@;
        self.points.append(&mut batch);
        self.next = self.next + 1;
        self.batches = Ghost(b.push(bv));
        assert(b.push(bv).drop_last() =~= b);
    }

    /// Records that fetching the next indicator failed; the run ends there.
    pub fn record_failure(&mut self)
        requires
            old(self).wf(),
            !old(self).finished(),
        ensures
            final(self).wf(),
            final(self).failed,
            final(self).indicators@ == old(self).indicators@,
            final(self).next == old(self).next,
            final(self).batches@ == old(self).batches@,
            final(self).points@ == old(self).points@,
    {
        self.failed = true;
    }

    /// The points of a finished run: every indicator's batch concatenated in
    /// indicator order, or `None` when a fetch failed.
    pub fn finish(self) -> (r: Option<Vec<DataPoint>>)
        requires
            self.wf(),
            self.finished(),
        ensures
            self.failed ==> r is None,
            !self.failed ==> (r matches Some(v) && v@ == concat_batches(self.batches@)
                && self.batches@.len() == self.indicators@.len()),
    {
        if self.failed {
            None
        } else {
            Some(self.points)
        }
    }
}

/// A finished per-indicator run either holds one batch per indicator, the
/// points being those batches concatenated in indicator order, or stopped
/// at the first failed indicator with the batches of the indicators before
/// it and no more requests.
pub proof fn law_per_indicator_run(f: PerIndicatorFetch)
    requires
        f.wf(),
        f.finished(),
    ensures
        !f.failed ==> f.batches@.len() == f.indicators@.len() && f.points@ == concat_batches(
            f.batches@,
        ),
        f.failed ==> f.batches@.len() == f.next && f.next < f.indicators@.len(),
{
}

/// A per-indicator fetch returns the batches of the indicators, in
/// indicator order, concatenated: recording batches one by one from the
/// start gives exactly their concatenation.
pub proof fn law_per_indicator_concatenation(b: Seq<Seq<DataPoint>>, x: Seq<DataPoint>)
    ensures
        concat_batches(Seq::<Seq<DataPoint>>::empty()) == Seq::<DataPoint>::empty(),
        concat_batches(b.push(x)) == concat_batches(b) + x,
{
    assert(b.push(x).drop_last() =~= b);
}

/// How one HTTP attempt ended.
#[derive(Debug, Clone, Copy, PartialEq, Eq, Structural)]
pub enum AttemptOutcome {
    /// A 2xx answer.
    Success,
    /// A 5xx answer.
    ServerError,
    /// Any other status.
    OtherStatus(u16),
    /// No answer (connection, timeout, ...).
    NetworkError,
}

/// What to do after an attempt.
#[derive(Debug, Clone, Copy, PartialEq, Eq, Structural)]
pub enum RetryAction {
    /// Decode the body of the answer.
    Decode,
    /// Give up with this HTTP status.
    Fail(u16),
    /// Wait this many milliseconds; then try again, unless this was the
    /// last attempt, in which case the request failed with a network error.
    Wait(u64),
}

/// Attempts made for one request.
pub const MAX_ATTEMPTS: usize = 3;

/// Back-off after attempt `attempt` (from 0): 100, 300, then 700 ms.
pub open spec fn backoff_ms(attempt: int) -> u64 {
    if attempt == 0 {
        100
    } else if attempt == 1 {
        300
    } else {
        700
    }
}

/// Classifies an HTTP status: 200..=299 succeed, 500..=599 are server
/// errors, the rest are other statuses.
pub fn classify_status(status: u16) -> (o: AttemptOutcome)
    ensures
        200 <= status <= 299 ==> o == AttemptOutcome::Success,
        500 <= status <= 599 ==> o == AttemptOutcome::ServerError,
        !(200 <= status <= 299) && !(500 <= status <= 599) ==> o == AttemptOutcome::OtherStatus(
            status,
        ),
{
    if 200 <= status && status <= 299 {
        AttemptOutcome::Success
    } else if 500 <= status && status <= 599 {
        AttemptOutcome::ServerError
    } else {
        AttemptOutcome::OtherStatus(status)
    }
}

/// The retry policy: decode a success, fail at once on a status that is
/// neither success nor server error, and wait before retrying a server or
/// network error.
pub fn retry_action(attempt: usize, outcome: AttemptOutcome) -> (a: RetryAction)
    requires
        attempt < MAX_ATTEMPTS,
    ensures
        outcome is Success ==> a == RetryAction::Decode,
        outcome matches AttemptOutcome::OtherStatus(c) ==> a == RetryAction::Fail(c),
        (outcome is ServerError || outcome is NetworkError) ==> a == RetryAction::Wait(
            backoff_ms(attempt as int),
        ),
{
    match outcome {
        AttemptOutcome::Success => RetryAction::Decode,
        AttemptOutcome::OtherStatus(c) => RetryAction::Fail(c),
        _ => {
            if attempt == 0 {
                RetryAction::Wait(100)
            } else if attempt == 1 {
                RetryAction::Wait(300)
            } else {
                RetryAction::Wait(700)
            }
        },
    }
}

/// What follows a fetched page.
#[derive(Debug, Clone, Copy, PartialEq, Eq, Structural)]
pub enum PageStep {
    /// The last page has been fetched.
    Done,
    /// Fetch this page next.
    Next(u32),
    /// The next page would exceed the 1000-page cap.
    LimitExceeded,
}

/// Most pages a query may take.
pub const MAX_PAGES: u32 = 1000;

/// After fetching page `page` of `total_pages`: done when it was the last;
/// otherwise the next page, unless that exceeds the cap.
pub fn next_page(page: u32, total_pages: u32) -> (step: PageStep)
    ensures
        page >= total_pages ==> step == PageStep::Done,
        page < total_pages && page + 1 > MAX_PAGES ==> step == PageStep::LimitExceeded,
        page < total_pages && page + 1 <= MAX_PAGES ==> step == PageStep::Next((page + 1) as u32),
{
    if page >= total_pages {
        PageStep::Done
    } else if page >= MAX_PAGES {
        PageStep::LimitExceeded
    } else {
        PageStep::Next(page + 1)
    }
}

// ------------------------------------------------------------------
// Units
// ------------------------------------------------------------------

/// Whether a point lacks a unit: none, or only whitespace.
pub open spec fn lacks_unit(p: DataPoint) -> bool {
    match p.unit {
        Some(u) => trim(u@).len() == 0,
        None => true,
    }
}

/// Decides `lacks_unit`.
pub fn needs_unit(p: &DataPoint) -> (r: bool)
    ensures
        r == lacks_unit(*p),
{
    match &p.unit {
        Some(u) => crate::chars::is_blank(u.as_str()),
        None => true,
    }
}

/// Whether any point lacks a unit (then metadata is fetched).
pub fn needs_enrichment(points: &[DataPoint]) -> (r: bool)
    ensures
        r == exists|i: int| 0 <= i < points@.len() && lacks_unit(#[trigger] points@[i]),
{
    let mut i: usize = 0;
    while i < points.len()
        invariant
            i <= points@.len(),
            forall|k: int| 0 <= k < i ==> !lacks_unit(#[trigger] points@[k]),
        decreases points@.len() - i,
    {
        if needs_unit(&points[i]) {
            return true;
        }
        i = i + 1;
    }
    false
}

/// The (id, unit) pairs of metadata whose unit is not blank, in order.
pub open spec fn metadata_units(metas: Seq<IndicatorMeta>) -> Seq<(Seq<char>, Seq<char>)>
    decreases metas.len(),
{
    if metas.len() == 0 {
        Seq::empty()
    } else {
        let r = metadata_units(metas.drop_last());
        let m = metas.last();
        match m.unit {
            Some(u) => if trim(u@).len() > 0 {
                r.push((m.id@, u@))
            } else {
                r
            },
            None => r,
        }
    }
}

/// The texts of (id, unit) pairs.
pub open spec fn pairs_view(v: Seq<(String, String)>) -> Seq<(Seq<char>, Seq<char>)> {
    v.map_values(|p: (String, String)| (p.0@, p.1@))
}

/// Units announced by indicator metadata: `(id, unit)` for each entry with a
/// non-blank unit.
pub fn units_from_metadata(metas: &[IndicatorMeta]) -> (units: Vec<(String, String)>)
    ensures
        pairs_view(units@) == metadata_units(metas@),
{
    let mut units: Vec<(String, String)> = Vec::new();
    let mut i: usize = 0;
    assert(pairs_view(units@) =~= metadata_units(metas@.take(0)));
    while i < metas.len()
        invariant
            i <= metas@.len(),
            pairs_view(units@) == metadata_units(metas@.take(i as int)),
        decreases metas@.len() - i,
    {
        let m = &metas[i];
        assert(metas@.take(i + 1).drop_last() =~= metas@.take(i as int));
        assert(metas@.take(i + 1).last() == *m);
        match &m.unit {
            Some(u) => {
                if !crate::chars::is_blank(u.as_str()) {
                    let ghost before = pairs_view(units@);
                    units.push((m.id.clone(), u.clone()));
                    assert(pairs_view(units@) =~= before.push((m.id@, u@)));
                }
            },
            None => {},
        }
        i = i + 1;
    }
    assert(metas@.take(metas@.len() as int) =~= metas@);
    units
}

/// The unit announced for `id`: the last pair with that id (later entries
/// replace earlier ones).
pub open spec fn unit_for(units: Seq<(Seq<char>, Seq<char>)>, id: Seq<char>) -> Option<Seq<char>>
    decreases units.len(),
{
    if units.len() == 0 {
        None
    } else if units.last().0 == id {
        Some(units.last().1)
    } else {
        unit_for(units.drop_last(), id)
    }
}

/// Whether `b` is `a` with at most its unit changed.
pub open spec fn same_but_unit(a: DataPoint, b: DataPoint) -> bool {
    &&& a.indicator_id@ == b.indicator_id@
    &&& a.indicator_name@ == b.indicator_name@
    &&& a.country_id@ == b.country_id@
    &&& a.country_name@ == b.country_name@
    &&& a.country_iso3@ == b.country_iso3@
    &&& a.year == b.year
    &&& a.value == b.value
    &&& a.obs_status == b.obs_status
    &&& a.decimal == b.decimal
}

/// The unit a point has after enrichment: the announced unit of its
/// indicator when it lacked one and one is announced, else its own.
pub open spec fn enriched_unit(p: DataPoint, units: Seq<(Seq<char>, Seq<char>)>) -> Option<
    Seq<char>,
> {
    if lacks_unit(p) && unit_for(units, p.indicator_id@) is Some {
        unit_for(units, p.indicator_id@)
    } else {
        match p.unit {
            Some(u) => Some(u@),
            None => None,
        }
    }
}

/// The view of an optional unit.
pub open spec fn unit_view(u: Option<String>) -> Option<Seq<char>> {
    match u {
        Some(s) => Some(s@),
        None => None,
    }
}

fn find_unit(units: &[(String, String)], id: &str) -> (r: Option<String>)
    ensures
        unit_view(r) == unit_for(pairs_view(units@), id@),
{
    let idv = crate::chars::chars_of(id);
    let mut j: usize = units.len();
    assert(pairs_view(units@).take(units@.len() as int) =~= pairs_view(units@));
    while j > 0
        invariant
            j <= units@.len(),
            idv@ == id@,
            unit_for(pairs_view(units@), id@) == unit_for(pairs_view(units@).take(j as int), id@),
        decreases j,
    {
        let k = crate::chars::chars_of(units[j - 1].0.as_str());
        let ghost pv = pairs_view(units@).take(j as int);
        assert(pv.last() == (units@[j - 1].0@, units@[j - 1].1@));
        assert(pv.drop_last() =~= pairs_view(units@).take(j - 1));
        if crate::chars::chars_equal(k.as_slice(), idv.as_slice()) {
            return Some(units[j - 1].1.clone());
        }
        j = j - 1;
    }
    assert(pairs_view(units@).take(0) =~= Seq::<(Seq<char>, Seq<char>)>::empty());
    None
}

/// Fills in missing units from the announced ones; nothing else changes.
pub fn enrich_units(points: &mut Vec<DataPoint>, units: &[(String, String)])
    ensures
        final(points)@.len() == old(points)@.len(),
        forall|i: int|
            0 <= i < old(points)@.len() ==> {
                &&& same_but_unit(old(points)@[i], #[trigger] final(points)@[i])
                &&& unit_view(final(points)@[i].unit) == enriched_unit(
                    old(points)@[i],
                    pairs_view(units@),
                )
            },
{
    let ghost olds = points@;
    let mut out: Vec<DataPoint> = Vec::new();
    let mut i: usize = 0;
    while i < points.len()
        invariant
            i <= points@.len(),
            points@ == olds,
            out@.len() == i,
            forall|k: int|
                0 <= k < i ==> {
                    &&& same_but_unit(olds[k], #[trigger] out@[k])
                    &&& unit_view(out@[k].unit) == enriched_unit(olds[k], pairs_view(units@))
                },
        decreases points@.len() - i,
    {
        let p = &points[i];
        let unit = if needs_unit(p) {
            match find_unit(units, p.indicator_id.as_str()) {
                Some(u) => Some(u),
                None => p.unit.clone(),
            }
        } else {
            p.unit.clone()
        };
        let q = DataPoint {
            indicator_id: p.indicator_id.clone(),
            indicator_name: p.indicator_name.clone(),
            country_id: p.country_id.clone(),
            country_name: p.country_name.clone(),
            country_iso3: p.country_iso3.clone(),
            year: p.year,
            value: p.value,
            unit,
            obs_status: p.obs_status.clone(),
            decimal: p.decimal,
        };
        out.push(q);
        i = i + 1;
    }
    *points = out;
}

/// Enrichment never replaces a unit a point already has, and never touches
/// anything but units.
pub proof fn law_enrichment_keeps_existing_units(
    p: DataPoint,
    units: Seq<(Seq<char>, Seq<char>)>,
)
    requires
        !lacks_unit(p),
    ensures
        enriched_unit(p, units) == unit_view(p.unit),
{
}

} // verus!
