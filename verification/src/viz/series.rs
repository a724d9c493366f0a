//! Series preparation for charts: grouping observations into series, their
//! display order, legend labels, the year axis and the chart title.

use vstd::prelude::*;
use crate::models::DataPoint;
use crate::stats::has_finite_value;
use crate::order::is_finite;
use crate::order::{Order, seq_lt, pair_lt, lex_compare, pair_compare, lemma_pair_lt_facts};
use crate::chars::{chars_of, chars_equal, trim, trim_chars, append_chars, append_str};
use crate::decimal::{dec_digits, u64_digits};
use crate::viz::util::{axis_unit, first_unit, single_name, all_units_are};

verus! {

/// One series of a chart: a (country, indicator) pair with its observations.
#[derive(Debug, Clone)]
pub struct SeriesData {
    pub iso3: String,
    pub indicator_id: String,
    /// Country name shown for `iso3`.
    pub country_label: String,
    /// Indicator name shown for `indicator_id`.
    pub indicator_label: String,
    /// `(year, f64 bits of the value)`, by year.
    pub points: Vec<(i32, u64)>,
}

/// The series key of a point: (ISO3 country code, indicator id).
pub open spec fn series_key(p: DataPoint) -> (Seq<char>, Seq<char>) {
    (p.country_iso3@, p.indicator_id@)
}

/// Whether a point is drawn: it has a year (not `0`) and a finite value.
pub open spec fn is_plotted(p: DataPoint) -> bool {
    p.year != 0 && has_finite_value(p)
}

/// The `(year, value)` pairs of the drawn points with key `k`, in input order.
pub open spec fn series_points(ps: Seq<DataPoint>, k: (Seq<char>, Seq<char>)) -> Seq<(i32, u64)>
    decreases ps.len(),
{
    if ps.len() == 0 {
        Seq::empty()
    } else {
        let r = series_points(ps.drop_last(), k);
        let p = ps.last();
        if series_key(p) == k && is_plotted(p) {
            r.push((p.year, p.value.unwrap()))
        } else {
            r
        }
    }
}

/// Inserts `x` after the last pair whose year is at most `x`'s.
pub open spec fn insert_by_year(s: Seq<(i32, u64)>, x: (i32, u64)) -> Seq<(i32, u64)>
    decreases s.len(),
{
    if s.len() == 0 {
        seq![x]
    } else if s.last().0 <= x.0 {
        s.push(x)
    } else {
        insert_by_year(s.drop_last(), x).push(s.last())
    }
}

/// Stable sort by year: pairs of the same year keep their input order.
pub open spec fn sort_by_year(s: Seq<(i32, u64)>) -> Seq<(i32, u64)>
    decreases s.len(),
{
    if s.len() == 0 {
        s
    } else {
        insert_by_year(sort_by_year(s.drop_last()), s.last())
    }
}

proof fn lemma_insert_by_year_at(s: Seq<(i32, u64)>, x: (i32, u64), j: int)
    requires
        0 <= j <= s.len(),
        forall|k: int| j <= k < s.len() ==> (#[trigger] s[k]).0 > x.0,
        j == 0 || s[j - 1].0 <= x.0,
    ensures
        insert_by_year(s, x) == s.insert(j, x),
    decreases s.len(),
{
    if s.len() == 0 {
        assert(s.insert(j, x) =~= seq![x]);
    } else if s.last().0 <= x.0 {
        assert(j == s.len());
        assert(s.insert(j, x) =~= s.push(x));
    } else {
        lemma_insert_by_year_at(s.drop_last(), x, j);
        assert(s.drop_last().insert(j, x).push(s.last()) =~= s.insert(j, x));
    }
}

proof fn lemma_insert_by_year_len(s: Seq<(i32, u64)>, x: (i32, u64))
    ensures
        insert_by_year(s, x).len() == s.len() + 1,
    decreases s.len(),
{
    if s.len() > 0 && s.last().0 > x.0 {
        lemma_insert_by_year_len(s.drop_last(), x);
    }
}

fn insert_pair_by_year(v: &mut Vec<(i32, u64)>, x: (i32, u64))
    ensures
        final(v)@ == insert_by_year(old(v)@, x),
{
    let mut j: usize = v.len();
    while j > 0 && v[j - 1].0 > x.0
        invariant
            j <= v@.len(),
            v@ == old(v)@,
            forall|k: int| j <= k < v@.len() ==> (#[trigger] v@[k]).0 > x.0,
        decreases j,
    {
        j = j - 1;
    }
    proof {
        lemma_insert_by_year_at(v@, x, j as int);
    }
    v.insert(j, x);
}

/// The name of the first point (in input order) whose country code
/// (`country`) or indicator id (`!country`) is `code`.
pub open spec fn first_name(ps: Seq<DataPoint>, code: Seq<char>, country: bool) -> Option<
    Seq<char>,
>
    decreases ps.len(),
{
    if ps.len() == 0 {
        None
    } else if country && ps[0].country_iso3@ == code {
        Some(ps[0].country_name@)
    } else if !country && ps[0].indicator_id@ == code {
        Some(ps[0].indicator_name@)
    } else {
        first_name(ps.drop_first(), code, country)
    }
}

/// Display name of a country code or indicator id: the name given by its
/// first point, or the code itself when no point has it.
pub open spec fn display_name(ps: Seq<DataPoint>, code: Seq<char>, country: bool) -> Seq<char> {
    match first_name(ps, code, country) {
        Some(n) => n,
        None => code,
    }
}

proof fn lemma_first_name_skip(ps: Seq<DataPoint>, code: Seq<char>, country: bool, i: int)
    requires
        0 <= i <= ps.len(),
        forall|k: int|
            0 <= k < i ==> (if country {
                (#[trigger] ps[k]).country_iso3@ != code
            } else {
                ps[k].indicator_id@ != code
            }),
    ensures
        first_name(ps, code, country) == first_name(ps.skip(i), code, country),
    decreases i,
{
    if i > 0 {
        assert(if country {
            ps[0].country_iso3@ != code
        } else {
            ps[0].indicator_id@ != code
        });
        assert forall|k: int| 0 <= k < i - 1 implies (if country {
            (#[trigger] ps.drop_first()[k]).country_iso3@ != code
        } else {
            ps.drop_first()[k].indicator_id@ != code
        }) by {
            assert(ps.drop_first()[k] == ps[k + 1]);
        }
        lemma_first_name_skip(ps.drop_first(), code, country, i - 1);
        assert(ps.drop_first().skip(i - 1) =~= ps.skip(i));
    } else {
        assert(ps.skip(0) =~= ps);
    }
}

/// `display_name` of a code.
fn find_display_name(points: &[DataPoint], code: &[char], country: bool) -> (r: Vec<char>)
    ensures
        r@ == display_name(points@, code@, country),
{
    let mut i: usize = 0;
    while i < points.len()
        invariant
            i <= points@.len(),
            forall|k: int|
                0 <= k < i ==> (if country {
                    (#[trigger] points@[k]).country_iso3@ != code@
                } else {
                    points@[k].indicator_id@ != code@
                }),
        decreases points@.len() - i,
    {
        let p = &points[i];
        let c = if country {
            chars_of(p.country_iso3.as_str())
        } else {
            chars_of(p.indicator_id.as_str())
        };
        if chars_equal(c.as_slice(), code) {
            proof {
                lemma_first_name_skip(points@, code@, country, i as int);
                assert(points@.skip(i as int)[0] == points@[i as int]);
            }
            let n = if country {
                chars_of(p.country_name.as_str())
            } else {
                chars_of(p.indicator_name.as_str())
            };
            return n;
        }
        i = i + 1;
    }
    proof {
        lemma_first_name_skip(points@, code@, country, points@.len() as int);
        assert(points@.skip(points@.len() as int) =~= Seq::<DataPoint>::empty());
    }
    let mut r: Vec<char> = Vec::new();
    let mut j: usize = 0;
    while j < code.len()
        invariant
            j <= code@.len(),
            r@ == code@.take(j as int),
        decreases code@.len() - j,
    {
        r.push(code[j]);
        j = j + 1;
        assert(r@ =~= code@.take(j as int));
    }
    assert(code@.take(code@.len() as int) =~= code@);
    r
}

/// Display order of series: by country label, then indicator label, then
/// country code, then indicator id.
pub open spec fn series_rank(s: SeriesData) -> ((Seq<char>, Seq<char>), (Seq<char>, Seq<char>)) {
    ((s.country_label@, s.indicator_label@), (s.iso3@, s.indicator_id@))
}

/// Lexicographic order of series ranks.
pub open spec fn rank_lt(
    a: ((Seq<char>, Seq<char>), (Seq<char>, Seq<char>)),
    b: ((Seq<char>, Seq<char>), (Seq<char>, Seq<char>)),
) -> bool {
    pair_lt(a.0, b.0) || (a.0 == b.0 && pair_lt(a.1, b.1))
}

proof fn lemma_rank_lt_facts()
    ensures
        forall|a: ((Seq<char>, Seq<char>), (Seq<char>, Seq<char>))| !#[trigger] rank_lt(a, a),
        forall|
            a: ((Seq<char>, Seq<char>), (Seq<char>, Seq<char>)),
            b: ((Seq<char>, Seq<char>), (Seq<char>, Seq<char>)),
        | a == b || #[trigger] rank_lt(a, b) || #[trigger] rank_lt(b, a),
        forall|
            a: ((Seq<char>, Seq<char>), (Seq<char>, Seq<char>)),
            b: ((Seq<char>, Seq<char>), (Seq<char>, Seq<char>)),
            c: ((Seq<char>, Seq<char>), (Seq<char>, Seq<char>)),
        | #[trigger] rank_lt(a, b) && #[trigger] rank_lt(b, c) ==> rank_lt(a, c),
{
    lemma_pair_lt_facts();
    assert forall|
        a: ((Seq<char>, Seq<char>), (Seq<char>, Seq<char>)),
        b: ((Seq<char>, Seq<char>), (Seq<char>, Seq<char>)),
    | a == b || #[trigger] rank_lt(a, b) || #[trigger] rank_lt(b, a) by {
        assert(a.0 == b.0 || pair_lt(a.0, b.0) || pair_lt(b.0, a.0));
        assert(a.1 == b.1 || pair_lt(a.1, b.1) || pair_lt(b.1, a.1));
    }
}

/// Whether `out` is the series list of `points`: one series per key that
/// has a drawn point, strictly ascending in display order, each with its
/// display labels and its drawn `(year, value)` pairs sorted stably by year.
pub open spec fn is_series_list(points: Seq<DataPoint>, out: Seq<SeriesData>) -> bool {
    &&& forall|a: int, b: int|
        0 <= a < b < out.len() ==> rank_lt(series_rank(out[a]), series_rank(out[b]))
    &&& forall|a: int|
        0 <= a < out.len() ==> {
            let s = #[trigger] out[a];
            let k = (s.iso3@, s.indicator_id@);
            &&& s.points@ == sort_by_year(series_points(points, k))
            &&& s.points@.len() > 0
            &&& s.country_label@ == display_name(points, s.iso3@, true)
            &&& s.indicator_label@ == display_name(points, s.indicator_id@, false)
        }
    &&& forall|k: (Seq<char>, Seq<char>)|
        #[trigger] series_points(points, k).len() > 0 ==> exists|a: int|
            0 <= a < out.len() && (out[a].iso3@, out[a].indicator_id@) == k
}

struct Group {
    iso: Vec<char>,
    ind: Vec<char>,
    cl: Vec<char>,
    il: Vec<char>,
    pts: Vec<(i32, u64)>,
}

spec fn group_key(g: Group) -> (Seq<char>, Seq<char>) {
    (g.iso@, g.ind@)
}

spec fn group_rank(g: Group) -> ((Seq<char>, Seq<char>), (Seq<char>, Seq<char>)) {
    ((g.cl@, g.il@), (g.iso@, g.ind@))
}

spec fn group_ok(g: Group, all: Seq<DataPoint>, prefix: Seq<DataPoint>) -> bool {
    &&& g.cl@ == display_name(all, g.iso@, true)
    &&& g.il@ == display_name(all, g.ind@, false)
    &&& g.pts@ == sort_by_year(series_points(prefix, group_key(g)))
    &&& g.pts@.len() > 0
}

proof fn lemma_series_step(ps: Seq<DataPoint>, p: DataPoint, k: (Seq<char>, Seq<char>))
    ensures
        series_key(p) == k && is_plotted(p) ==> series_points(ps.push(p), k) == series_points(
            ps,
            k,
        ).push((p.year, p.value.unwrap())),
        !(series_key(p) == k && is_plotted(p)) ==> series_points(ps.push(p), k)
            == series_points(ps, k),
{
    assert(ps.push(p).drop_last() =~= ps);
}

proof fn lemma_series_points_witness(ps: Seq<DataPoint>, k: (Seq<char>, Seq<char>))
    requires
        series_points(ps, k).len() > 0,
    ensures
        exists|j: int|
            0 <= j < ps.len() && series_key(#[trigger] ps[j]) == k && is_plotted(ps[j]),
    decreases ps.len(),
{
    let p = ps.last();
    if series_key(p) == k && is_plotted(p) {
        assert(series_key(ps[ps.len() - 1]) == k);
    } else {
        lemma_series_points_witness(ps.drop_last(), k);
        let j = choose|j: int|
            0 <= j < ps.drop_last().len() && series_key(#[trigger] ps.drop_last()[j]) == k
                && is_plotted(ps.drop_last()[j]);
        assert(ps[j] == ps.drop_last()[j]);
    }
}

proof fn lemma_sort_by_year_len(s: Seq<(i32, u64)>)
    ensures
        sort_by_year(s).len() == s.len(),
    decreases s.len(),
{
    if s.len() > 0 {
        lemma_sort_by_year_len(s.drop_last());
        lemma_insert_by_year_len(sort_by_year(s.drop_last()), s.last());
    }
}

/// Groups the drawn points (year not `0`, value present) into series and
/// puts them in display order (country label, indicator label, then codes).
#[verifier::spinoff_prover]
pub fn prepare_series(points: &[DataPoint]) -> (out: Vec<SeriesData>)
    ensures
        is_series_list(points@, out@),
{
    proof {
        lemma_rank_lt_facts();
    }
    let mut groups: Vec<Group> = Vec::new();
    let mut i: usize = 0;
    while i < points.len()
        invariant
            i <= points@.len(),
            forall|a: int, b: int|
                0 <= a < b < groups@.len() ==> rank_lt(
                    group_rank(groups@[a]),
                    group_rank(groups@[b]),
                ),
            forall|a: int|
                0 <= a < groups@.len() ==> group_ok(
                    #[trigger] groups@[a],
                    points@,
                    points@.take(i as int),
                ),
            forall|j: int|
                0 <= j < i && is_plotted(points@[j]) ==> exists|a: int|
                    0 <= a < groups@.len() && group_key(#[trigger] groups@[a]) == series_key(
                        #[trigger] points@[j],
                    ),
            forall|x: ((Seq<char>, Seq<char>), (Seq<char>, Seq<char>))| !#[trigger] rank_lt(x, x),
            forall|
                x: ((Seq<char>, Seq<char>), (Seq<char>, Seq<char>)),
                y: ((Seq<char>, Seq<char>), (Seq<char>, Seq<char>)),
            | x == y || #[trigger] rank_lt(x, y) || #[trigger] rank_lt(y, x),
            forall|
                x: ((Seq<char>, Seq<char>), (Seq<char>, Seq<char>)),
                y: ((Seq<char>, Seq<char>), (Seq<char>, Seq<char>)),
                z: ((Seq<char>, Seq<char>), (Seq<char>, Seq<char>)),
            | #[trigger] rank_lt(x, y) && #[trigger] rank_lt(y, z) ==> rank_lt(x, z),
        decreases points@.len() - i,
    {
        let p = &points[i];
        let ghost prev = points@.take(i as int);
        let ghost next = points@.take(i + 1);
        assert(next =~= prev.push(points@[i as int]));
        proof {
            assert forall|a: int| 0 <= a < groups@.len() && group_key(groups@[a]) != series_key(
                *p,
            ) implies group_ok(#[trigger] groups@[a], points@, next) by {
                lemma_series_step(prev, *p, group_key(groups@[a]));
            }
        }
        let finite = match p.value {
            Some(v) => is_finite(v),
            None => false,
        };
        if p.year != 0 && finite {
            let v = match p.value {
                Some(v) => v,
                None => 0,
            };
            let piso = chars_of(p.country_iso3.as_str());
            let pind = chars_of(p.indicator_id.as_str());
            let ghost k = series_key(*p);
            assert((piso@, pind@) == k);
            proof {
                lemma_series_step(prev, *p, k);
            }
            // look for the group of this key
            let mut j: usize = 0;
            while j < groups.len() && !(chars_equal(groups[j].iso.as_slice(), piso.as_slice())
                && chars_equal(groups[j].ind.as_slice(), pind.as_slice()))
                invariant
                    j <= groups@.len(),
                    (piso@, pind@) == k,
                    forall|a: int| 0 <= a < j ==> group_key(#[trigger] groups@[a]) != k,
                decreases groups@.len() - j,
            {
                j = j + 1;
            }
            if j < groups.len() {
                let ghost before = groups@;
                let mut g = groups.remove(j);
                assert(group_key(g) == k);
                insert_pair_by_year(&mut g.pts, (p.year, v));
                proof {
                    assert(series_points(next, k).drop_last() =~= series_points(prev, k));
                    lemma_insert_by_year_len(sort_by_year(series_points(prev, k)), (p.year, v));
                }
                assert(group_ok(g, points@, next));
                groups.insert(j, g);
                assert(groups@ =~= before.update(j as int, g));
                proof {
                    assert forall|a: int| 0 <= a < groups@.len() implies group_rank(
                        #[trigger] groups@[a],
                    ) == group_rank(before[a]) by {}
                    assert forall|a: int, b: int|
                        0 <= a < b < groups@.len() implies rank_lt(
                        group_rank(groups@[a]),
                        group_rank(groups@[b]),
                    ) by {
                        assert(group_rank(groups@[a]) == group_rank(before[a]));
                        assert(group_rank(groups@[b]) == group_rank(before[b]));
                    }
                    assert forall|a: int| 0 <= a < groups@.len() implies group_ok(
                        #[trigger] groups@[a],
                        points@,
                        next,
                    ) by {
                        if a != j {
                            assert(groups@[a] == before[a]);
                            if group_key(before[a]) == k {
                                assert(group_rank(before[a]) == group_rank(before[j as int]));
                                if a < j {
                                    assert(rank_lt(group_rank(before[a]), group_rank(before[j as int])));
                                } else {
                                    assert(rank_lt(group_rank(before[j as int]), group_rank(before[a])));
                                }
                            }
                        }
                    }
                    assert forall|j2: int|
                        0 <= j2 < i + 1 && is_plotted(points@[j2]) implies exists|a: int|
                            0 <= a < groups@.len() && group_key(#[trigger] groups@[a])
                                == series_key(#[trigger] points@[j2]) by {
                        if j2 == i {
                            assert(group_key(groups@[j as int]) == series_key(points@[j2]));
                        } else {
                            let a = choose|a: int|
                                0 <= a < before.len() && group_key(#[trigger] before[a])
                                    == series_key(points@[j2]);
                            assert(group_key(groups@[a]) == group_key(before[a]));
                        }
                    }
                }
            } else {
                let cl = find_display_name(points, piso.as_slice(), true);
                let il = find_display_name(points, pind.as_slice(), false);
                let ghost r = ((cl@, il@), (piso@, pind@));
                // no existing group has this key
                proof {
                    if series_points(prev, k).len() > 0 {
                        lemma_series_points_witness(prev, k);
                        let j2 = choose|j2: int|
                            0 <= j2 < prev.len() && series_key(#[trigger] prev[j2]) == k
                                && is_plotted(prev[j2]);
                        assert(prev[j2] == points@[j2]);
                        let a = choose|a: int|
                            0 <= a < groups@.len() && group_key(#[trigger] groups@[a])
                                == series_key(points@[j2]);
                        assert(group_key(groups@[a]) != k);
                    }
                    assert(series_points(prev, k) =~= Seq::<(i32, u64)>::empty());
                }
                // position in display order
                let mut q: usize = 0;
                while q < groups.len() && rank_less(&groups[q], &cl, &il, &piso, &pind)
                    invariant
                        q <= groups@.len(),
                        r == ((cl@, il@), (piso@, pind@)),
                        forall|a: int| 0 <= a < q ==> rank_lt(group_rank(#[trigger] groups@[a]), r),
                    decreases groups@.len() - q,
                {
                    q = q + 1;
                }
                let mut pts: Vec<(i32, u64)> = Vec::new();
                pts.push((p.year, v));
                proof {
                    assert(series_points(next, k) =~= seq![(p.year, v)]);
                    assert(seq![(p.year, v)].drop_last() =~= Seq::<(i32, u64)>::empty());
                    assert(sort_by_year(Seq::<(i32, u64)>::empty()) == Seq::<(i32, u64)>::empty());
                    assert(insert_by_year(Seq::<(i32, u64)>::empty(), (p.year, v)) == seq![
                        (p.year, v),
                    ]);
                    assert(pts@ =~= seq![(p.year, v)]);
                }
                let g = Group { iso: piso, ind: pind, cl, il, pts };
                assert(group_rank(g) == r);
                assert(group_ok(g, points@, next));
                let ghost before = groups@;
                proof {
                    if q < before.len() {
                        assert(!rank_lt(group_rank(before[q as int]), r));
                        if group_rank(before[q as int]) == r {
                            assert(group_key(before[q as int]) == k);
                        }
                        assert(rank_lt(r, group_rank(before[q as int])));
                    }
                }
                groups.insert(q, g);
                assert(groups@ =~= before.insert(q as int, g));
                proof {
                    assert forall|a: int, b: int|
                        0 <= a < b < groups@.len() implies rank_lt(
                        group_rank(groups@[a]),
                        group_rank(groups@[b]),
                    ) by {
                        if a < q && b == q {
                            assert(groups@[a] == before[a]);
                        } else if a == q && b > q {
                            assert(groups@[b] == before[b - 1]);
                            if b - 1 > q {
                                assert(rank_lt(group_rank(before[q as int]), group_rank(before[b - 1])));
                            }
                        } else if a < q && b > q {
                            assert(groups@[a] == before[a]);
                            assert(groups@[b] == before[b - 1]);
                        } else if a > q {
                            assert(groups@[a] == before[a - 1]);
                            assert(groups@[b] == before[b - 1]);
                        } else {
                            assert(groups@[a] == before[a]);
                            assert(groups@[b] == before[b]);
                        }
                    }
                    assert forall|a: int| 0 <= a < groups@.len() implies group_ok(
                        #[trigger] groups@[a],
                        points@,
                        next,
                    ) by {
                        if a < q {
                            assert(groups@[a] == before[a]);
                        } else if a > q {
                            assert(groups@[a] == before[a - 1]);
                        }
                    }
                    assert forall|j2: int|
                        0 <= j2 < i + 1 && is_plotted(points@[j2]) implies exists|a: int|
                            0 <= a < groups@.len() && group_key(#[trigger] groups@[a])
                                == series_key(#[trigger] points@[j2]) by {
                        if j2 == i {
                            assert(group_key(groups@[q as int]) == series_key(points@[j2]));
                        } else {
                            let a = choose|a: int|
                                0 <= a < before.len() && group_key(#[trigger] before[a])
                                    == series_key(points@[j2]);
                            if a < q {
                                assert(groups@[a] == before[a]);
                            } else {
                                assert(groups@[a + 1] == before[a]);
                            }
                        }
                    }
                }
            }
        } else {
            proof {
                assert forall|j2: int|
                    0 <= j2 < i + 1 && is_plotted(points@[j2]) implies exists|a: int|
                        0 <= a < groups@.len() && group_key(#[trigger] groups@[a]) == series_key(
                            #[trigger] points@[j2],
                        ) by {
                    assert(j2 != i);
                }
                assert forall|a: int| 0 <= a < groups@.len() implies group_ok(
                    #[trigger] groups@[a],
                    points@,
                    next,
                ) by {
                    lemma_series_step(prev, *p, group_key(groups@[a]));
                }
            }
        }
        i = i + 1;
    }
    assert(points@.take(points@.len() as int) =~= points@);
    finish_series(groups, Ghost(points@))
}

fn rank_less(g: &Group, cl: &Vec<char>, il: &Vec<char>, iso: &Vec<char>, ind: &Vec<char>) -> (r:
    bool)
    ensures
        r == rank_lt(group_rank(*g), ((cl@, il@), (iso@, ind@))),
{
    match pair_compare(g.cl.as_slice(), g.il.as_slice(), cl.as_slice(), il.as_slice()) {
        Order::Less => true,
        Order::Greater => false,
        Order::Equal => pair_compare(
            g.iso.as_slice(),
            g.ind.as_slice(),
            iso.as_slice(),
            ind.as_slice(),
        ) == Order::Less,
    }
}

fn string_from(v: Vec<char>) -> (s: String)
    ensures
        s@ == v@,
{
    let mut s = String::new();
    append_chars(&mut s, v.as_slice());
    assert(s@ =~= v@);
    s
}

#[verifier::spinoff_prover]
fn finish_series(groups: Vec<Group>, Ghost(points): Ghost<Seq<DataPoint>>) -> (out: Vec<
    SeriesData,
>)
    requires
        forall|a: int, b: int|
            0 <= a < b < groups@.len() ==> rank_lt(group_rank(groups@[a]), group_rank(groups@[b])),
        forall|a: int| 0 <= a < groups@.len() ==> group_ok(#[trigger] groups@[a], points, points),
        forall|j: int|
            0 <= j < points.len() && is_plotted(points[j]) ==> exists|a: int|
                0 <= a < groups@.len() && group_key(#[trigger] groups@[a]) == series_key(
                    #[trigger] points[j],
                ),
    ensures
        is_series_list(points, out@),
{
    let ghost all = groups@;
    let n0 = groups.len();
    assert(all.len() == n0);
    let mut rest = groups;
    let mut out: Vec<SeriesData> = Vec::new();
    let mut m: usize = 0;
    while rest.len() > 0
        invariant
            all.len() <= usize::MAX,
            m + rest@.len() == all.len(),
            rest@ == all.skip(m as int),
            out@.len() == m,
            forall|a: int|
                0 <= a < m ==> {
                    &&& series_rank(#[trigger] out@[a]) == group_rank(all[a])
                    &&& out@[a].points@ == all[a].pts@
                },
        decreases rest@.len(),
    {
        let g = rest.remove(0);
        assert(rest@ =~= all.skip(m + 1));
        assert(g == all[m as int]);
        let s = SeriesData {
            iso3: string_from(g.iso),
            indicator_id: string_from(g.ind),
            country_label: string_from(g.cl),
            indicator_label: string_from(g.il),
            points: g.pts,
        };
        out.push(s);
        m = m + 1;
    }
    proof {
        assert forall|k: (Seq<char>, Seq<char>)|
            #[trigger] series_points(points, k).len() > 0 implies exists|a: int|
                0 <= a < out@.len() && (out@[a].iso3@, out@[a].indicator_id@) == k by {
            lemma_series_points_witness(points, k);
            let j = choose|j: int|
                0 <= j < points.len() && series_key(#[trigger] points[j]) == k && is_plotted(
                    points[j],
                );
            let a = choose|a: int|
                0 <= a < all.len() && group_key(#[trigger] all[a]) == series_key(points[j]);
            assert((out@[a].iso3@, out@[a].indicator_id@) == k);
        }
        assert forall|a: int| 0 <= a < out@.len() implies {
            let s = #[trigger] out@[a];
            let k = (s.iso3@, s.indicator_id@);
            &&& s.points@ == sort_by_year(series_points(points, k))
            &&& s.points@.len() > 0
            &&& s.country_label@ == display_name(points, s.iso3@, true)
            &&& s.indicator_label@ == display_name(points, s.indicator_id@, false)
        } by {
            assert(group_ok(all[a], points, points));
        }
    }
    out
}

} // verus!

verus! {

// ------------------------------------------------------------------
// Legend labels
// ------------------------------------------------------------------

/// Whether there is at least one point and all share one indicator id.
pub open spec fn single_indicator(ps: Seq<DataPoint>) -> bool {
    ps.len() > 0 && forall|i: int| 0 <= i < ps.len() ==> (#[trigger] ps[i]).indicator_id@ == ps[0].indicator_id@
}

/// Whether there is at least one point and all share one country code.
pub open spec fn single_country(ps: Seq<DataPoint>) -> bool {
    ps.len() > 0 && forall|i: int| 0 <= i < ps.len() ==> (#[trigger] ps[i]).country_iso3@ == ps[0].country_iso3@
}

/// Legend text of a series: the country name when the chart has one
/// indicator and several countries, the indicator name when it has one
/// country and several indicators, otherwise `"Country — Indicator"`.
pub open spec fn legend_text(ps: Seq<DataPoint>, cl: Seq<char>, il: Seq<char>) -> Seq<char> {
    if single_indicator(ps) && !single_country(ps) {
        cl
    } else if single_country(ps) && !single_indicator(ps) {
        il
    } else {
        cl + " \u{2014} "@ + il
    }
}

fn all_same(points: &[DataPoint], country: bool) -> (r: bool)
    ensures
        country ==> r == single_country(points@),
        !country ==> r == single_indicator(points@),
{
    if points.len() == 0 {
        return false;
    }
    let first = if country {
        chars_of(points[0].country_iso3.as_str())
    } else {
        chars_of(points[0].indicator_id.as_str())
    };
    let mut i: usize = 1;
    assert(country ==> points@[0].country_iso3@ == points@[0].country_iso3@);
    while i < points.len()
        invariant
            1 <= i <= points@.len(),
            country ==> first@ == points@[0].country_iso3@,
            !country ==> first@ == points@[0].indicator_id@,
            forall|k: int|
                0 <= k < i ==> (if country {
                    (#[trigger] points@[k]).country_iso3@ == first@
                } else {
                    points@[k].indicator_id@ == first@
                }),
        decreases points@.len() - i,
    {
        let c = if country {
            chars_of(points[i].country_iso3.as_str())
        } else {
            chars_of(points[i].indicator_id.as_str())
        };
        if !chars_equal(c.as_slice(), first.as_slice()) {
            return false;
        }
        i = i + 1;
    }
    proof {
        if country {
            assert forall|k: int| 0 <= k < points@.len() implies (#[trigger] points@[k]).country_iso3@
                == points@[0].country_iso3@ by {}
        } else {
            assert forall|k: int| 0 <= k < points@.len() implies (#[trigger] points@[k]).indicator_id@
                == points@[0].indicator_id@ by {}
        }
    }
    true
}

/// Whether a series before position `i` belongs to the same country as
/// series `i`.
pub open spec fn country_seen_before(series: Seq<SeriesData>, i: int) -> bool {
    exists|j: int| 0 <= j < i && (#[trigger] series[j]).iso3@ == series[i].iso3@
}

/// Legend text of series `i`. Without country styles it is `legend_text`.
/// With country styles each country is named once: its first series reads
/// `"Country — Indicator"` (or the country alone on a one-indicator chart)
/// and its later series show the indicator only.
pub open spec fn series_label(
    ps: Seq<DataPoint>,
    series: Seq<SeriesData>,
    i: int,
    country_styles: bool,
) -> Seq<char> {
    let cl = series[i].country_label@;
    let il = series[i].indicator_label@;
    if country_styles && country_seen_before(series, i) {
        il
    } else if country_styles && !(single_indicator(ps) && !single_country(ps)) {
        cl + " \u{2014} "@ + il
    } else {
        legend_text(ps, cl, il)
    }
}

fn country_seen(series: &[SeriesData], i: usize) -> (b: bool)
    requires
        i < series@.len(),
    ensures
        b == country_seen_before(series@, i as int),
{
    let c = chars_of(series[i].iso3.as_str());
    let mut j: usize = 0;
    while j < i
        invariant
            j <= i < series@.len(),
            c@ == series@[i as int].iso3@,
            forall|k: int| 0 <= k < j ==> (#[trigger] series@[k]).iso3@ != series@[i as int].iso3@,
        decreases i - j,
    {
        let d = chars_of(series[j].iso3.as_str());
        if chars_equal(d.as_slice(), c.as_slice()) {
            return true;
        }
        j = j + 1;
    }
    false
}

/// Legend texts of the series, in order (see `series_label`); with `loess`
/// each gets the suffix `" (LOESS)"`.
pub fn legend_labels(
    points: &[DataPoint],
    series: &[SeriesData],
    loess: bool,
    country_styles: bool,
) -> (labels: Vec<String>)
    ensures
        labels@.len() == series@.len(),
        forall|i: int|
            0 <= i < series@.len() ==> (#[trigger] labels@[i])@ == if loess {
                series_label(points@, series@, i, country_styles) + " (LOESS)"@
            } else {
                series_label(points@, series@, i, country_styles)
            },
{
    let one_country = all_same(points, true);
    let one_indicator = all_same(points, false);
    let mut labels: Vec<String> = Vec::new();
    let mut i: usize = 0;
    while i < series.len()
        invariant
            i <= series@.len(),
            labels@.len() == i,
            one_country == single_country(points@),
            one_indicator == single_indicator(points@),
            forall|j: int|
                0 <= j < i ==> (#[trigger] labels@[j])@ == if loess {
                    series_label(points@, series@, j, country_styles) + " (LOESS)"@
                } else {
                    series_label(points@, series@, j, country_styles)
                },
        decreases series@.len() - i,
    {
        let s = &series[i];
        let seen = country_styles && country_seen(series, i);
        let mut t = String::new();
        if seen {
            append_str(&mut t, s.indicator_label.as_str());
        } else if country_styles && !(one_indicator && !one_country) {
            append_str(&mut t, s.country_label.as_str());
            append_str(&mut t, " \u{2014} ");
            append_str(&mut t, s.indicator_label.as_str());
        } else if one_indicator && !one_country {
            append_str(&mut t, s.country_label.as_str());
        } else if one_country && !one_indicator {
            append_str(&mut t, s.indicator_label.as_str());
        } else {
            append_str(&mut t, s.country_label.as_str());
            append_str(&mut t, " \u{2014} ");
            append_str(&mut t, s.indicator_label.as_str());
        }
        if loess {
            append_str(&mut t, " (LOESS)");
        }
        labels.push(t);
        i = i + 1;
    }
    labels
}

/// With country styles, a country is named by at most one legend entry: a
/// later series of a country already in the legend shows only its indicator.
pub proof fn law_country_named_once(
    ps: Seq<DataPoint>,
    series: Seq<SeriesData>,
    i: int,
    j: int,
)
    requires
        0 <= i < j < series.len(),
        series[i].iso3@ == series[j].iso3@,
    ensures
        series_label(ps, series, j, true) == series[j].indicator_label@,
{
    assert(country_seen_before(series, j));
}

// ------------------------------------------------------------------
// Year axis
// ------------------------------------------------------------------

/// The years of the points that have one (year not `0`), in input order.
pub open spec fn known_years(ps: Seq<DataPoint>) -> Seq<i32>
    decreases ps.len(),
{
    if ps.len() == 0 {
        Seq::empty()
    } else if ps.last().year != 0 {
        known_years(ps.drop_last()).push(ps.last().year)
    } else {
        known_years(ps.drop_last())
    }
}

/// Smallest element of a non-empty sequence.
pub open spec fn seq_min(s: Seq<i32>) -> i32
    decreases s.len(),
{
    if s.len() <= 1 {
        s[0]
    } else if s.last() < seq_min(s.drop_last()) {
        s.last()
    } else {
        seq_min(s.drop_last())
    }
}

/// Largest element of a non-empty sequence.
pub open spec fn seq_max(s: Seq<i32>) -> i32
    decreases s.len(),
{
    if s.len() <= 1 {
        s[0]
    } else if s.last() > seq_max(s.drop_last()) {
        s.last()
    } else {
        seq_max(s.drop_last())
    }
}

/// The year axis: smallest and largest known year, widened by one on each
/// side when they coincide; `None` when no point has a year.
pub open spec fn year_range(ps: Seq<DataPoint>) -> Option<(i32, i32)> {
    let ys = known_years(ps);
    if ys.len() == 0 {
        None
    } else if seq_min(ys) == seq_max(ys) {
        Some(((seq_min(ys) - 1) as i32, (seq_max(ys) + 1) as i32))
    } else {
        Some((seq_min(ys), seq_max(ys)))
    }
}

/// Whether widening a single-year axis stays within `i32`.
pub open spec fn year_range_fits(ps: Seq<DataPoint>) -> bool {
    let ys = known_years(ps);
    ys.len() > 0 && seq_min(ys) == seq_max(ys) ==> i32::MIN < seq_min(ys) && seq_max(ys)
        < i32::MAX
}

proof fn lemma_min_le_max(s: Seq<i32>)
    requires
        s.len() > 0,
    ensures
        seq_min(s) <= seq_max(s),
    decreases s.len(),
{
    if s.len() > 1 {
        lemma_min_le_max(s.drop_last());
    }
}

/// Smallest and largest known year of the points.
fn year_extremes(points: &[DataPoint]) -> (r: Option<(i32, i32)>)
    ensures
        r is None <==> known_years(points@).len() == 0,
        r matches Some((lo, hi)) ==> lo == seq_min(known_years(points@)) && hi == seq_max(
            known_years(points@),
        ),
{
    let mut lo: i32 = 0;
    let mut hi: i32 = 0;
    let mut any = false;
    let mut i: usize = 0;
    while i < points.len()
        invariant
            i <= points@.len(),
            any == (known_years(points@.take(i as int)).len() > 0),
            any ==> lo == seq_min(known_years(points@.take(i as int))),
            any ==> hi == seq_max(known_years(points@.take(i as int))),
        decreases points@.len() - i,
    {
        let y = points[i].year;
        assert(points@.take(i + 1).drop_last() =~= points@.take(i as int));
        assert(points@.take(i + 1).last() == points@[i as int]);
        if y != 0 {
            proof {
                let ys = known_years(points@.take(i as int));
                assert(known_years(points@.take(i + 1)) == ys.push(y));
                assert(ys.push(y).drop_last() =~= ys);
                if ys.len() == 0 {
                    assert(ys.push(y) =~= seq![y]);
                }
            }
            if !any {
                lo = y;
                hi = y;
                any = true;
            } else {
                if y < lo {
                    lo = y;
                }
                if y > hi {
                    hi = y;
                }
            }
        }
        i = i + 1;
    }
    assert(points@.take(points@.len() as int) =~= points@);
    if any {
        Some((lo, hi))
    } else {
        None
    }
}

/// Decides `year_range_fits`: whether a single known year can be widened by
/// one on each side.
pub fn years_fit(points: &[DataPoint]) -> (b: bool)
    ensures
        b == year_range_fits(points@),
{
    match year_extremes(points) {
        None => true,
        Some((lo, hi)) => lo != hi || (lo > i32::MIN && hi < i32::MAX),
    }
}

/// The year axis of a chart.
pub fn year_bounds(points: &[DataPoint]) -> (r: Option<(i32, i32)>)
    requires
        year_range_fits(points@),
    ensures
        r == year_range(points@),
        r matches Some((a, b)) ==> a < b,
{
    match year_extremes(points) {
        None => None,
        Some((lo, hi)) => {
            proof {
                lemma_min_le_max(known_years(points@));
            }
            if lo == hi {
                Some((lo - 1, hi + 1))
            } else {
                Some((lo, hi))
            }
        },
    }
}

/// Number of year labels: one per year of the axis, at most 12.
pub fn x_label_count(min_year: i32, max_year: i32) -> (n: usize)
    requires
        min_year <= max_year,
        max_year - min_year + 1 <= i32::MAX,
    ensures
        n as int == if max_year - min_year + 1 < 12 {
            max_year - min_year + 1
        } else {
            12
        },
{
    let span = (max_year - min_year + 1) as usize;
    if span < 12 {
        span
    } else {
        12
    }
}

// ------------------------------------------------------------------
// Chart title
// ------------------------------------------------------------------

/// Inserts `x` into a sorted list of distinct texts unless present.
pub open spec fn insert_distinct(s: Seq<Seq<char>>, x: Seq<char>) -> Seq<Seq<char>>
    decreases s.len(),
{
    if s.len() == 0 {
        seq![x]
    } else if s.last() == x {
        s
    } else if seq_lt(s.last(), x) {
        s.push(x)
    } else {
        insert_distinct(s.drop_last(), x).push(s.last())
    }
}

/// The distinct indicator names of the points, in ascending order.
pub open spec fn sorted_names(ps: Seq<DataPoint>) -> Seq<Seq<char>>
    decreases ps.len(),
{
    if ps.len() == 0 {
        Seq::empty()
    } else {
        insert_distinct(sorted_names(ps.drop_last()), ps.last().indicator_name@)
    }
}

proof fn lemma_insert_distinct_at(s: Seq<Seq<char>>, x: Seq<char>, j: int, found: bool)
    requires
        0 <= j <= s.len(),
        forall|k: int| j <= k < s.len() ==> s[k] != x && !seq_lt(#[trigger] s[k], x),
        found ==> j > 0 && s[j - 1] == x,
        !found ==> (j == 0 || seq_lt(s[j - 1], x)),
    ensures
        found ==> insert_distinct(s, x) == s,
        !found ==> insert_distinct(s, x) == s.insert(j, x),
    decreases s.len(),
{
    crate::order::lemma_seq_lt_irreflexive(x);
    if s.len() == 0 {
        assert(s.insert(j, x) =~= seq![x]);
    } else if s.last() == x {
        assert(j == s.len());
    } else if seq_lt(s.last(), x) {
        assert(j == s.len());
        assert(s.insert(j, x) =~= s.push(x));
    } else {
        lemma_insert_distinct_at(s.drop_last(), x, j, found);
        if found {
            assert(s.drop_last().push(s.last()) =~= s);
        } else {
            assert(s.drop_last().insert(j, x).push(s.last()) =~= s.insert(j, x));
        }
    }
}

fn insert_name(names: &mut Vec<Vec<char>>, x: Vec<char>)
    ensures
        crate::chars::views(final(names)@) == insert_distinct(crate::chars::views(old(names)@), x@),
{
    let ghost vs = crate::chars::views(names@);
    let mut j: usize = names.len();
    let mut found = false;
    let mut stop = false;
    while j > 0 && !stop
        invariant
            j <= names@.len(),
            names@ == old(names)@,
            vs == crate::chars::views(names@),
            !stop ==> !found,
            stop ==> j > 0,
            stop && found ==> vs[j - 1] == x@,
            stop && !found ==> seq_lt(vs[j - 1], x@),
            forall|k: int| j <= k < vs.len() ==> vs[k] != x@ && !seq_lt(#[trigger] vs[k], x@),
        decreases j + (if stop { 0int } else { 1int }),
    {
        let c = lex_compare(names[j - 1].as_slice(), x.as_slice());
        assert(vs[j - 1] == names@[j - 1]@);
        if c == Order::Equal {
            found = true;
            stop = true;
        } else if c == Order::Less {
            stop = true;
        } else {
            j = j - 1;
        }
    }
    proof {
        if !found && j > 0 {
            assert(vs[j - 1] == names@[j - 1]@);
        }
        lemma_insert_distinct_at(vs, x@, j as int, found);
    }
    if !found {
        names.insert(j, x);
        assert(crate::chars::views(names@) =~= vs.insert(j as int, x@));
    }
}

/// The chart title: the trimmed title, unless it is empty or the generic
/// `"World Bank Indicator(s)"`; then derived from the indicator names (in
/// ascending order): `"World Bank Series"` for none, the name for one, the
/// names joined by `", "` for two or three, and `"<first> + <n-1> more"`
/// for more.
pub open spec fn chart_title_text(title: Seq<char>, ps: Seq<DataPoint>) -> Seq<char> {
    let t = trim(title);
    let names = sorted_names(ps);
    if t.len() == 0 || t == "World Bank Indicator(s)"@ {
        if names.len() == 0 {
            "World Bank Series"@
        } else if names.len() == 1 {
            names[0]
        } else if names.len() == 2 {
            names[0] + ", "@ + names[1]
        } else if names.len() == 3 {
            names[0] + ", "@ + names[1] + ", "@ + names[2]
        } else {
            names[0] + " + "@ + dec_digits((names.len() - 1) as nat) + " more"@
        }
    } else {
        t
    }
}

/// Builds the chart title.
pub fn chart_title(title: &str, points: &[DataPoint]) -> (r: String)
    ensures
        r@ == chart_title_text(title@, points@),
{
    let tv = chars_of(title);
    let t = trim_chars(tv.as_slice());
    let generic: [char; 23] = [
        'W', 'o', 'r', 'l', 'd', ' ', 'B', 'a', 'n', 'k', ' ', 'I', 'n', 'd', 'i', 'c', 'a', 't',
        'o', 'r', '(', 's', ')',
    ];
    proof {
        reveal_strlit("World Bank Indicator(s)");
    }
    assert(generic@ =~= "World Bank Indicator(s)"@);
    let mut r = String::new();
    if t.len() != 0 && !chars_equal(t.as_slice(), &generic) {
        append_chars(&mut r, t.as_slice());
        assert(r@ =~= trim(title@));
        return r;
    }
    let mut names: Vec<Vec<char>> = Vec::new();
    let mut i: usize = 0;
    assert(crate::chars::views(names@) =~= sorted_names(points@.take(0)));
    while i < points.len()
        invariant
            i <= points@.len(),
            crate::chars::views(names@) == sorted_names(points@.take(i as int)),
        decreases points@.len() - i,
    {
        let n = chars_of(points[i].indicator_name.as_str());
        assert(points@.take(i + 1).drop_last() =~= points@.take(i as int));
        insert_name(&mut names, n);
        i = i + 1;
    }
    assert(points@.take(points@.len() as int) =~= points@);
    let ghost ns = sorted_names(points@);
    let k = names.len();
    if k == 0 {
        append_str(&mut r, "World Bank Series");
    } else if k <= 3 {
        let mut j: usize = 0;
        while j < k
            invariant
                j <= k,
                k == names@.len(),
                1 <= k <= 3,
                ns == crate::chars::views(names@),
                j == 0 ==> r@.len() == 0,
                j == 1 ==> r@ == ns[0],
                j == 2 ==> r@ == ns[0] + ", "@ + ns[1],
                j == 3 ==> r@ == ns[0] + ", "@ + ns[1] + ", "@ + ns[2],
            decreases k - j,
        {
            assert(ns[j as int] == names@[j as int]@);
            if j > 0 {
                append_str(&mut r, ", ");
            }
            append_chars(&mut r, names[j].as_slice());
            proof {
                if j == 0 {
                    assert(r@ =~= ns[0]);
                }
            }
            j = j + 1;
        }
    } else {
        assert(ns[0] == names@[0]@);
        append_chars(&mut r, names[0].as_slice());
        append_str(&mut r, " + ");
        let d = u64_digits((k - 1) as u64);
        append_chars(&mut r, d.as_slice());
        append_str(&mut r, " more");
    }
    r
}

} // verus!

verus! {

/// Why a chart cannot be drawn.
#[derive(Debug, Clone, Copy, PartialEq, Eq, Structural)]
pub enum ChartError {
    NoData,
    NoValidYears,
    NoNumericValues,
}

/// The text of a chart error.
pub open spec fn chart_error_text(e: ChartError) -> Seq<char> {
    match e {
        ChartError::NoData => "no data to plot"@,
        ChartError::NoValidYears => "no valid years"@,
        ChartError::NoNumericValues => "no numeric values to plot"@,
    }
}

impl ChartError {
    /// The text of this error.
    pub fn message(&self) -> (m: String)
        ensures
            m@ == chart_error_text(*self),
    {
        let mut m = String::new();
        match self {
            ChartError::NoData => append_str(&mut m, "no data to plot"),
            ChartError::NoValidYears => append_str(&mut m, "no valid years"),
            ChartError::NoNumericValues => append_str(&mut m, "no numeric values to plot"),
        }
        assert(m@ =~= chart_error_text(*self));
        m
    }
}

/// Checks that a chart can be drawn and returns its year axis: there must be
/// points, one of them with a year, and one with a finite value.
pub fn check_chart_input(points: &[DataPoint]) -> (r: Result<(i32, i32), ChartError>)
    requires
        year_range_fits(points@),
    ensures
        points@.len() == 0 ==> r == Err::<(i32, i32), ChartError>(ChartError::NoData),
        points@.len() > 0 && year_range(points@) is None ==> r == Err::<(i32, i32), ChartError>(
            ChartError::NoValidYears,
        ),
        points@.len() > 0 && year_range(points@) is Some && (forall|i: int|
            0 <= i < points@.len() ==> !has_finite_value(#[trigger] points@[i])) ==> r == Err::<
            (i32, i32),
            ChartError,
        >(ChartError::NoNumericValues),
        points@.len() > 0 && (exists|i: int|
            0 <= i < points@.len() && has_finite_value(#[trigger] points@[i])) ==> match year_range(
            points@,
        ) {
            Some(yr) => r == Ok::<(i32, i32), ChartError>(yr),
            None => r == Err::<(i32, i32), ChartError>(ChartError::NoValidYears),
        },
{
    if points.len() == 0 {
        return Err(ChartError::NoData);
    }
    let yr = match year_bounds(points) {
        Some(yr) => yr,
        None => {
            return Err(ChartError::NoValidYears);
        },
    };
    let mut i: usize = 0;
    while i < points.len()
        invariant
            i <= points@.len(),
            year_range(points@) == Some(yr),
            forall|k: int| 0 <= k < i ==> !has_finite_value(#[trigger] points@[k]),
        decreases points@.len() - i,
    {
        let finite = match points[i].value {
            Some(v) => is_finite(v),
            None => false,
        };
        if finite {
            return Ok(yr);
        }
        i = i + 1;
    }
    Err(ChartError::NoNumericValues)
}

} // verus!

verus! {

// ------------------------------------------------------------------
// Non-finite values
// ------------------------------------------------------------------

/// The point with a non-finite value replaced by `None`.
pub open spec fn without_non_finite(p: DataPoint) -> DataPoint {
    DataPoint {
        indicator_id: p.indicator_id,
        indicator_name: p.indicator_name,
        country_id: p.country_id,
        country_name: p.country_name,
        country_iso3: p.country_iso3,
        year: p.year,
        value: if has_finite_value(p) {
            p.value
        } else {
            None
        },
        unit: p.unit,
        obs_status: p.obs_status,
        decimal: p.decimal,
    }
}

/// The points with every non-finite value replaced by `None`.
pub open spec fn all_without_non_finite(ps: Seq<DataPoint>) -> Seq<DataPoint> {
    ps.map_values(|p: DataPoint| without_non_finite(p))
}

proof fn lemma_scrub_shape(ps: Seq<DataPoint>)
    ensures
        all_without_non_finite(ps).len() == ps.len(),
        ps.len() > 0 ==> all_without_non_finite(ps).drop_last() == all_without_non_finite(
            ps.drop_last(),
        ),
        ps.len() > 0 ==> all_without_non_finite(ps).drop_first() == all_without_non_finite(
            ps.drop_first(),
        ),
{
    if ps.len() > 0 {
        assert(all_without_non_finite(ps).drop_last() =~= all_without_non_finite(ps.drop_last()));
        assert(all_without_non_finite(ps).drop_first() =~= all_without_non_finite(ps.drop_first()));
    }
}

proof fn lemma_scrub_series_points(ps: Seq<DataPoint>, k: (Seq<char>, Seq<char>))
    ensures
        series_points(all_without_non_finite(ps), k) == series_points(ps, k),
    decreases ps.len(),
{
    lemma_scrub_shape(ps);
    if ps.len() > 0 {
        lemma_scrub_series_points(ps.drop_last(), k);
        assert(all_without_non_finite(ps).last() == without_non_finite(ps.last()));
    }
}

proof fn lemma_scrub_known_years(ps: Seq<DataPoint>)
    ensures
        known_years(all_without_non_finite(ps)) == known_years(ps),
    decreases ps.len(),
{
    lemma_scrub_shape(ps);
    if ps.len() > 0 {
        lemma_scrub_known_years(ps.drop_last());
        assert(all_without_non_finite(ps).last() == without_non_finite(ps.last()));
    }
}

proof fn lemma_scrub_first_name(ps: Seq<DataPoint>, code: Seq<char>, country: bool)
    ensures
        first_name(all_without_non_finite(ps), code, country) == first_name(ps, code, country),
    decreases ps.len(),
{
    lemma_scrub_shape(ps);
    if ps.len() > 0 {
        lemma_scrub_first_name(ps.drop_first(), code, country);
        assert(all_without_non_finite(ps)[0] == without_non_finite(ps[0]));
    }
}

proof fn lemma_scrub_sorted_names(ps: Seq<DataPoint>)
    ensures
        sorted_names(all_without_non_finite(ps)) == sorted_names(ps),
    decreases ps.len(),
{
    lemma_scrub_shape(ps);
    if ps.len() > 0 {
        lemma_scrub_sorted_names(ps.drop_last());
        assert(all_without_non_finite(ps).last() == without_non_finite(ps.last()));
    }
}

proof fn lemma_scrub_first_unit(ps: Seq<DataPoint>)
    ensures
        first_unit(all_without_non_finite(ps)) == first_unit(ps),
    decreases ps.len(),
{
    lemma_scrub_shape(ps);
    if ps.len() > 0 {
        lemma_scrub_first_unit(ps.drop_first());
        assert(all_without_non_finite(ps)[0] == without_non_finite(ps[0]));
    }
}

/// Replacing every non-finite value by `None` changes nothing that a chart
/// is drawn from: the series (points, labels and order), the year axis and
/// its check, the presence of a numeric value, the legend texts, the title
/// and the axis unit are the same.
pub proof fn law_non_finite_values_do_not_change_chart(ps: Seq<DataPoint>)
    ensures
        all_without_non_finite(ps).len() == ps.len(),
        forall|out: Seq<SeriesData>|
            #![trigger is_series_list(ps, out)]
            #![trigger is_series_list(all_without_non_finite(ps), out)]
            is_series_list(all_without_non_finite(ps), out) <==> is_series_list(ps, out),
        year_range(all_without_non_finite(ps)) == year_range(ps),
        year_range_fits(all_without_non_finite(ps)) == year_range_fits(ps),
        forall|i: int|
            0 <= i < ps.len() ==> has_finite_value(#[trigger] all_without_non_finite(ps)[i])
                == has_finite_value(ps[i]),
        forall|series: Seq<SeriesData>, i: int, country_styles: bool|
            #[trigger] series_label(all_without_non_finite(ps), series, i, country_styles)
                == series_label(ps, series, i, country_styles),
        forall|title: Seq<char>|
            #[trigger] chart_title_text(title, all_without_non_finite(ps)) == chart_title_text(
                title,
                ps,
            ),
        axis_unit(all_without_non_finite(ps)) == axis_unit(ps),
{
    let qs = all_without_non_finite(ps);
    lemma_scrub_shape(ps);
    assert forall|i: int| 0 <= i < ps.len() implies #[trigger] qs[i] == without_non_finite(
        ps[i],
    ) by {}
    assert forall|k: (Seq<char>, Seq<char>)| #[trigger]
        series_points(qs, k) == series_points(ps, k) by {
        lemma_scrub_series_points(ps, k);
    }
    assert forall|code: Seq<char>, country: bool| #[trigger]
        display_name(qs, code, country) == display_name(ps, code, country) by {
        lemma_scrub_first_name(ps, code, country);
    }
    assert forall|out: Seq<SeriesData>|
        is_series_list(qs, out) <==> is_series_list(ps, out) by {
        if is_series_list(ps, out) {
            assert forall|k: (Seq<char>, Seq<char>)| #[trigger]
                series_points(qs, k).len() > 0 implies exists|a: int|
                0 <= a < out.len() && (out[a].iso3@, out[a].indicator_id@) == k by {
                assert(series_points(ps, k).len() > 0);
            }
        }
        if is_series_list(qs, out) {
            assert forall|k: (Seq<char>, Seq<char>)| #[trigger]
                series_points(ps, k).len() > 0 implies exists|a: int|
                0 <= a < out.len() && (out[a].iso3@, out[a].indicator_id@) == k by {
                assert(series_points(qs, k).len() > 0);
            }
        }
    }
    lemma_scrub_known_years(ps);
    lemma_scrub_sorted_names(ps);
    lemma_scrub_first_unit(ps);
    if ps.len() > 0 {
        assert(qs[0] == without_non_finite(ps[0]));
        if single_indicator(ps) {
            assert forall|i: int| 0 <= i < qs.len() implies (#[trigger] qs[i]).indicator_id@
                == qs[0].indicator_id@ by {
                assert(qs[i] == without_non_finite(ps[i]));
            }
        }
        if single_indicator(qs) {
            assert forall|i: int| 0 <= i < ps.len() implies (#[trigger] ps[i]).indicator_id@
                == ps[0].indicator_id@ by {
                assert(qs[i] == without_non_finite(ps[i]));
            }
        }
        if single_country(ps) {
            assert forall|i: int| 0 <= i < qs.len() implies (#[trigger] qs[i]).country_iso3@
                == qs[0].country_iso3@ by {
                assert(qs[i] == without_non_finite(ps[i]));
            }
        }
        if single_country(qs) {
            assert forall|i: int| 0 <= i < ps.len() implies (#[trigger] ps[i]).country_iso3@
                == ps[0].country_iso3@ by {
                assert(qs[i] == without_non_finite(ps[i]));
            }
        }
    }
    assert(single_indicator(qs) == single_indicator(ps));
    assert(single_country(qs) == single_country(ps));
    if ps.len() > 0 {
        if single_name(ps) {
            assert forall|i: int| 0 <= i < qs.len() implies (#[trigger] qs[i]).indicator_name@
                == qs[0].indicator_name@ by {
                assert(qs[i] == without_non_finite(ps[i]));
            }
        }
        if single_name(qs) {
            assert forall|i: int| 0 <= i < ps.len() implies (#[trigger] ps[i]).indicator_name@
                == ps[0].indicator_name@ by {
                assert(qs[i] == without_non_finite(ps[i]));
            }
        }
    }
    assert(single_name(qs) == single_name(ps));
    assert forall|u: Seq<char>| #[trigger] all_units_are(qs, u) == all_units_are(ps, u) by {
        if all_units_are(ps, u) {
            assert forall|i: int| 0 <= i < qs.len() implies match (#[trigger] qs[i]).unit {
                Some(x) => x@.len() == 0 || x@ == u,
                None => true,
            } by {
                assert(qs[i] == without_non_finite(ps[i]));
            }
        }
        if all_units_are(qs, u) {
            assert forall|i: int| 0 <= i < ps.len() implies match (#[trigger] ps[i]).unit {
                Some(x) => x@.len() == 0 || x@ == u,
                None => true,
            } by {
                assert(qs[i] == without_non_finite(ps[i]));
            }
        }
    }
    if ps.len() > 0 {
        assert(qs[0].indicator_name == ps[0].indicator_name);
    }
}

} // verus!

verus! {

proof fn lemma_insert_by_year_sorted(s: Seq<(i32, u64)>, x: (i32, u64))
    requires
        forall|i: int, j: int| 0 <= i <= j < s.len() ==> (#[trigger] s[i]).0 <= (#[trigger] s[j]).0,
    ensures
        forall|i: int, j: int|
            0 <= i <= j < insert_by_year(s, x).len() ==> (#[trigger] insert_by_year(s, x)[i]).0
                <= (#[trigger] insert_by_year(s, x)[j]).0,
        insert_by_year(s, x).to_multiset() == s.to_multiset().insert(x),
        insert_by_year(s, x).len() == s.len() + 1,
    decreases s.len(),
{
    broadcast use vstd::seq_lib::group_to_multiset_ensures;
    if s.len() == 0 {
        assert(seq![x] =~= Seq::<(i32, u64)>::empty().push(x));
    } else if s.last().0 <= x.0 {
        let r = s.push(x);
        assert forall|i: int, j: int| 0 <= i <= j < r.len() implies (#[trigger] r[i]).0 <= (
        #[trigger] r[j]).0 by {
            if j == s.len() as int {
                if i < s.len() {
                    assert(s[i].0 <= s[s.len() - 1].0);
                }
            }
        }
    } else {
        let t = s.drop_last();
        assert forall|i: int, j: int| 0 <= i <= j < t.len() implies (#[trigger] t[i]).0 <= (
        #[trigger] t[j]).0 by {
            assert(t[i] == s[i] && t[j] == s[j]);
        }
        lemma_insert_by_year_sorted(t, x);
        let r = insert_by_year(t, x);
        assert(s =~= t.push(s.last()));
        assert forall|i: int| 0 <= i < r.len() implies (#[trigger] r[i]).0 <= s.last().0 by {
            assert(r.to_multiset().count(r[i]) > 0);
            if r[i] != x {
                assert(t.to_multiset().count(r[i]) > 0);
                let k = choose|k: int| 0 <= k < t.len() && t[k] == r[i];
                assert(s[k].0 <= s[s.len() - 1].0);
            }
        }
        let q = r.push(s.last());
        assert forall|i: int, j: int| 0 <= i <= j < q.len() implies (#[trigger] q[i]).0 <= (
        #[trigger] q[j]).0 by {
            if j == r.len() as int {
                if i < r.len() {
                    assert(q[i] == r[i]);
                }
            } else {
                assert(q[i] == r[i] && q[j] == r[j]);
            }
        }
    }
}

/// Sorting by year puts the pairs in ascending order of year and keeps
/// every pair (the same multiset).
pub proof fn law_sort_by_year_sorts(s: Seq<(i32, u64)>)
    ensures
        forall|i: int, j: int|
            0 <= i <= j < sort_by_year(s).len() ==> (#[trigger] sort_by_year(s)[i]).0 <= (
            #[trigger] sort_by_year(s)[j]).0,
        sort_by_year(s).to_multiset() == s.to_multiset(),
        sort_by_year(s).len() == s.len(),
    decreases s.len(),
{
    broadcast use vstd::seq_lib::group_to_multiset_ensures;
    if s.len() > 0 {
        law_sort_by_year_sorts(s.drop_last());
        lemma_insert_by_year_sorted(sort_by_year(s.drop_last()), s.last());
        assert(s =~= s.drop_last().push(s.last()));
    }
}

/// Every prepared series lists its points in ascending order of year, and
/// they are exactly the plotted observations of its (country, indicator)
/// pair.
pub proof fn law_series_points_ascend_by_year(points: Seq<DataPoint>, out: Seq<SeriesData>, a: int)
    requires
        is_series_list(points, out),
        0 <= a < out.len(),
    ensures
        forall|i: int, j: int|
            0 <= i <= j < out[a].points@.len() ==> (#[trigger] out[a].points@[i]).0 <= (
            #[trigger] out[a].points@[j]).0,
        out[a].points@.to_multiset() == series_points(points, (out[a].iso3@, out[a].indicator_id@))
            .to_multiset(),
{
    law_sort_by_year_sorts(series_points(points, (out[a].iso3@, out[a].indicator_id@)));
}

} // verus!
