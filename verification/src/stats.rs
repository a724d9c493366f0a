//! Grouped summary statistics per `(indicator_id, country_iso3)`.
//!
//! - Only finite values are observations; `None` and non-finite values are
//!   counted as missing.
//! - Groups come out in the order of their key (indicator id, then country),
//!   each with its observations sorted by value (stably), so results are
//!   deterministic.
//! - A group's mean and median are floating-point averages of these sorted
//!   observations and are computed by the caller; `median_positions` says
//!   which observations the median averages.

use vstd::prelude::*;
use crate::models::{DataPoint, GroupKey};
use crate::order::{
    Order, pair_lt, pair_compare, lemma_pair_lt_facts, is_finite, is_finite_bits, insert_value,
    insert_by_key, sort_by_value, lemma_sort_by_value, sorted_by_key, order_key,
    f64_scaled_value, law_order_key_is_numeric_order,
};
use crate::chars::chars_of;

verus! {

/// Summary statistics of one group.
#[derive(Debug, Clone, PartialEq)]
pub struct Summary {
    pub key: GroupKey,
    /// Number of finite values.
    pub count: usize,
    /// Number of missing or non-finite values.
    pub missing: usize,
    /// Smallest finite value (`f64` bit pattern).
    pub min: Option<u64>,
    /// Largest finite value (`f64` bit pattern).
    pub max: Option<u64>,
    /// The finite values, ascending (`f64` bit patterns).
    pub values: Vec<u64>,
}

/// The grouping key of a point: (indicator id, ISO3 country code).
pub open spec fn point_key(p: DataPoint) -> (Seq<char>, Seq<char>) {
    (p.indicator_id@, p.country_iso3@)
}

/// The key of a summary.
pub open spec fn summary_key(s: Summary) -> (Seq<char>, Seq<char>) {
    (s.key.indicator_id@, s.key.country_iso3@)
}

/// Whether a point carries a finite value.
pub open spec fn has_finite_value(p: DataPoint) -> bool {
    match p.value {
        Some(v) => is_finite_bits(v),
        None => false,
    }
}

/// The finite values of the points with key `k`, in input order.
pub open spec fn group_values(ps: Seq<DataPoint>, k: (Seq<char>, Seq<char>)) -> Seq<u64>
    decreases ps.len(),
{
    if ps.len() == 0 {
        Seq::empty()
    } else {
        let r = group_values(ps.drop_last(), k);
        let p = ps.last();
        if point_key(p) == k && has_finite_value(p) {
            r.push(p.value.unwrap())
        } else {
            r
        }
    }
}

/// The number of points with key `k` whose value is missing or not finite.
pub open spec fn group_missing(ps: Seq<DataPoint>, k: (Seq<char>, Seq<char>)) -> nat
    decreases ps.len(),
{
    if ps.len() == 0 {
        0
    } else {
        let r = group_missing(ps.drop_last(), k);
        let p = ps.last();
        if point_key(p) == k && !has_finite_value(p) {
            r + 1
        } else {
            r
        }
    }
}

proof fn lemma_group_values_witness(ps: Seq<DataPoint>, k: (Seq<char>, Seq<char>))
    requires
        group_values(ps, k).len() > 0,
    ensures
        exists|j: int| 0 <= j < ps.len() && point_key(#[trigger] ps[j]) == k,
    decreases ps.len(),
{
    let p = ps.last();
    if point_key(p) == k && has_finite_value(p) {
        assert(point_key(ps[ps.len() - 1]) == k);
    } else {
        lemma_group_values_witness(ps.drop_last(), k);
        let j = choose|j: int| 0 <= j < ps.drop_last().len() && point_key(
            #[trigger] ps.drop_last()[j],
        ) == k;
        assert(ps[j] == ps.drop_last()[j]);
    }
}

proof fn lemma_group_missing_bound(ps: Seq<DataPoint>, k: (Seq<char>, Seq<char>))
    ensures
        group_missing(ps, k) <= ps.len(),
        group_values(ps, k).len() <= ps.len(),
    decreases ps.len(),
{
    if ps.len() > 0 {
        lemma_group_missing_bound(ps.drop_last(), k);
    }
}

/// Whether `out` is the grouped summary of `points`: one summary per key
/// present in the points, strictly ascending by key, each holding its
/// group's finite values sorted by value, their number, the number of
/// missing values, and the smallest and largest value (`None` for a group
/// without finite values).
pub open spec fn is_grouped_summary(points: Seq<DataPoint>, out: Seq<Summary>) -> bool {
    &&& forall|a: int, b: int|
        0 <= a < b < out.len() ==> pair_lt(summary_key(out[a]), summary_key(out[b]))
    &&& forall|a: int|
        0 <= a < out.len() ==> {
            let s = #[trigger] out[a];
            let k = summary_key(s);
            &&& group_size(points, k) > 0
            &&& s.values@ == sort_by_value(group_values(points, k))
            &&& s.count == s.values@.len()
            &&& s.missing == group_missing(points, k)
            &&& s.min == (if s.values@.len() > 0 {
                Some(s.values@[0])
            } else {
                None
            })
            &&& s.max == (if s.values@.len() > 0 {
                Some(s.values@.last())
            } else {
                None
            })
        }
    &&& forall|k: (Seq<char>, Seq<char>)|
        #[trigger] group_size(points, k) > 0 ==> exists|a: int|
            0 <= a < out.len() && summary_key(#[trigger] out[a]) == k
}

proof fn lemma_group_size_witness(ps: Seq<DataPoint>, k: (Seq<char>, Seq<char>))
    requires
        group_size(ps, k) > 0,
    ensures
        exists|j: int| 0 <= j < ps.len() && point_key(#[trigger] ps[j]) == k,
    decreases ps.len(),
{
    if point_key(ps.last()) == k {
        assert(point_key(ps[ps.len() - 1]) == k);
    } else {
        lemma_group_size_witness(ps.drop_last(), k);
        let j = choose|j: int| 0 <= j < ps.drop_last().len() && point_key(
            #[trigger] ps.drop_last()[j],
        ) == k;
        assert(ps[j] == ps.drop_last()[j]);
    }
}

/// A group being accumulated.
struct Acc {
    ind: Vec<char>,
    iso: Vec<char>,
    key: GroupKey,
    vals: Vec<u64>,
    missing: usize,
}

spec fn acc_key(a: Acc) -> (Seq<char>, Seq<char>) {
    (a.ind@, a.iso@)
}

spec fn acc_ok(a: Acc, ps: Seq<DataPoint>) -> bool {
    &&& a.key.indicator_id@ == a.ind@
    &&& a.key.country_iso3@ == a.iso@
    &&& a.vals@ == sort_by_value(group_values(ps, acc_key(a)))
    &&& a.missing == group_missing(ps, acc_key(a))
    &&& group_size(ps, acc_key(a)) > 0
}

proof fn lemma_step_other(ps: Seq<DataPoint>, p: DataPoint, k: (Seq<char>, Seq<char>))
    requires
        point_key(p) != k,
    ensures
        group_values(ps.push(p), k) == group_values(ps, k),
        group_missing(ps.push(p), k) == group_missing(ps, k),
        group_size(ps.push(p), k) == group_size(ps, k),
{
    assert(ps.push(p).drop_last() =~= ps);
}

proof fn lemma_step_same(ps: Seq<DataPoint>, p: DataPoint)
    ensures
        has_finite_value(p) ==> group_values(ps.push(p), point_key(p)) == group_values(
            ps,
            point_key(p),
        ).push(p.value.unwrap()),
        has_finite_value(p) ==> group_missing(ps.push(p), point_key(p)) == group_missing(
            ps,
            point_key(p),
        ),
        !has_finite_value(p) ==> group_values(ps.push(p), point_key(p)) == group_values(
            ps,
            point_key(p),
        ),
        !has_finite_value(p) ==> group_missing(ps.push(p), point_key(p)) == group_missing(
            ps,
            point_key(p),
        ) + 1,
        group_size(ps.push(p), point_key(p)) == group_size(ps, point_key(p)) + 1,
{
    assert(ps.push(p).drop_last() =~= ps);
}

/// Computes grouped statistics by `(indicator_id, country_iso3)`.
#[verifier::spinoff_prover]
pub fn grouped_summary(points: &[DataPoint]) -> (out: Vec<Summary>)
    ensures
        is_grouped_summary(points@, out@),
{
    proof {
        lemma_pair_lt_facts();
    }
    let mut accs: Vec<Acc> = Vec::new();
    let mut i: usize = 0;
    while i < points.len()
        invariant
            i <= points@.len(),
            forall|a: int, b: int|
                0 <= a < b < accs@.len() ==> pair_lt(acc_key(accs@[a]), acc_key(accs@[b])),
            forall|a: int| 0 <= a < accs@.len() ==> acc_ok(#[trigger] accs@[a], points@.take(i as int)),
            forall|j: int|
                0 <= j < i ==> exists|a: int|
                    0 <= a < accs@.len() && acc_key(#[trigger] accs@[a]) == point_key(
                        #[trigger] points@[j],
                    ),
            forall|x: (Seq<char>, Seq<char>), y: (Seq<char>, Seq<char>)|
                x == y || #[trigger] pair_lt(x, y) || #[trigger] pair_lt(y, x),
            forall|x: (Seq<char>, Seq<char>), y: (Seq<char>, Seq<char>)|
                !(#[trigger] pair_lt(x, y) && #[trigger] pair_lt(y, x)),
            forall|x: (Seq<char>, Seq<char>)| !#[trigger] pair_lt(x, x),
        decreases points@.len() - i,
    {
        let p = &points[i];
        let ghost prev = points@.take(i as int);
        let ghost next = points@.take(i + 1);
        assert(next =~= prev.push(points@[i as int]));
        let pind = chars_of(p.indicator_id.as_str());
        let piso = chars_of(p.country_iso3.as_str());
        let ghost k = point_key(*p);
        assert((pind@, piso@) == k);
        let finite = match p.value {
            Some(v) => is_finite(v),
            None => false,
        };
        assert(finite == has_finite_value(*p));
        proof {
            lemma_step_same(prev, *p);
            assert forall|a: int| 0 <= a < accs@.len() && acc_key(accs@[a]) != k implies acc_ok(
                #[trigger] accs@[a],
                next,
            ) by {
                lemma_step_other(prev, *p, acc_key(accs@[a]));
            }
        }
        // find the first group whose key is not below k
        let mut j: usize = 0;
        while j < accs.len() && pair_compare(
            accs[j].ind.as_slice(),
            accs[j].iso.as_slice(),
            pind.as_slice(),
            piso.as_slice(),
        ) == Order::Less
            invariant
                j <= accs@.len(),
                (pind@, piso@) == k,
                forall|a: int| 0 <= a < j ==> pair_lt(acc_key(#[trigger] accs@[a]), k),
            decreases accs@.len() - j,
        {
            j = j + 1;
        }
        let found = j < accs.len() && pair_compare(
            accs[j].ind.as_slice(),
            accs[j].iso.as_slice(),
            pind.as_slice(),
            piso.as_slice(),
        ) == Order::Equal;
        if found {
            let ghost before = accs@;
            let mut e = accs.remove(j);
            assert(acc_key(e) == k);
            let ghost e_key = acc_key(e);
            if finite {
                let v = match p.value {
                    Some(v) => v,
                    None => 0,
                };
                insert_value(&mut e.vals, v);
                assert(e.vals@ == sort_by_value(group_values(next, k))) by {
                    assert(group_values(next, k).drop_last() =~= group_values(prev, k));
                }
            } else {
                proof {
                    lemma_group_missing_bound(prev, k);
                }
                e.missing = e.missing + 1;
            }
            let ghost ek = acc_key(e);
            accs.insert(j, e);
            assert(accs@ =~= before.update(j as int, e));
            proof {
                assert forall|j2: int|
                    0 <= j2 < i + 1 implies exists|a: int|
                        0 <= a < accs@.len() && acc_key(#[trigger] accs@[a]) == point_key(
                            #[trigger] points@[j2],
                        ) by {
                    if j2 == i {
                        assert(acc_key(accs@[j as int]) == point_key(points@[j2]));
                    } else {
                        let a = choose|a: int|
                            0 <= a < before.len() && acc_key(#[trigger] before[a]) == point_key(
                                points@[j2],
                            );
                        assert(acc_key(accs@[a]) == acc_key(before[a]));
                    }
                }
            }
        } else {
            let mut vals: Vec<u64> = Vec::new();
            let mut missing: usize = 0;
            proof {
                assert(!exists|j2: int| 0 <= j2 < i && point_key(#[trigger] points@[j2]) == k) by {
                    if exists|j2: int| 0 <= j2 < i && point_key(#[trigger] points@[j2]) == k {
                        let j2 = choose|j2: int| 0 <= j2 < i && point_key(#[trigger] points@[j2]) == k;
                        let a = choose|a: int|
                            0 <= a < accs@.len() && acc_key(#[trigger] accs@[a]) == point_key(
                                points@[j2],
                            );
                        if a < j {
                            assert(pair_lt(acc_key(accs@[a]), k));
                        } else if a > j {
                            assert(pair_lt(acc_key(accs@[j as int]), acc_key(accs@[a])));
                            assert(!pair_lt(acc_key(accs@[j as int]), k));
                        }
                    }
                }
                if group_values(prev, k).len() > 0 {
                    lemma_group_values_witness(prev, k);
                    let j2 = choose|j2: int| 0 <= j2 < prev.len() && point_key(#[trigger] prev[j2]) == k;
                    assert(prev[j2] == points@[j2]);
                }
                assert(group_values(prev, k) =~= Seq::<u64>::empty());
                lemma_group_missing_zero(prev, k);
            }
            if finite {
                let v = match p.value {
                    Some(v) => v,
                    None => 0,
                };
                vals.push(v);
                assert(vals@ == sort_by_value(group_values(next, k))) by {
                    assert(group_values(next, k) =~= seq![v]);
                    assert(seq![v].drop_last() =~= Seq::<u64>::empty());
                    assert(sort_by_value(Seq::<u64>::empty()) == Seq::<u64>::empty());
                    assert(insert_by_key(Seq::<u64>::empty(), v) == seq![v]);
                    assert(vals@ =~= seq![v]);
                }
            } else {
                missing = 1;
                assert(group_values(next, k) =~= Seq::<u64>::empty());
            }
            let key = GroupKey {
                indicator_id: p.indicator_id.clone(),
                country_iso3: p.country_iso3.clone(),
            };
            let e = Acc { ind: pind, iso: piso, key, vals, missing };
            let ghost before = accs@;
            accs.insert(j, e);
            assert(accs@ =~= before.insert(j as int, e));
            proof {
                lemma_pair_lt_facts();
                if j < before.len() {
                    assert(acc_key(before[j as int]) != k);
                    assert(!pair_lt(acc_key(before[j as int]), k));
                    assert(pair_lt(k, acc_key(before[j as int])));
                }
                assert forall|a: int, b: int|
                    0 <= a < b < accs@.len() implies pair_lt(
                    acc_key(accs@[a]),
                    acc_key(accs@[b]),
                ) by {
                    if a < j && b == j {
                        assert(accs@[a] == before[a]);
                        assert(pair_lt(acc_key(before[a]), k));
                    } else if a == j && b > j {
                        assert(accs@[b] == before[b - 1]);
                        if b - 1 > j {
                            assert(pair_lt(acc_key(before[j as int]), acc_key(before[b - 1])));
                        }
                    } else if a < j && b > j {
                        assert(accs@[a] == before[a]);
                        assert(accs@[b] == before[b - 1]);
                    } else if a > j {
                        assert(accs@[a] == before[a - 1]);
                        assert(accs@[b] == before[b - 1]);
                    } else {
                        assert(accs@[a] == before[a]);
                        assert(accs@[b] == before[b]);
                    }
                }
                assert forall|j2: int|
                    0 <= j2 < i + 1 implies exists|a: int|
                        0 <= a < accs@.len() && acc_key(#[trigger] accs@[a]) == point_key(
                            #[trigger] points@[j2],
                        ) by {
                    if j2 == i {
                        assert(acc_key(accs@[j as int]) == point_key(points@[j2]));
                    } else {
                        let a = choose|a: int|
                            0 <= a < before.len() && acc_key(#[trigger] before[a]) == point_key(
                                points@[j2],
                            );
                        if a < j {
                            assert(accs@[a] == before[a]);
                        } else {
                            assert(accs@[a + 1] == before[a]);
                        }
                    }
                }
            }
        }
        proof {
            assert forall|a: int| 0 <= a < accs@.len() implies acc_ok(
                #[trigger] accs@[a],
                next,
            ) by {
                if acc_key(accs@[a]) != k {
                    lemma_step_other(prev, *p, acc_key(accs@[a]));
                }
            }
        }
        i = i + 1;
    }
    assert(points@.take(points@.len() as int) =~= points@);
    build_summaries(accs, Ghost(points@))
}

proof fn lemma_group_missing_zero(ps: Seq<DataPoint>, k: (Seq<char>, Seq<char>))
    requires
        forall|j: int| 0 <= j < ps.len() ==> point_key(#[trigger] ps[j]) != k,
    ensures
        group_missing(ps, k) == 0,
    decreases ps.len(),
{
    if ps.len() > 0 {
        assert(point_key(ps[ps.len() - 1]) != k);
        lemma_group_missing_zero(ps.drop_last(), k);
    }
}

/// Turns the accumulated groups into summaries, one per group.
#[verifier::spinoff_prover]
fn build_summaries(accs: Vec<Acc>, Ghost(points): Ghost<Seq<DataPoint>>) -> (out: Vec<Summary>)
    requires
        forall|a: int, b: int|
            0 <= a < b < accs@.len() ==> pair_lt(acc_key(accs@[a]), acc_key(accs@[b])),
        forall|a: int| 0 <= a < accs@.len() ==> acc_ok(#[trigger] accs@[a], points),
        forall|j: int|
            0 <= j < points.len() ==> exists|a: int|
                0 <= a < accs@.len() && acc_key(#[trigger] accs@[a]) == point_key(
                    #[trigger] points[j],
                ),
    ensures
        is_grouped_summary(points, out@),
{
    let ghost all = accs@;
    let n0 = accs.len();
    assert(all.len() == n0);
    let mut rest = accs;
    let mut out: Vec<Summary> = Vec::new();
    let mut m: usize = 0;
    while rest.len() > 0
        invariant
            all.len() <= usize::MAX,
            m + rest@.len() == all.len(),
            rest@ == all.skip(m as int),
            forall|a: int, b: int|
                0 <= a < b < all.len() ==> pair_lt(acc_key(all[a]), acc_key(all[b])),
            forall|a: int| 0 <= a < all.len() ==> acc_ok(#[trigger] all[a], points),
            out@.len() == m,
            forall|a: int|
                0 <= a < out@.len() ==> {
                    let s = #[trigger] out@[a];
                    let e = all[a];
                    &&& summary_key(s) == acc_key(e)
                    &&& s.values@ == e.vals@
                    &&& s.count == s.values@.len()
                    &&& s.missing == e.missing
                    &&& s.min == (if s.values@.len() > 0 {
                        Some(s.values@[0])
                    } else {
                        None
                    })
                    &&& s.max == (if s.values@.len() > 0 {
                        Some(s.values@.last())
                    } else {
                        None
                    })
                },
        decreases rest@.len(),
    {
        let e = rest.remove(0);
        assert(rest@ =~= all.skip(m + 1));
        assert(e == all[m as int]);
        let n = e.vals.len();
        let (lo, hi) = if n > 0 {
            (Some(e.vals[0]), Some(e.vals[n - 1]))
        } else {
            (None, None)
        };
        let s = Summary { key: e.key, count: n, missing: e.missing, min: lo, max: hi, values: e.vals };
        out.push(s);
        m = m + 1;
    }
    proof {
        assert forall|a: int, b: int|
            0 <= a < b < out@.len() implies pair_lt(
            summary_key(out@[a]),
            summary_key(out@[b]),
        ) by {}
        assert forall|k: (Seq<char>, Seq<char>)|
            #[trigger] group_size(points, k) > 0 implies exists|a: int|
                0 <= a < out@.len() && summary_key(#[trigger] out@[a]) == k by {
            lemma_group_size_witness(points, k);
            let j = choose|j: int| 0 <= j < points.len() && point_key(#[trigger] points[j]) == k;
            let b = choose|b: int|
                0 <= b < all.len() && acc_key(#[trigger] all[b]) == point_key(points[j]);
            assert(summary_key(out@[b]) == k);
        }
    }
    out
}

impl Summary {
    /// Positions (in `values`) of the observations the median averages: the
    /// middle one for an odd count (given twice), the two middle ones for an
    /// even count; `None` for an empty group.
    pub fn median_positions(&self) -> (r: Option<(usize, usize)>)
        requires
            self.count == self.values@.len(),
        ensures
            self.count == 0 ==> r is None,
            self.count > 0 && self.count % 2 == 1 ==> r == Some(
                (self.count / 2, self.count / 2),
            ),
            self.count > 0 && self.count % 2 == 0 ==> r == Some(
                ((self.count / 2 - 1) as usize, self.count / 2),
            ),
    {
        let c = self.count;
        if c == 0 {
            None
        } else if c % 2 == 1 {
            Some((c / 2, c / 2))
        } else {
            Some((c / 2 - 1, c / 2))
        }
    }
}

/// Every summary's values are ascending and are exactly its group's finite
/// values (the same multiset); its count plus missing is the number of
/// points of its group.
pub proof fn law_summary_values_sorted_and_complete(points: Seq<DataPoint>, out: Seq<Summary>, a: int)
    requires
        is_grouped_summary(points, out),
        0 <= a < out.len(),
    ensures
        sorted_by_key(out[a].values@),
        out[a].values@.to_multiset() == group_values(points, summary_key(out[a])).to_multiset(),
        out[a].count + out[a].missing == group_size(points, summary_key(out[a])),
{
    let k = summary_key(out[a]);
    lemma_sort_by_value(group_values(points, k));
    lemma_group_size(points, k);
}

/// The number of points with key `k`.
pub open spec fn group_size(ps: Seq<DataPoint>, k: (Seq<char>, Seq<char>)) -> nat
    decreases ps.len(),
{
    if ps.len() == 0 {
        0
    } else if point_key(ps.last()) == k {
        group_size(ps.drop_last(), k) + 1
    } else {
        group_size(ps.drop_last(), k)
    }
}

proof fn lemma_group_size(ps: Seq<DataPoint>, k: (Seq<char>, Seq<char>))
    ensures
        group_values(ps, k).len() + group_missing(ps, k) == group_size(ps, k),
    decreases ps.len(),
{
    if ps.len() > 0 {
        lemma_group_size(ps.drop_last(), k);
    }
}

} // verus!

verus! {

proof fn lemma_group_values_finite(ps: Seq<DataPoint>, k: (Seq<char>, Seq<char>))
    ensures
        forall|i: int|
            0 <= i < group_values(ps, k).len() ==> is_finite_bits(#[trigger] group_values(ps, k)[i]),
    decreases ps.len(),
{
    if ps.len() > 0 {
        lemma_group_values_finite(ps.drop_last(), k);
        let r = group_values(ps.drop_last(), k);
        let p = ps.last();
        if point_key(p) == k && has_finite_value(p) {
            assert(group_values(ps, k) == r.push(p.value.unwrap()));
            assert forall|i: int| 0 <= i < r.len() + 1 implies is_finite_bits(
                #[trigger] r.push(p.value.unwrap())[i],
            ) by {
                if i < r.len() {
                    assert(r.push(p.value.unwrap())[i] == r[i]);
                }
            }
        } else {
            assert(group_values(ps, k) == r);
        }
    }
}

/// A summary's values ascend as real numbers, every one is finite, and its
/// `min` and `max` are the smallest and largest of them as real numbers.
pub proof fn law_summary_min_max_are_extremes(points: Seq<DataPoint>, out: Seq<Summary>, a: int)
    requires
        is_grouped_summary(points, out),
        0 <= a < out.len(),
    ensures
        forall|i: int| 0 <= i < out[a].values@.len() ==> is_finite_bits(#[trigger] out[a].values@[i]),
        forall|i: int, j: int|
            0 <= i <= j < out[a].values@.len() ==> f64_scaled_value(#[trigger] out[a].values@[i])
                <= f64_scaled_value(#[trigger] out[a].values@[j]),
        forall|i: int|
            0 <= i < out[a].values@.len() ==> (out[a].min matches Some(lo) && out[a].max matches Some(
                hi,
            ) && f64_scaled_value(lo) <= f64_scaled_value(#[trigger] out[a].values@[i])
                <= f64_scaled_value(hi)),
{
    broadcast use vstd::seq_lib::group_to_multiset_ensures;
    let s = out[a];
    let k = summary_key(s);
    let gv = group_values(points, k);
    let vs = s.values@;
    lemma_sort_by_value(gv);
    lemma_group_values_finite(points, k);
    assert forall|i: int| 0 <= i < vs.len() implies is_finite_bits(#[trigger] vs[i]) by {
        assert(vs.to_multiset().count(vs[i]) > 0);
        assert(gv.to_multiset().count(vs[i]) > 0);
        let j = choose|j: int| 0 <= j < gv.len() && gv[j] == vs[i];
        assert(is_finite_bits(gv[j]));
    }
    assert forall|i: int, j: int| 0 <= i <= j < vs.len() implies f64_scaled_value(#[trigger] vs[i])
        <= f64_scaled_value(#[trigger] vs[j]) by {
        assert(order_key(vs[i]) <= order_key(vs[j]));
        assert(is_finite_bits(vs[i]));
        assert(is_finite_bits(vs[j]));
        law_order_key_is_numeric_order(vs[j], vs[i]);
    }
    assert forall|i: int| 0 <= i < vs.len() implies (s.min matches Some(lo) && s.max matches Some(
        hi,
    ) && f64_scaled_value(lo) <= f64_scaled_value(#[trigger] vs[i]) <= f64_scaled_value(hi)) by {
        assert(f64_scaled_value(vs[0]) <= f64_scaled_value(vs[i]));
        assert(f64_scaled_value(vs[i]) <= f64_scaled_value(vs[vs.len() - 1]));
    }
}

} // verus!
