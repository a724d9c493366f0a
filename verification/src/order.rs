//! Orders used for grouping and sorting: the lexicographic order of texts
//! (the order of `String`), the numeric order of `f64` bit patterns, and a
//! stable insertion sort by that numeric order.

use vstd::prelude::*;
use vstd::arithmetic::power2::{pow2, lemma_pow2_unfold, lemma_pow2_pos, lemma_pow2_strictly_increases};

verus! {

/// Result of a three-way comparison.
#[derive(Debug, Clone, Copy, PartialEq, Eq, Structural)]
pub enum Order {
    Less,
    Equal,
    Greater,
}

/// `a < b` in the lexicographic order of code points, the order `String`
/// and `str` compare by (UTF-8 preserves it).
pub open spec fn seq_lt(a: Seq<char>, b: Seq<char>) -> bool
    decreases a.len(),
{
    if a.len() == 0 {
        b.len() > 0
    } else if b.len() == 0 {
        false
    } else if a[0] != b[0] {
        a[0] < b[0]
    } else {
        seq_lt(a.drop_first(), b.drop_first())
    }
}

pub proof fn lemma_seq_lt_irreflexive(a: Seq<char>)
    ensures
        !seq_lt(a, a),
    decreases a.len(),
{
    if a.len() > 0 {
        lemma_seq_lt_irreflexive(a.drop_first());
    }
}

pub proof fn lemma_seq_lt_total(a: Seq<char>, b: Seq<char>)
    ensures
        a == b || seq_lt(a, b) || seq_lt(b, a),
        !(seq_lt(a, b) && seq_lt(b, a)),
    decreases a.len(),
{
    if a.len() > 0 && b.len() > 0 && a[0] == b[0] {
        lemma_seq_lt_total(a.drop_first(), b.drop_first());
        if a.drop_first() == b.drop_first() {
            assert(a =~= seq![a[0]] + a.drop_first());
            assert(b =~= seq![b[0]] + b.drop_first());
        }
    }
    if a.len() == 0 && b.len() == 0 {
        assert(a =~= b);
    }
}

pub proof fn lemma_seq_lt_transitive(a: Seq<char>, b: Seq<char>, c: Seq<char>)
    requires
        seq_lt(a, b),
        seq_lt(b, c),
    ensures
        seq_lt(a, c),
    decreases a.len(),
{
    if a.len() > 0 && b.len() > 0 && c.len() > 0 && a[0] == b[0] && b[0] == c[0] {
        lemma_seq_lt_transitive(a.drop_first(), b.drop_first(), c.drop_first());
    }
}

proof fn lemma_seq_lt_common_prefix(a: Seq<char>, b: Seq<char>, i: int)
    requires
        0 <= i <= a.len(),
        i <= b.len(),
        forall|k: int| 0 <= k < i ==> a[k] == b[k],
    ensures
        seq_lt(a, b) == seq_lt(a.skip(i), b.skip(i)),
    decreases i,
{
    if i > 0 {
        assert(a[0] == b[0]);
        lemma_seq_lt_common_prefix(a.drop_first(), b.drop_first(), i - 1);
        assert(a.drop_first().skip(i - 1) =~= a.skip(i));
        assert(b.drop_first().skip(i - 1) =~= b.skip(i));
    } else {
        assert(a.skip(0) =~= a);
        assert(b.skip(0) =~= b);
    }
}

/// Three-way lexicographic comparison of two texts.
pub fn lex_compare(a: &[char], b: &[char]) -> (r: Order)
    ensures
        (r == Order::Less) == seq_lt(a@, b@),
        (r == Order::Equal) == (a@ == b@),
        (r == Order::Greater) == seq_lt(b@, a@),
{
    proof {
        lemma_seq_lt_total(a@, b@);
    }
    let mut i: usize = 0;
    while i < a.len() && i < b.len() && a[i] == b[i]
        invariant
            i <= a.len(),
            i <= b.len(),
            forall|k: int| 0 <= k < i ==> a@[k] == b@[k],
        decreases a.len() - i,
    {
        i = i + 1;
    }
    proof {
        lemma_seq_lt_common_prefix(a@, b@, i as int);
        lemma_seq_lt_common_prefix(b@, a@, i as int);
    }
    if i == a.len() && i == b.len() {
        assert(a@ =~= b@);
        Order::Equal
    } else if i == a.len() {
        assert(a@ != b@);
        Order::Less
    } else if i == b.len() {
        assert(a@ != b@);
        Order::Greater
    } else if a[i] < b[i] {
        assert(a@[i as int] != b@[i as int]);
        Order::Less
    } else {
        assert(a@[i as int] != b@[i as int]);
        Order::Greater
    }
}

/// Lexicographic order of pairs of texts (the derived order of a struct of
/// two `String` fields).
pub open spec fn pair_lt(a: (Seq<char>, Seq<char>), b: (Seq<char>, Seq<char>)) -> bool {
    seq_lt(a.0, b.0) || (a.0 == b.0 && seq_lt(a.1, b.1))
}

pub proof fn lemma_pair_lt_facts()
    ensures
        forall|a: (Seq<char>, Seq<char>)| !#[trigger] pair_lt(a, a),
        forall|a: (Seq<char>, Seq<char>), b: (Seq<char>, Seq<char>)|
            a == b || #[trigger] pair_lt(a, b) || #[trigger] pair_lt(b, a),
        forall|a: (Seq<char>, Seq<char>), b: (Seq<char>, Seq<char>)|
            !(#[trigger] pair_lt(a, b) && #[trigger] pair_lt(b, a)),
        forall|a: (Seq<char>, Seq<char>), b: (Seq<char>, Seq<char>), c: (Seq<char>, Seq<char>)|
            #[trigger] pair_lt(a, b) && #[trigger] pair_lt(b, c) ==> pair_lt(a, c),
{
    assert forall|a: (Seq<char>, Seq<char>)| !#[trigger] pair_lt(a, a) by {
        lemma_seq_lt_irreflexive(a.0);
        lemma_seq_lt_irreflexive(a.1);
    }
    assert forall|a: (Seq<char>, Seq<char>), b: (Seq<char>, Seq<char>)|
        a == b || #[trigger] pair_lt(a, b) || #[trigger] pair_lt(b, a) by {
        lemma_seq_lt_total(a.0, b.0);
        lemma_seq_lt_total(a.1, b.1);
    }
    assert forall|a: (Seq<char>, Seq<char>), b: (Seq<char>, Seq<char>)|
        !(#[trigger] pair_lt(a, b) && #[trigger] pair_lt(b, a)) by {
        lemma_seq_lt_total(a.0, b.0);
        lemma_seq_lt_total(a.1, b.1);
        lemma_seq_lt_irreflexive(a.0);
    }
    assert forall|a: (Seq<char>, Seq<char>), b: (Seq<char>, Seq<char>), c: (Seq<char>, Seq<char>)|
        #[trigger] pair_lt(a, b) && #[trigger] pair_lt(b, c) implies pair_lt(a, c) by {
        if seq_lt(a.0, b.0) && seq_lt(b.0, c.0) {
            lemma_seq_lt_transitive(a.0, b.0, c.0);
        }
        if seq_lt(a.1, b.1) && seq_lt(b.1, c.1) {
            lemma_seq_lt_transitive(a.1, b.1, c.1);
        }
    }
}

/// Three-way comparison of pairs of texts.
pub fn pair_compare(a0: &[char], a1: &[char], b0: &[char], b1: &[char]) -> (r: Order)
    ensures
        (r == Order::Less) == pair_lt((a0@, a1@), (b0@, b1@)),
        (r == Order::Equal) == ((a0@, a1@) == (b0@, b1@)),
        (r == Order::Greater) == pair_lt((b0@, b1@), (a0@, a1@)),
{
    proof {
        lemma_seq_lt_total(a0@, b0@);
        lemma_seq_lt_total(a1@, b1@);
        lemma_seq_lt_irreflexive(a0@);
    }
    match lex_compare(a0, b0) {
        Order::Less => Order::Less,
        Order::Greater => Order::Greater,
        Order::Equal => lex_compare(a1, b1),
    }
}

// ------------------------------------------------------------------
// f64 bit patterns
// ------------------------------------------------------------------

/// Whether the `f64` with bit pattern `b` is finite (not NaN, not ±inf):
/// its exponent field is not all ones.
pub open spec fn is_finite_bits(b: u64) -> bool {
    (b >> 52u64) & 0x7FFu64 != 0x7FFu64
}

/// Position of a non-NaN `f64` on the number line: the magnitude bits,
/// negated for negative numbers. For non-NaN floats `x < y` exactly when
/// `order_key(x) < order_key(y)` (`-0.0` and `0.0` share key 0).
pub open spec fn order_key(b: u64) -> int {
    let m = (b & 0x7FFF_FFFF_FFFF_FFFFu64) as int;
    if b >> 63u64 == 1 {
        -m
    } else {
        m
    }
}

/// `f64::is_finite` on a bit pattern.
pub fn is_finite(b: u64) -> (r: bool)
    ensures
        r == is_finite_bits(b),
{
    (b >> 52) & 0x7FF != 0x7FF
}

/// `order_key` of a bit pattern.
pub fn key_of(b: u64) -> (k: i128)
    ensures
        k as int == order_key(b),
{
    let m = (b & 0x7FFF_FFFF_FFFF_FFFF) as i128;
    if b >> 63 == 1 {
        -m
    } else {
        m
    }
}

// ------------------------------------------------------------------
// Stable sort by numeric value
// ------------------------------------------------------------------

/// Inserts `x` after the last element of `s` whose key is at most `x`'s,
/// scanning from the end.
pub open spec fn insert_by_key(s: Seq<u64>, x: u64) -> Seq<u64>
    decreases s.len(),
{
    if s.len() == 0 {
        seq![x]
    } else if order_key(s.last()) <= order_key(x) {
        s.push(x)
    } else {
        insert_by_key(s.drop_last(), x).push(s.last())
    }
}

/// Stable sort by numeric value: equal values keep their input order.
pub open spec fn sort_by_value(s: Seq<u64>) -> Seq<u64>
    decreases s.len(),
{
    if s.len() == 0 {
        s
    } else {
        insert_by_key(sort_by_value(s.drop_last()), s.last())
    }
}

/// Ascending by key.
pub open spec fn sorted_by_key(s: Seq<u64>) -> bool {
    forall|i: int, j: int| 0 <= i <= j < s.len() ==> order_key(s[i]) <= order_key(s[j])
}

proof fn lemma_insert_at(s: Seq<u64>, x: u64, j: int)
    requires
        0 <= j <= s.len(),
        forall|k: int| j <= k < s.len() ==> order_key(#[trigger] s[k]) > order_key(x),
        j == 0 || order_key(s[j - 1]) <= order_key(x),
    ensures
        insert_by_key(s, x) == s.insert(j, x),
    decreases s.len(),
{
    if s.len() == 0 {
        assert(s.insert(j, x) =~= seq![x]);
    } else if order_key(s.last()) <= order_key(x) {
        assert(j == s.len());
        assert(s.insert(j, x) =~= s.push(x));
    } else {
        assert(j < s.len());
        lemma_insert_at(s.drop_last(), x, j);
        assert(s.drop_last().insert(j, x).push(s.last()) =~= s.insert(j, x));
    }
}

proof fn lemma_insert_sorted(s: Seq<u64>, x: u64)
    requires
        sorted_by_key(s),
    ensures
        sorted_by_key(insert_by_key(s, x)),
        insert_by_key(s, x).to_multiset() == s.to_multiset().insert(x),
        insert_by_key(s, x).len() == s.len() + 1,
    decreases s.len(),
{
    broadcast use vstd::seq_lib::group_to_multiset_ensures;
    if s.len() == 0 {
        assert(seq![x] =~= Seq::<u64>::empty().push(x));
    } else if order_key(s.last()) <= order_key(x) {
    } else {
        let t = s.drop_last();
        assert(sorted_by_key(t));
        lemma_insert_sorted(t, x);
        let r = insert_by_key(t, x);
        assert(s =~= t.push(s.last()));
        // every element of r is either x or an element of t: both have key <= last's
        assert forall|i: int| 0 <= i < r.len() implies order_key(#[trigger] r[i]) <= order_key(
            s.last(),
        ) by {
            assert(r.to_multiset().count(r[i]) > 0);
            if r[i] != x {
                assert(t.to_multiset().count(r[i]) > 0);
                let k = choose|k: int| 0 <= k < t.len() && t[k] == r[i];
                assert(order_key(t[k]) <= order_key(s.last()));
            }
        }
    }
}

pub proof fn lemma_sort_by_value(s: Seq<u64>)
    ensures
        sorted_by_key(sort_by_value(s)),
        sort_by_value(s).to_multiset() == s.to_multiset(),
        sort_by_value(s).len() == s.len(),
    decreases s.len(),
{
    broadcast use vstd::seq_lib::group_to_multiset_ensures;
    if s.len() > 0 {
        lemma_sort_by_value(s.drop_last());
        lemma_insert_sorted(sort_by_value(s.drop_last()), s.last());
        assert(s =~= s.drop_last().push(s.last()));
    }
}

/// Inserts `x` into `v` where `insert_by_key` puts it.
pub fn insert_value(v: &mut Vec<u64>, x: u64)
    ensures
        final(v)@ == insert_by_key(old(v)@, x),
{
    let kx = key_of(x);
    let mut j: usize = v.len();
    while j > 0 && key_of(v[j - 1]) > kx
        invariant
            j <= v@.len(),
            v@ == old(v)@,
            kx as int == order_key(x),
            forall|k: int| j <= k < v@.len() ==> order_key(#[trigger] v@[k]) > order_key(x),
        decreases j,
    {
        j = j - 1;
    }
    proof {
        lemma_insert_at(v@, x, j as int);
    }
    v.insert(j, x);
}

} // verus!

verus! {

// ------------------------------------------------------------------
// The real value of an f64 bit pattern
// ------------------------------------------------------------------

/// Biased exponent field (bits 52..62) of an `f64` bit pattern.
pub open spec fn f64_exponent(b: u64) -> nat {
    ((b >> 52u64) & 0x7FFu64) as nat
}

/// Fraction field (bits 0..51) of an `f64` bit pattern.
pub open spec fn f64_fraction(b: u64) -> nat {
    (b & 0xF_FFFF_FFFF_FFFFu64) as nat
}

/// Magnitude of a finite `f64` times `2^1074` (an integer): a subnormal
/// (exponent 0) is its fraction `f`, a normal number `(2^52 + f) * 2^(e-1)`.
pub open spec fn f64_scaled_magnitude(b: u64) -> int {
    let e = f64_exponent(b);
    let f = f64_fraction(b);
    if e == 0 {
        f as int
    } else {
        ((0x10_0000_0000_0000 + f) * pow2((e - 1) as nat)) as int
    }
}

/// The real value of a finite `f64` bit pattern, times `2^1074`: the
/// magnitude, negated when the sign bit is set.
pub open spec fn f64_scaled_value(b: u64) -> int {
    if b >> 63u64 == 1 {
        -f64_scaled_magnitude(b)
    } else {
        f64_scaled_magnitude(b)
    }
}

proof fn lemma_f64_fields(b: u64)
    ensures
        (b & 0x7FFF_FFFF_FFFF_FFFFu64) as int == f64_exponent(b) * 0x10_0000_0000_0000
            + f64_fraction(b),
        f64_exponent(b) <= 0x7FF,
        f64_fraction(b) < 0x10_0000_0000_0000,
        b >> 63u64 == 0 || b >> 63u64 == 1,
{
    assert((b & 0x7FFF_FFFF_FFFF_FFFFu64) == ((b >> 52u64) & 0x7FFu64) * 0x10_0000_0000_0000u64
        + (b & 0xF_FFFF_FFFF_FFFFu64)) by (bit_vector);
    assert((b >> 52u64) & 0x7FFu64 <= 0x7FFu64) by (bit_vector);
    assert((b & 0xF_FFFF_FFFF_FFFFu64) < 0x10_0000_0000_0000u64) by (bit_vector);
    assert(b >> 63u64 == 0 || b >> 63u64 == 1) by (bit_vector);
}

/// The magnitude grows strictly with the exponent-and-fraction bits.
proof fn lemma_magnitude_strictly_increasing(e1: nat, f1: nat, e2: nat, f2: nat)
    requires
        f1 < 0x10_0000_0000_0000,
        f2 < 0x10_0000_0000_0000,
        e1 * 0x10_0000_0000_0000 + f1 < e2 * 0x10_0000_0000_0000 + f2,
    ensures
        (if e1 == 0 {
            f1 as int
        } else {
            ((0x10_0000_0000_0000 + f1) * pow2((e1 - 1) as nat)) as int
        }) < (if e2 == 0 {
            f2 as int
        } else {
            ((0x10_0000_0000_0000 + f2) * pow2((e2 - 1) as nat)) as int
        }),
{
    if e1 == e2 {
        assert(f1 < f2);
        if e1 > 0 {
            let p = pow2((e1 - 1) as nat);
            lemma_pow2_pos((e1 - 1) as nat);
            assert((0x10_0000_0000_0000 + f1) * p < (0x10_0000_0000_0000 + f2) * p)
                by (nonlinear_arith)
                requires
                    f1 < f2,
                    p > 0,
            ;
        }
    } else {
        assert(e1 < e2) by (nonlinear_arith)
            requires
                e1 * 0x10_0000_0000_0000 + f1 < e2 * 0x10_0000_0000_0000 + f2,
                f1 < 0x10_0000_0000_0000,
                f2 < 0x10_0000_0000_0000,
                e1 != e2,
        ;
        let q = pow2((e2 - 1) as nat);
        lemma_pow2_pos((e2 - 1) as nat);
        assert((0x10_0000_0000_0000 + f2) * q >= 0x10_0000_0000_0000 * q) by (nonlinear_arith)
            requires
                q > 0,
        ;
        if e1 == 0 {
            assert(0x10_0000_0000_0000 * q >= 0x10_0000_0000_0000) by (nonlinear_arith)
                requires
                    q >= 1,
            ;
        } else {
            let p = pow2((e1 - 1) as nat);
            lemma_pow2_pos((e1 - 1) as nat);
            if e1 - 1 < e2 - 1 {
                lemma_pow2_strictly_increases((e1 - 1) as nat, (e2 - 1) as nat);
            }
            lemma_pow2_unfold(e1);
            if e1 < e2 - 1 {
                lemma_pow2_strictly_increases(e1, (e2 - 1) as nat);
            }
            // (2^52 + f1) * p < 2^53 * p = 2^52 * pow2(e1) <= 2^52 * q
            assert(pow2(e1) <= q);
            assert((0x10_0000_0000_0000 + f1) * p < 0x10_0000_0000_0000 * (2 * p))
                by (nonlinear_arith)
                requires
                    f1 < 0x10_0000_0000_0000,
                    p > 0,
            ;
            assert(0x10_0000_0000_0000 * (2 * p) <= 0x10_0000_0000_0000 * q) by (nonlinear_arith)
                requires
                    2 * p <= q,
            ;
        }
    }
}

proof fn lemma_magnitude_zero(b: u64)
    ensures
        f64_scaled_magnitude(b) >= 0,
        (f64_scaled_magnitude(b) == 0) == ((b & 0x7FFF_FFFF_FFFF_FFFFu64) == 0),
{
    lemma_f64_fields(b);
    let e = f64_exponent(b);
    if e > 0 {
        lemma_pow2_pos((e - 1) as nat);
        let p = pow2((e - 1) as nat);
        assert((0x10_0000_0000_0000 + f64_fraction(b)) * p >= 1) by (nonlinear_arith)
            requires
                p >= 1,
        ;
        assert(e * 0x10_0000_0000_0000 >= 1) by (nonlinear_arith)
            requires
                e >= 1,
        ;
    }
}

/// The order of `order_key` is the order of the numbers: for finite `f64`
/// bit patterns `x` and `y`, `order_key(x) < order_key(y)` exactly when
/// `x < y` as real numbers, and the keys are equal exactly when the numbers
/// are (`-0.0` and `0.0` both being zero).
pub proof fn law_order_key_is_numeric_order(x: u64, y: u64)
    requires
        is_finite_bits(x),
        is_finite_bits(y),
    ensures
        (order_key(x) < order_key(y)) == (f64_scaled_value(x) < f64_scaled_value(y)),
        (order_key(x) == order_key(y)) == (f64_scaled_value(x) == f64_scaled_value(y)),
{
    lemma_f64_fields(x);
    lemma_f64_fields(y);
    lemma_magnitude_zero(x);
    lemma_magnitude_zero(y);
    let mx = (x & 0x7FFF_FFFF_FFFF_FFFFu64) as int;
    let my = (y & 0x7FFF_FFFF_FFFF_FFFFu64) as int;
    let ax = f64_scaled_magnitude(x);
    let ay = f64_scaled_magnitude(y);
    if mx < my {
        lemma_magnitude_strictly_increasing(f64_exponent(x), f64_fraction(x), f64_exponent(y), f64_fraction(y));
    } else if my < mx {
        lemma_magnitude_strictly_increasing(f64_exponent(y), f64_fraction(y), f64_exponent(x), f64_fraction(x));
    } else {
        assert(f64_exponent(x) == f64_exponent(y) && f64_fraction(x) == f64_fraction(y)) by (nonlinear_arith)
            requires
                f64_exponent(x) * 0x10_0000_0000_0000 + f64_fraction(x) == f64_exponent(y)
                    * 0x10_0000_0000_0000 + f64_fraction(y),
                f64_fraction(x) < 0x10_0000_0000_0000,
                f64_fraction(y) < 0x10_0000_0000_0000,
        ;
    }
    assert((mx < my) == (ax < ay));
    assert((mx == my) == (ax == ay));
}

} // verus!
