use vstd::prelude::*;
use vstd::relations::{sorted_by, total_ordering};
use vstd::seq_lib::lemma_sorted_unique;

verus! {

/// The sum of a sequence of scores.
pub open spec fn sum(s: Seq<i64>) -> int
    decreases s.len(),
{
    if s.len() == 0 {
        0
    } else {
        sum(s.drop_last()) + s.last()
    }
}

/// The quotient rounded toward zero.
pub open spec fn div_toward_zero(a: int, b: int) -> int
    recommends
        b > 0,
{
    if a >= 0 {
        a / b
    } else {
        -((-a) / b)
    }
}

/// The arithmetic mean of the scores, rounded toward zero.
pub open spec fn mean(s: Seq<i64>) -> int
    recommends
        s.len() > 0,
{
    div_toward_zero(sum(s), s.len() as int)
}

/// The order of scores.
pub open spec fn score_leq() -> spec_fn(i64, i64) -> bool {
    |a: i64, b: i64| a <= b
}

/// The scores in ascending order, equal scores kept as often as they occur.
pub open spec fn ascending(s: Seq<i64>) -> Seq<i64> {
    s.sort_by(score_leq())
}

/// The median: the middle score in ascending order, or the mean of the two
/// middle scores, rounded toward zero, where their number is even.
pub open spec fn median(s: Seq<i64>) -> int
    recommends
        s.len() > 0,
{
    let t = ascending(s);
    let n = s.len() as int;
    if n % 2 == 1 {
        t[n / 2] as int
    } else {
        div_toward_zero(t[n / 2 - 1] + t[n / 2], 2)
    }
}

pub proof fn lemma_score_leq_total()
    ensures
        total_ordering(score_leq()),
{
}

/// `ascending` permutes: it keeps the length and every score.
pub proof fn lemma_ascending_permutes(s: Seq<i64>)
    ensures
        ascending(s).len() == s.len(),
        ascending(s).to_multiset() == s.to_multiset(),
        sorted_by(ascending(s), score_leq()),
        forall|k: int| 0 <= k < s.len() ==> s.contains(#[trigger] ascending(s)[k]),
{
    lemma_score_leq_total();
    s.lemma_sort_by_ensures(score_leq());
    vstd::seq_lib::to_multiset_len(s);
    vstd::seq_lib::to_multiset_len(ascending(s));
    assert forall|k: int| 0 <= k < s.len() implies s.contains(#[trigger] ascending(s)[k]) by {
        assert(ascending(s).contains(ascending(s)[k]));
    }
}

/// The sum lies between the smallest and the largest score, each taken as
/// often as there are scores.
pub proof fn lemma_sum_bounds(s: Seq<i64>, lo: int, hi: int)
    requires
        forall|k: int| 0 <= k < s.len() ==> lo <= #[trigger] s[k] <= hi,
    ensures
        lo * s.len() <= sum(s) <= hi * s.len(),
    decreases s.len(),
{
    if s.len() > 0 {
        lemma_sum_bounds(s.drop_last(), lo, hi);
        assert(lo * s.len() == lo * (s.len() - 1) + lo) by (nonlinear_arith);
        assert(hi * s.len() == hi * (s.len() - 1) + hi) by (nonlinear_arith);
    }
}

/// A quotient rounded toward zero stays between bounds that hold of the
/// dividend per unit of the divisor.
pub proof fn lemma_div_toward_zero_bounds(a: int, n: int, lo: int, hi: int)
    requires
        n > 0,
        lo <= 0 <= hi,
        lo * n <= a <= hi * n,
    ensures
        lo <= div_toward_zero(a, n) <= hi,
{
    if a >= 0 {
        assert(a / n <= hi && a / n >= 0) by (nonlinear_arith)
            requires
                n > 0,
                0 <= a <= hi * n,
        ;
    } else {
        assert((-lo) * n == -(lo * n)) by (nonlinear_arith);
        assert((-a) / n <= -lo && (-a) / n >= 0) by (nonlinear_arith)
            requires
                n > 0,
                0 <= -a <= (-lo) * n,
        ;
    }
}

/// Divides toward zero.
pub fn div_round_zero(a: i128, b: i128) -> (q: i128)
    requires
        b > 0,
        a > i128::MIN,
    ensures
        q == div_toward_zero(a as int, b as int),
{
    if a >= 0 {
        let ua: u128 = a as u128;
        let ub: u128 = b as u128;
        let uq: u128 = ua / ub;
        assert(uq <= ua) by (nonlinear_arith)
            requires
                uq == ua / ub,
                ub > 0,
        ;
        uq as i128
    } else {
        let ua: u128 = (-a) as u128;
        let ub: u128 = b as u128;
        let uq: u128 = ua / ub;
        assert(uq <= ua) by (nonlinear_arith)
            requires
                uq == ua / ub,
                ub > 0,
        ;
        -(uq as i128)
    }
}

/// Adds up the scores.
pub fn sum_scores(v: &Vec<i64>) -> (total: i128)
    ensures
        total == sum(v@),
        i64::MIN * v.len() <= total <= i64::MAX * v.len(),
{
    let mut acc: i128 = 0;
    let mut k: usize = 0;
    while k < v.len()
        invariant
            k <= v.len(),
            acc == sum(v@.subrange(0, k as int)),
            -0x8000_0000_0000_0000 * k <= acc <= 0x7fff_ffff_ffff_ffff * k,
        decreases v.len() - k,
    {
        proof {
            assert(v@.subrange(0, k + 1).drop_last() =~= v@.subrange(0, k as int));
        }
        acc = acc + v[k] as i128;
        k = k + 1;
    }
    proof {
        assert(v@.subrange(0, v.len() as int) =~= v@);
    }
    acc
}

/// The mean of the scores, rounded toward zero.
pub fn mean_scores(v: &Vec<i64>) -> (m: i64)
    requires
        v.len() > 0,
    ensures
        m == mean(v@),
{
    let total: i128 = sum_scores(v);
    let n: i128 = v.len() as i128;
    proof {
        lemma_div_toward_zero_bounds(total as int, n as int, i64::MIN as int, i64::MAX as int);
    }
    let q: i128 = div_round_zero(total, n);
    q as i64
}

/// Sorts the scores with `sort_unstable` of std's slices, which is documented
/// to leave the slice in ascending order; a sort keeps every element as often
/// as it occurred. Neither is proved here.
#[verifier::external_body]
fn sort_scores(v: &mut Vec<i64>)
    ensures
        final(v)@.to_multiset() == old(v)@.to_multiset(),
        sorted_by(final(v)@, score_leq()),
{
    v.sort_unstable();
}

/// Whether the scores stand in ascending order.
pub open spec fn ordered(s: Seq<i64>) -> bool {
    forall|i: int, j: int| 0 <= i <= j < s.len() ==> s[i] <= s[j]
}

/// Scores in ascending order that are the scores of `s` are `ascending(s)`.
pub proof fn lemma_ordered_is_ascending(t: Seq<i64>, s: Seq<i64>)
    requires
        ordered(t),
        t.to_multiset() == s.to_multiset(),
    ensures
        t == ascending(s),
{
    lemma_ascending_permutes(s);
    lemma_score_leq_total();
    assert(sorted_by(t, score_leq()));
    lemma_sorted_unique(t, ascending(s), score_leq());
}

/// The median of scores that stand in ascending order.
pub fn median_sorted(v: &Vec<i64>) -> (m: i64)
    requires
        v.len() > 0,
        ordered(v@),
    ensures
        m == median(v@),
        forall|s: Seq<i64>| s.to_multiset() == v@.to_multiset() ==> m == #[trigger] median(s),
{
    proof {
        lemma_ordered_is_ascending(v@, v@);
        assert forall|s: Seq<i64>| s.to_multiset() == v@.to_multiset() implies s.len() == v@.len()
            && v@ == #[trigger] ascending(s) by {
            lemma_ordered_is_ascending(v@, s);
            lemma_ascending_permutes(s);
        }
    }
    let n: usize = v.len();
    if n % 2 == 1 {
        v[n / 2]
    } else {
        let a: i128 = v[n / 2 - 1] as i128;
        let b: i128 = v[n / 2] as i128;
        let q: i128 = div_round_zero(a + b, 2);
        q as i64
    }
}

/// The median of the scores, by sorting them.
pub fn median_scores(v: Vec<i64>) -> (m: i64)
    requires
        v.len() > 0,
    ensures
        m == median(v@),
{
    let ghost orig = v@;
    let mut v = v;
    sort_scores(&mut v);
    assert(ordered(v@)) by {
        assert forall|i: int, j: int| 0 <= i <= j < v@.len() implies v@[i] <= v@[j] by {
            if i < j {
                assert(score_leq()(v@[i], v@[j]));
            }
        }
    }
    proof {
        vstd::seq_lib::to_multiset_len(v@);
        vstd::seq_lib::to_multiset_len(orig);
    }
    median_sorted(&v)
}

/// The first place of ascending scores whose score is not less than `x`.
pub fn lower_bound(v: &Vec<i64>, x: i64) -> (p: usize)
    requires
        ordered(v@),
    ensures
        p <= v.len(),
        forall|k: int| 0 <= k < p ==> v@[k] < x,
        forall|k: int| p <= k < v.len() ==> v@[k] >= x,
{
    let mut lo: usize = 0;
    let mut hi: usize = v.len();
    while lo < hi
        invariant
            lo <= hi <= v.len(),
            ordered(v@),
            forall|k: int| 0 <= k < lo ==> v@[k] < x,
            forall|k: int| hi <= k < v.len() ==> v@[k] >= x,
        decreases hi - lo,
    {
        let mid: usize = lo + (hi - lo) / 2;
        if v[mid] < x {
            lo = mid + 1;
        } else {
            hi = mid;
        }
    }
    lo
}

/// Puts a score into ascending scores, at its place.
pub fn insert_sorted(v: &mut Vec<i64>, x: i64)
    requires
        ordered(old(v)@),
    ensures
        ordered(final(v)@),
        final(v)@.to_multiset() == old(v)@.to_multiset().insert(x),
        final(v)@.len() == old(v)@.len() + 1,
{
    let p: usize = lower_bound(v, x);
    v.insert(p, x);
    proof {
        vstd::seq_lib::to_multiset_insert(old(v)@, p as int, x);
    }
}

/// Takes one score equal to `x` out of ascending scores.
pub fn remove_sorted(v: &mut Vec<i64>, x: i64)
    requires
        ordered(old(v)@),
        old(v)@.contains(x),
    ensures
        ordered(final(v)@),
        final(v)@.to_multiset() == old(v)@.to_multiset().remove(x),
        final(v)@.len() == old(v)@.len() - 1,
{
    let p: usize = lower_bound(v, x);
    proof {
        let k = choose|k: int| 0 <= k < v@.len() && v@[k] == x;
        assert(k >= p);
        assert(v@[p as int] <= v@[k]);
    }
    let taken: i64 = v.remove(p);
    proof {
        vstd::seq_lib::to_multiset_remove(old(v)@, p as int);
    }
}

/// Without its first score a sequence adds up to that much less.
pub proof fn lemma_sum_drop_first(s: Seq<i64>)
    requires
        s.len() > 0,
    ensures
        sum(s.drop_first()) == sum(s) - s[0],
    decreases s.len(),
{
    if s.len() == 1 {
        assert(s.drop_first() =~= Seq::<i64>::empty());
        assert(s.drop_last() =~= Seq::<i64>::empty());
    } else {
        lemma_sum_drop_first(s.drop_last());
        assert(s.drop_first().drop_last() =~= s.drop_last().drop_first());
    }
}

/// Scores that are all `v` add up to `v` times their number.
pub proof fn lemma_sum_constant(s: Seq<i64>, v: i64)
    requires
        forall|k: int| 0 <= k < s.len() ==> #[trigger] s[k] == v,
    ensures
        sum(s) == v * s.len(),
    decreases s.len(),
{
    if s.len() > 0 {
        lemma_sum_constant(s.drop_last(), v);
        assert(v * s.len() == v * (s.len() - 1) + v) by (nonlinear_arith);
    }
}

/// Mean and median of scores that are all `v` are `v`.
pub proof fn lemma_constant_mean_median(s: Seq<i64>, v: i64)
    requires
        s.len() > 0,
        forall|k: int| 0 <= k < s.len() ==> #[trigger] s[k] == v,
    ensures
        mean(s) == v,
        median(s) == v,
{
    let n = s.len() as int;
    lemma_sum_constant(s, v);
    if v >= 0 {
        assert((v * n) / n == v) by (nonlinear_arith)
            requires
                n > 0,
        ;
        assert(v * n >= 0) by (nonlinear_arith)
            requires
                n > 0,
                v >= 0,
        ;
    } else {
        assert((-(v * n)) / n == -v) by (nonlinear_arith)
            requires
                n > 0,
        ;
        assert(v * n < 0) by (nonlinear_arith)
            requires
                n > 0,
                v < 0,
        ;
    }
    lemma_ascending_permutes(s);
    let t = ascending(s);
    assert forall|k: int| 0 <= k < n implies #[trigger] t[k] == v by {
        assert(s.contains(t[k]));
    }
    if n % 2 == 0 {
        assert(t[n / 2 - 1] == v);
        assert(t[n / 2] == v);
    } else {
        assert(t[n / 2] == v);
    }
}

} // verus!
