use vstd::prelude::*;
use vstd::seq_lib::{to_multiset_contains, to_multiset_len, to_multiset_remove};
use crate::norm::{
    deviations, deviations_fit, flat, lemma_flat_rescaled, mad, rescaled, rescaled_columns,
    z_factor, z_refusal,
};
use crate::stats::{ascending, div_toward_zero, lemma_ascending_permutes, median, sum};

verus! {

/// The values of `f` at the members of a sequence, added up.
pub open spec fn sum_of(s: Seq<int>, f: spec_fn(int) -> int) -> int
    decreases s.len(),
{
    if s.len() == 0 {
        0
    } else {
        sum_of(s.drop_last(), f) + f(s.last())
    }
}

/// Without one member a sequence adds up to that member's value less.
pub proof fn lemma_sum_of_remove(s: Seq<int>, k: int, f: spec_fn(int) -> int)
    requires
        0 <= k < s.len(),
    ensures
        sum_of(s.remove(k), f) == sum_of(s, f) - f(s[k]),
    decreases s.len(),
{
    if k == s.len() - 1 {
        assert(s.remove(k) =~= s.drop_last());
    } else {
        lemma_sum_of_remove(s.drop_last(), k, f);
        assert(s.remove(k).drop_last() =~= s.drop_last().remove(k));
        assert(s.remove(k).last() == s.last());
    }
}

/// The order of the members does not change what they add up to.
pub proof fn lemma_sum_of_permutation(s: Seq<int>, t: Seq<int>, f: spec_fn(int) -> int)
    requires
        s.to_multiset() == t.to_multiset(),
    ensures
        sum_of(s, f) == sum_of(t, f),
    decreases s.len(),
{
    to_multiset_len(s);
    to_multiset_len(t);
    if s.len() > 0 {
        let x = s.last();
        assert(s[s.len() - 1] == x);
        assert(s.contains(x));
        to_multiset_contains(s, x);
        to_multiset_contains(t, x);
        let k = t.index_of(x);
        assert(0 <= k < t.len() && t[k] == x);
        to_multiset_remove(t, k);
        to_multiset_remove(s, s.len() - 1);
        assert(s.remove(s.len() - 1) =~= s.drop_last());
        lemma_sum_of_permutation(s.drop_last(), t.remove(k), f);
        lemma_sum_of_remove(t, k, f);
    }
}

/// The scores as numbers.
pub open spec fn numbers(s: Seq<i64>) -> Seq<int> {
    Seq::new(s.len(), |i: int| s[i] as int)
}

/// Each score mirrored at `m`.
pub open spec fn mirrored(s: Seq<i64>, m: int) -> Seq<int> {
    Seq::new(s.len(), |i: int| 2 * m - s[i])
}

/// Whether the scores lie symmetrically round `m`: mirrored at `m` they are
/// the same scores, each as often as before.
pub open spec fn symmetric(s: Seq<i64>, m: int) -> bool {
    mirrored(s, m).to_multiset() == numbers(s).to_multiset()
}

/// The robust z-score of the number `x`, for the median `m` and the median
/// absolute deviation `spread`.
pub open spec fn z_of(m: int, spread: int) -> spec_fn(int) -> int {
    |x: int| div_toward_zero((x - m) * z_factor(), spread)
}

/// A score and its mirror image have opposite z-scores.
pub proof fn lemma_z_mirror(x: int, m: int, spread: int)
    requires
        spread > 0,
    ensures
        z_of(m, spread)(2 * m - x) == -z_of(m, spread)(x),
{
    assert((2 * m - x - m) * z_factor() == -((x - m) * z_factor())) by (nonlinear_arith);
}

proof fn lemma_mirrored_sum(s: Seq<i64>, m: int, spread: int)
    requires
        spread > 0,
    ensures
        sum_of(mirrored(s, m), z_of(m, spread)) == -sum_of(numbers(s), z_of(m, spread)),
    decreases s.len(),
{
    if s.len() > 0 {
        lemma_mirrored_sum(s.drop_last(), m, spread);
        assert(mirrored(s, m).drop_last() =~= mirrored(s.drop_last(), m));
        assert(numbers(s).drop_last() =~= numbers(s.drop_last()));
        lemma_z_mirror(s.last() as int, m, spread);
    }
}

proof fn lemma_z_sum(s: Seq<i64>, out: Seq<i64>, m: int, spread: int)
    requires
        spread > 0,
        out.len() == s.len(),
        forall|i: int|
            0 <= i < s.len() ==> #[trigger] out[i] == rescaled(s[i], m, z_factor(), spread),
    ensures
        sum(out) == sum_of(numbers(s), z_of(m, spread)),
    decreases s.len(),
{
    if s.len() > 0 {
        lemma_z_sum(s.drop_last(), out.drop_last(), m, spread);
        assert(numbers(s).drop_last() =~= numbers(s.drop_last()));
        assert(out.last() == rescaled(s[s.len() - 1], m, z_factor(), spread));
    }
}

/// The robust z-scores of scores that lie symmetrically round their median
/// add up to zero, so their mean is zero: rounding toward zero treats a
/// score and its mirror image alike.
pub proof fn lemma_symmetric_z_centred(s: Seq<i64>, out: Seq<i64>, m: int, spread: int)
    requires
        spread > 0,
        symmetric(s, m),
        out.len() == s.len(),
        forall|i: int|
            0 <= i < s.len() ==> #[trigger] out[i] == rescaled(s[i], m, z_factor(), spread),
    ensures
        sum(out) == 0,
{
    lemma_z_sum(s, out, m, spread);
    lemma_mirrored_sum(s, m, spread);
    lemma_sum_of_permutation(mirrored(s, m), numbers(s), z_of(m, spread));
}

/// The median absolute deviation is not negative.
pub proof fn lemma_mad_not_negative(s: Seq<i64>)
    requires
        s.len() > 0,
        deviations_fit(s, median(s)),
    ensures
        mad(s) >= 0,
{
    let d = deviations(s, median(s));
    let t = ascending(d);
    let n = d.len() as int;
    lemma_ascending_permutes(d);
    assert forall|k: int| 0 <= k < n implies #[trigger] t[k] >= 0 by {
        assert(d.contains(t[k]));
        let j = d.index_of(t[k]);
        assert(0 <= j < n && d[j] == t[k]);
    }
    if n % 2 == 0 {
        assert(t[n / 2 - 1] >= 0);
        assert(t[n / 2] >= 0);
    } else {
        assert(t[n / 2] >= 0);
    }
}

/// Where the scores of a track lie symmetrically round their median, its
/// robust z-scores add up to zero.
pub proof fn lemma_robust_z_centred(cols: Seq<Seq<i64>>)
    requires
        z_refusal(cols) is None,
        symmetric(flat(cols), median(flat(cols))),
    ensures
        sum(
            flat(rescaled_columns(cols, median(flat(cols)), z_factor(), mad(flat(cols)))),
        ) == 0,
{
    let s = flat(cols);
    let m = median(s);
    lemma_mad_not_negative(s);
    lemma_flat_rescaled(cols, m, z_factor(), mad(s));
    lemma_symmetric_z_centred(s, flat(rescaled_columns(cols, m, z_factor(), mad(s))), m, mad(s));
}

} // verus!
