use vstd::prelude::*;
use vstd::arithmetic::div_mod::{lemma_fundamental_div_mod, lemma_mod_multiples_vanish};
use crate::error::TrackError;
use crate::stats::{
    div_round_zero, insert_sorted, lemma_constant_mean_median, lemma_div_toward_zero_bounds,
    lemma_sum_bounds, lemma_sum_drop_first, mean, median, median_sorted, ordered, remove_sorted,
    sum, sum_scores,
};

verus! {

/// What a window does at the ends of a chromosome.
#[derive(Clone, Copy, Debug, PartialEq, Eq, Structural)]
pub enum Boundary {
    /// The window is cut to the bins that exist.
    Linear,
    /// The chromosome is a ring: the window wraps round its ends.
    Circular,
}

/// The statistic taken over a window.
#[derive(Clone, Copy, Debug, PartialEq, Eq, Structural)]
pub enum StatKind {
    Mean,
    Median,
}

/// The first bin of the linear window round bin `i`.
pub open spec fn linear_lo(i: int, h: int) -> int {
    if i - h < 0 {
        0
    } else {
        i - h
    }
}

/// The last bin of the linear window round bin `i` of `n` bins.
pub open spec fn linear_hi(n: int, i: int, h: int) -> int {
    if i + h > n - 1 {
        n - 1
    } else {
        i + h
    }
}

/// The number of scores in the window round bin `i`.
pub open spec fn window_len(n: int, i: int, h: int, boundary: Boundary) -> int {
    match boundary {
        Boundary::Circular => 2 * h + 1,
        Boundary::Linear => linear_hi(n, i, h) - linear_lo(i, h) + 1,
    }
}

/// The bin that stands at place `j` of the window round bin `i`.
pub open spec fn window_index(n: int, i: int, h: int, j: int, boundary: Boundary) -> int {
    match boundary {
        Boundary::Circular => (i - h + j) % n,
        Boundary::Linear => linear_lo(i, h) + j,
    }
}

/// The scores of the window of half-width `h` round bin `i`, left to right.
pub open spec fn window(scores: Seq<i64>, i: int, h: int, boundary: Boundary) -> Seq<i64> {
    Seq::new(
        window_len(scores.len() as int, i, h, boundary) as nat,
        |j: int| scores[window_index(scores.len() as int, i, h, j, boundary)],
    )
}

/// The statistic of a sequence of scores.
pub open spec fn stat(s: Seq<i64>, kind: StatKind) -> int {
    match kind {
        StatKind::Mean => mean(s),
        StatKind::Median => median(s),
    }
}

/// The rolled score of bin `i`.
pub open spec fn rolled(scores: Seq<i64>, i: int, h: int, boundary: Boundary, kind: StatKind) -> int {
    stat(window(scores, i, h, boundary), kind)
}

/// Every place of a window names a bin of the chromosome, and a window is
/// never empty.
pub proof fn lemma_window_index_in_range(n: int, i: int, h: int, j: int, boundary: Boundary)
    requires
        0 <= i < n,
        0 <= h,
        0 <= j < window_len(n, i, h, boundary),
    ensures
        0 <= window_index(n, i, h, j, boundary) < n,
        window_len(n, i, h, boundary) >= 1,
        boundary == Boundary::Linear ==> window_len(n, i, h, boundary) <= n,
{
}

/// The ring position `(i - h + j) mod n`, computed without a negative
/// intermediate.
fn ring_index(n: usize, i: usize, h: usize, j: usize) -> (idx: usize)
    requires
        i < n,
    ensures
        idx == (i - h + j) % (n as int),
        idx < n,
{
    let back: usize = n - h % n;
    let wide: u128 = i as u128 + j as u128 + back as u128;
    let idx: u128 = wide % (n as u128);
    proof {
        let ni = n as int;
        let hi = h as int;
        lemma_fundamental_div_mod(hi, ni);
        assert(ni * (1 + hi / ni) == ni + ni * (hi / ni)) by (nonlinear_arith);
        assert(wide as int == ni * (1 + hi / ni) + (i - h + j));
        lemma_mod_multiples_vanish(1 + hi / ni, i - h + j, ni);
    }
    idx as usize
}

/// Collects the scores of the window round bin `i`.
pub fn window_scores(scores: &Vec<i64>, i: usize, h: usize, boundary: Boundary) -> (w: Vec<i64>)
    requires
        i < scores.len(),
        2 * h + 1 <= usize::MAX,
    ensures
        w@ == window(scores@, i as int, h as int, boundary),
        w.len() >= 1,
{
    let n: usize = scores.len();
    let mut out: Vec<i64> = Vec::new();
    match boundary {
        Boundary::Circular => {
            let len: usize = 2 * h + 1;
            let mut j: usize = 0;
            while j < len
                invariant
                    n == scores.len(),
                    i < n,
                    len == 2 * h + 1,
                    j <= len,
                    out@.len() == j,
                    forall|k: int|
                        0 <= k < j ==> out@[k] == scores@[window_index(
                            n as int,
                            i as int,
                            h as int,
                            k,
                            boundary,
                        )],
                    boundary == Boundary::Circular,
                decreases len - j,
            {
                let idx: usize = ring_index(n, i, h, j);
                out.push(scores[idx]);
                j = j + 1;
            }
        },
        Boundary::Linear => {
            let lo: usize = if i < h {
                0
            } else {
                i - h
            };
            let hi: usize = if h > n - 1 - i {
                n - 1
            } else {
                i + h
            };
            let mut p: usize = lo;
            while p <= hi
                invariant
                    n == scores.len(),
                    lo <= p <= hi + 1,
                    hi < n,
                    lo == linear_lo(i as int, h as int),
                    hi == linear_hi(n as int, i as int, h as int),
                    out@.len() == p - lo,
                    forall|k: int| 0 <= k < p - lo ==> out@[k] == scores@[lo + k],
                decreases hi + 1 - p,
            {
                out.push(scores[p]);
                p = p + 1;
            }
        },
    }
    assert(out@ =~= window(scores@, i as int, h as int, boundary));
    out
}

/// What changes in the window from bin `i` to bin `i + 1`: the score that
/// leaves at the front and the score that enters at the back, if any.
pub fn slide(scores: &Vec<i64>, i: usize, h: usize, boundary: Boundary) -> (r: (
    Option<i64>,
    Option<i64>,
))
    requires
        i + 1 < scores.len(),
        2 * h + 1 <= usize::MAX,
    ensures
        ({
            let w0 = window(scores@, i as int, h as int, boundary);
            let w1 = window(scores@, i + 1, h as int, boundary);
            let kept = if r.0 is Some {
                w0.drop_first()
            } else {
                w0
            };
            &&& w0.len() > 0
            &&& r.0 is Some ==> r.0->Some_0 == w0[0]
            &&& r.1 is Some ==> w1 == kept.push(r.1->Some_0)
            &&& r.1 is None ==> w1 == kept
        }),
{
    let n: usize = scores.len();
    let ghost w0 = window(scores@, i as int, h as int, boundary);
    let ghost w1 = window(scores@, i + 1, h as int, boundary);
    match boundary {
        Boundary::Circular => {
            let leaving: i64 = scores[ring_index(n, i, h, 0)];
            let entering: i64 = scores[ring_index(n, i + 1, h, 2 * h)];
            assert(w1 =~= w0.drop_first().push(entering));
            (Some(leaving), Some(entering))
        },
        Boundary::Linear => {
            let leaving: Option<i64> = if i >= h {
                Some(scores[i - h])
            } else {
                None
            };
            let entering: Option<i64> = if h < n - 1 - i {
                Some(scores[i + 1 + h])
            } else {
                None
            };
            let ghost kept = if leaving is Some {
                w0.drop_first()
            } else {
                w0
            };
            proof {
                if entering is Some {
                    assert(w1 =~= kept.push(entering->Some_0));
                } else {
                    assert(w1 =~= kept);
                }
            }
            (leaving, entering)
        },
    }
}

/// The rolling mean, kept as a running sum: a score that leaves the window
/// is taken off, one that enters is added.
pub fn roll_mean(scores: &Vec<i64>, h: usize, boundary: Boundary) -> (out: Vec<i64>)
    requires
        scores.len() > 0,
        2 * h + 1 <= usize::MAX,
    ensures
        out@.len() == scores.len(),
        forall|i: int|
            0 <= i < scores.len() ==> #[trigger] out@[i] == rolled(
                scores@,
                i,
                h as int,
                boundary,
                StatKind::Mean,
            ),
{
    let n: usize = scores.len();
    let first: Vec<i64> = window_scores(scores, 0, h, boundary);
    let mut total: i128 = sum_scores(&first);
    let mut len: usize = first.len();
    let mut out: Vec<i64> = Vec::new();
    let mut i: usize = 0;
    while i < n
        invariant
            n == scores.len(),
            2 * h + 1 <= usize::MAX,
            i <= n,
            out@.len() == i,
            i < n ==> total == sum(window(scores@, i as int, h as int, boundary)),
            i < n ==> len == window(scores@, i as int, h as int, boundary).len(),
            forall|k: int|
                0 <= k < i ==> #[trigger] out@[k] == rolled(
                    scores@,
                    k,
                    h as int,
                    boundary,
                    StatKind::Mean,
                ),
        decreases n - i,
    {
        let ghost w0 = window(scores@, i as int, h as int, boundary);
        proof {
            lemma_window_index_in_range(n as int, i as int, h as int, 0, boundary);
            lemma_sum_bounds(w0, i64::MIN as int, i64::MAX as int);
            lemma_div_toward_zero_bounds(total as int, len as int, i64::MIN as int, i64::MAX as int);
        }
        let q: i128 = div_round_zero(total, len as i128);
        out.push(q as i64);
        if i + 1 < n {
            let (leaving, entering) = slide(scores, i, h, boundary);
            let ghost kept = if leaving is Some {
                w0.drop_first()
            } else {
                w0
            };
            match leaving {
                Some(x) => {
                    proof {
                        lemma_sum_drop_first(w0);
                        lemma_sum_bounds(kept, i64::MIN as int, i64::MAX as int);
                    }
                    total = total - x as i128;
                    len = len - 1;
                },
                None => {},
            }
            match entering {
                Some(x) => {
                    proof {
                        let w1 = window(scores@, i + 1, h as int, boundary);
                        assert(kept.push(x).drop_last() =~= kept);
                        lemma_window_index_in_range(n as int, i + 1, h as int, 0, boundary);
                        lemma_sum_bounds(w1, i64::MIN as int, i64::MAX as int);
                        assert(w1.len() <= usize::MAX) by {
                            if boundary == Boundary::Linear {
                                lemma_window_index_in_range(n as int, i + 1, h as int, 0, boundary);
                            }
                        }
                    }
                    total = total + x as i128;
                    len = len + 1;
                },
                None => {},
            }
        }
        i = i + 1;
    }
    out
}

/// The rolling median, kept as the window's scores in ascending order: a
/// score that leaves the window is taken out, one that enters is put in at
/// its place, and the median is read off the middle.
pub fn roll_median(scores: &Vec<i64>, h: usize, boundary: Boundary) -> (out: Vec<i64>)
    requires
        scores.len() > 0,
        2 * h + 1 <= usize::MAX,
    ensures
        out@.len() == scores.len(),
        forall|i: int|
            0 <= i < scores.len() ==> #[trigger] out@[i] == rolled(
                scores@,
                i,
                h as int,
                boundary,
                StatKind::Median,
            ),
{
    let n: usize = scores.len();
    let mut sorted: Vec<i64> = Vec::new();
    let first: Vec<i64> = window_scores(scores, 0, h, boundary);
    let mut j: usize = 0;
    assert(first@.subrange(0, 0) =~= sorted@);
    while j < first.len()
        invariant
            j <= first.len(),
            ordered(sorted@),
            sorted@.to_multiset() == first@.subrange(0, j as int).to_multiset(),
        decreases first.len() - j,
    {
        proof {
            assert(first@.subrange(0, j + 1) =~= first@.subrange(0, j as int).push(first@[j as int]));
            vstd::seq_lib::to_multiset_build(first@.subrange(0, j as int), first@[j as int]);
        }
        insert_sorted(&mut sorted, first[j]);
        j = j + 1;
    }
    assert(first@.subrange(0, first.len() as int) =~= first@);
    let mut out: Vec<i64> = Vec::new();
    let mut i: usize = 0;
    while i < n
        invariant
            n == scores.len(),
            2 * h + 1 <= usize::MAX,
            i <= n,
            out@.len() == i,
            i < n ==> ordered(sorted@),
            i < n ==> sorted@.to_multiset() == window(
                scores@,
                i as int,
                h as int,
                boundary,
            ).to_multiset(),
            forall|k: int|
                0 <= k < i ==> #[trigger] out@[k] == rolled(
                    scores@,
                    k,
                    h as int,
                    boundary,
                    StatKind::Median,
                ),
        decreases n - i,
    {
        let ghost w0 = window(scores@, i as int, h as int, boundary);
        proof {
            lemma_window_index_in_range(n as int, i as int, h as int, 0, boundary);
            vstd::seq_lib::to_multiset_len(w0);
            vstd::seq_lib::to_multiset_len(sorted@);
        }
        let m: i64 = median_sorted(&sorted);
        assert(m == median(w0));
        out.push(m);
        if i + 1 < n {
            let (leaving, entering) = slide(scores, i, h, boundary);
            let ghost kept = if leaving is Some {
                w0.drop_first()
            } else {
                w0
            };
            match leaving {
                Some(x) => {
                    proof {
                        assert(w0.contains(x));
                        vstd::seq_lib::to_multiset_contains(w0, x);
                        vstd::seq_lib::to_multiset_contains(sorted@, x);
                        assert(w0.drop_first() =~= w0.remove(0));
                        vstd::seq_lib::to_multiset_remove(w0, 0);
                    }
                    remove_sorted(&mut sorted, x);
                },
                None => {},
            }
            assert(sorted@.to_multiset() == kept.to_multiset());
            match entering {
                Some(x) => {
                    proof {
                        vstd::seq_lib::to_multiset_build(kept, x);
                    }
                    insert_sorted(&mut sorted, x);
                },
                None => {},
            }
        }
        i = i + 1;
    }
    out
}

/// Rolls a statistic over the scores of one chromosome: one score for each
/// bin, taken over the window of `w` bins round it.
pub fn roll_scores(scores: &Vec<i64>, w: usize, boundary: Boundary, kind: StatKind) -> (r: Result<
    Vec<i64>,
    TrackError,
>)
    requires
        w % 2 == 1,
    ensures
        scores.len() == 0 <==> r == Err::<Vec<i64>, TrackError>(TrackError::EmptyChromosome),
        scores.len() > 0 <==> r is Ok,
        r is Ok ==> r->Ok_0@.len() == scores.len(),
        r is Ok ==> forall|i: int|
            0 <= i < scores.len() ==> #[trigger] r->Ok_0@[i] == rolled(
                scores@,
                i,
                (w - 1) / 2,
                boundary,
                kind,
            ),
{
    if scores.len() == 0 {
        return Err(TrackError::EmptyChromosome);
    }
    let h: usize = (w - 1) / 2;
    match kind {
        StatKind::Mean => Ok(roll_mean(scores, h, boundary)),
        StatKind::Median => Ok(roll_median(scores, h, boundary)),
    }
}

/// Over a chromosome whose scores are all `v`, the rolling mean and the
/// rolling median are `v` at every bin, whatever the window and the boundary.
pub proof fn lemma_constant_roll(
    scores: Seq<i64>,
    v: i64,
    i: int,
    h: int,
    boundary: Boundary,
    kind: StatKind,
)
    requires
        0 <= i < scores.len(),
        0 <= h,
        forall|k: int| 0 <= k < scores.len() ==> #[trigger] scores[k] == v,
    ensures
        rolled(scores, i, h, boundary, kind) == v,
{
    let n = scores.len() as int;
    let w = window(scores, i, h, boundary);
    assert forall|j: int| 0 <= j < w.len() implies #[trigger] w[j] == v by {
        lemma_window_index_in_range(n, i, h, j, boundary);
    }
    lemma_window_index_in_range(n, i, h, 0, boundary);
    lemma_constant_mean_median(w, v);
}

/// The chromosome turned by `r` bins: bin `k` carries what bin `k + r` did.
pub open spec fn rotated(scores: Seq<i64>, r: int) -> Seq<i64> {
    Seq::new(scores.len(), |k: int| scores[(k + r) % (scores.len() as int)])
}

/// Taking a remainder before adding changes no remainder.
pub proof fn lemma_mod_shift(x: int, y: int, n: int)
    requires
        n > 0,
    ensures
        ((x % n) + y) % n == (x + y) % n,
{
    lemma_fundamental_div_mod(x, n);
    lemma_mod_multiples_vanish(x / n, (x % n) + y, n);
}

/// Two numbers less than `n` apart leave different remainders.
pub proof fn lemma_remainders_differ(a: int, b: int, n: int)
    requires
        0 < b - a < n,
    ensures
        a % n != b % n,
{
    lemma_fundamental_div_mod(a, n);
    lemma_fundamental_div_mod(b, n);
    if a % n == b % n {
        let q = b / n - a / n;
        assert(b - a == n * q) by (nonlinear_arith)
            requires
                a == n * (a / n) + a % n,
                b == n * (b / n) + b % n,
                a % n == b % n,
                q == b / n - a / n,
        ;
        assert(false) by (nonlinear_arith)
            requires
                0 < n * q < n,
                n > 0,
        ;
    }
}

/// A circular window holds `2h + 1` scores, and where that is no more than
/// the chromosome has bins, no bin stands in it twice.
pub proof fn lemma_circular_window_complete(n: int, i: int, h: int, j: int, k: int)
    requires
        0 <= i < n,
        0 <= h,
        2 * h + 1 <= n,
        0 <= j < k < 2 * h + 1,
    ensures
        window_len(n, i, h, Boundary::Circular) == 2 * h + 1,
        window_index(n, i, h, j, Boundary::Circular) != window_index(
            n,
            i,
            h,
            k,
            Boundary::Circular,
        ),
{
    lemma_remainders_differ(i - h + j, i - h + k, n);
}

/// Turning a ring moves different bins to different bins.
pub proof fn lemma_rotation_one_to_one(n: int, r: int, i: int, k: int)
    requires
        0 <= i < k < n,
    ensures
        (i + r) % n != (k + r) % n,
        0 <= (i + r) % n < n,
{
    lemma_remainders_differ(i + r, k + r, n);
}

/// Turning a chromosome turns its circular windows with it: the window round
/// bin `i` of the turned chromosome is the window round bin `i + r` of the
/// chromosome itself. So the windows of all bins together are the same,
/// however the ring is cut open.
pub proof fn lemma_circular_window_rotation(scores: Seq<i64>, r: int, i: int, h: int)
    requires
        0 <= i < scores.len(),
        0 <= h,
    ensures
        0 <= (i + r) % (scores.len() as int) < scores.len(),
        window(rotated(scores, r), i, h, Boundary::Circular) == window(
            scores,
            (i + r) % (scores.len() as int),
            h,
            Boundary::Circular,
        ),
{
    let n = scores.len() as int;
    let turned = rotated(scores, r);
    let left = window(turned, i, h, Boundary::Circular);
    let right = window(scores, (i + r) % n, h, Boundary::Circular);
    assert forall|j: int| 0 <= j < 2 * h + 1 implies #[trigger] left[j] == right[j] by {
        let p = (i - h + j) % n;
        lemma_mod_shift(i - h + j, r, n);
        lemma_mod_shift(i + r, j - h, n);
        assert((p + r) % n == (i - h + j + r) % n);
        assert(((i + r) % n - h + j) % n == (i + r + (j - h)) % n);
        assert(turned[p] == scores[(p + r) % n]);
    }
    assert(left =~= right);
}

} // verus!
