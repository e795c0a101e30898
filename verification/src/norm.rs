use vstd::prelude::*;
use crate::error::TrackError;
use crate::stats::{div_round_zero, div_toward_zero, median, median_scores, sum, sum_scores};
use crate::roundtrip::{lemma_printable_by_topology, printable};
use crate::symmetry::{lemma_robust_z_centred, symmetric};
use crate::track::Track;

verus! {

/// The columns one after the other.
pub open spec fn flat(cols: Seq<Seq<i64>>) -> Seq<i64>
    decreases cols.len(),
{
    if cols.len() == 0 {
        Seq::empty()
    } else {
        flat(cols.drop_last()) + cols.last()
    }
}

/// The score `x` moved by `center` and scaled by `factor / denom`, rounded
/// toward zero.
pub open spec fn rescaled(x: i64, center: int, factor: int, denom: int) -> int
    recommends
        denom != 0,
{
    let a = (x - center) * factor;
    if denom > 0 {
        div_toward_zero(a, denom)
    } else {
        div_toward_zero(-a, -denom)
    }
}

/// Whether a value is in the range of a score.
pub open spec fn fits(v: int) -> bool {
    i64::MIN <= v <= i64::MAX
}

/// Whether every rescaled score is in the range of a score.
pub open spec fn all_fit(cols: Seq<Seq<i64>>, center: int, factor: int, denom: int) -> bool {
    forall|c: int, i: int|
        0 <= c < cols.len() && 0 <= i < cols[c].len() ==> fits(
            rescaled(#[trigger] cols[c][i], center, factor, denom),
        )
}

/// The columns with every score rescaled.
pub open spec fn rescaled_columns(cols: Seq<Seq<i64>>, center: int, factor: int, denom: int) -> Seq<
    Seq<i64>,
> {
    Seq::new(
        cols.len(),
        |c: int|
            Seq::new(cols[c].len(), |i: int| rescaled(cols[c][i], center, factor, denom) as i64),
    )
}

/// A million, in millionths: the factor of counts-per-million between two
/// fixed-point scores.
pub open spec fn cpm_factor() -> int {
    1_000_000_000_000
}

/// 0.6745 in millionths: the factor that makes the median absolute deviation
/// comparable to a standard deviation.
pub open spec fn z_factor() -> int {
    674_500
}

/// The distance of a score from the centre.
pub open spec fn deviation(x: i64, m: int) -> int {
    if x >= m {
        x - m
    } else {
        m - x
    }
}

/// Whether every distance from the centre is in the range of a score.
pub open spec fn deviations_fit(s: Seq<i64>, m: int) -> bool {
    forall|i: int| 0 <= i < s.len() ==> deviation(#[trigger] s[i], m) <= i64::MAX
}

/// The distances of the scores from the centre.
pub open spec fn deviations(s: Seq<i64>, m: int) -> Seq<i64> {
    Seq::new(s.len(), |i: int| deviation(s[i], m) as i64)
}

/// The median absolute deviation of the scores.
pub open spec fn mad(s: Seq<i64>) -> int {
    median(deviations(s, median(s)))
}

/// Why the scores have no robust z-scores; `None` where they have.
pub open spec fn z_refusal(cols: Seq<Seq<i64>>) -> Option<TrackError> {
    let s = flat(cols);
    if s.len() == 0 {
        Some(TrackError::DegenerateDistribution { mad: 0 })
    } else if !deviations_fit(s, median(s)) {
        Some(TrackError::ScoreOverflow)
    } else if mad(s) == 0 {
        Some(TrackError::DegenerateDistribution { mad: 0 })
    } else if !all_fit(cols, median(s), z_factor(), mad(s)) {
        Some(TrackError::ScoreOverflow)
    } else {
        None
    }
}

/// Why the scores have no counts-per-million; `None` where they have.
pub open spec fn cpm_refusal(cols: Seq<Seq<i64>>) -> Option<TrackError> {
    let total = sum(flat(cols));
    if total == 0 {
        Some(TrackError::ZeroTotal { total: 0 })
    } else if !all_fit(cols, 0, cpm_factor(), total) {
        Some(TrackError::ScoreOverflow)
    } else {
        None
    }
}

/// Rescales one score; `None` where the result is out of range.
pub fn rescale(x: i64, center: i64, factor: i128, denom: i128) -> (r: Option<i64>)
    requires
        0 < factor <= 1_000_000_000_000,
        denom != 0,
        denom > i128::MIN,
    ensures
        r is Some <==> fits(rescaled(x, center as int, factor as int, denom as int)),
        r is Some ==> r->Some_0 == rescaled(x, center as int, factor as int, denom as int),
{
    let d: i128 = x as i128 - center as i128;
    assert(-0x1_0000_0000_0000_0000 * factor <= d * factor <= 0x1_0000_0000_0000_0000 * factor)
        by (nonlinear_arith)
        requires
            -0x1_0000_0000_0000_0000 <= d <= 0x1_0000_0000_0000_0000,
            factor > 0,
    ;
    let a: i128 = d * factor;
    let q: i128 = if denom > 0 {
        div_round_zero(a, denom)
    } else {
        div_round_zero(-a, -denom)
    };
    if q < -0x8000_0000_0000_0000 || q > 0x7fff_ffff_ffff_ffff {
        None
    } else {
        Some(q as i64)
    }
}

/// Rescales every score of every column; `None` where one is out of range.
pub fn rescale_columns(cols: &Vec<Vec<i64>>, center: i64, factor: i128, denom: i128) -> (r: Option<
    Vec<Vec<i64>>,
>)
    requires
        0 < factor <= 1_000_000_000_000,
        denom != 0,
        denom > i128::MIN,
    ensures
        r is Some <==> all_fit(crate::track::columns(cols@), center as int, factor as int, denom as int),
        r is Some ==> crate::track::columns(r->Some_0@) == rescaled_columns(
            crate::track::columns(cols@),
            center as int,
            factor as int,
            denom as int,
        ),
{
    let ghost src = crate::track::columns(cols@);
    let mut out: Vec<Vec<i64>> = Vec::new();
    let mut c: usize = 0;
    while c < cols.len()
        invariant
            c <= cols.len(),
            src == crate::track::columns(cols@),
            0 < factor <= 1_000_000_000_000,
            denom != 0,
            denom > i128::MIN,
            out@.len() == c,
            forall|k: int| 0 <= k < c ==> (#[trigger] out@[k])@.len() == src[k].len(),
            forall|k: int, i: int|
                0 <= k < c && 0 <= i < src[k].len() ==> fits(
                    rescaled(#[trigger] src[k][i], center as int, factor as int, denom as int),
                ) && out@[k]@[i] == rescaled(src[k][i], center as int, factor as int, denom as int),
        decreases cols.len() - c,
    {
        let col: &Vec<i64> = &cols[c];
        let mut fresh: Vec<i64> = Vec::new();
        let mut i: usize = 0;
        while i < col.len()
            invariant
                i <= col.len(),
                c < cols.len(),
                src == crate::track::columns(cols@),
                col@ == src[c as int],
                0 < factor <= 1_000_000_000_000,
                denom != 0,
                denom > i128::MIN,
                fresh@.len() == i,
                forall|j: int|
                    0 <= j < i ==> fits(
                        rescaled(#[trigger] col@[j], center as int, factor as int, denom as int),
                    ) && fresh@[j] == rescaled(col@[j], center as int, factor as int, denom as int),
            decreases col.len() - i,
        {
            match rescale(col[i], center, factor, denom) {
                Some(v) => {
                    fresh.push(v);
                },
                None => {
                    assert(!fits(
                        rescaled(src[c as int][i as int], center as int, factor as int, denom as int),
                    ));
                    return None;
                },
            }
            i = i + 1;
        }
        out.push(fresh);
        c = c + 1;
    }
    assert(crate::track::columns(out@) =~~= rescaled_columns(
        src,
        center as int,
        factor as int,
        denom as int,
    ));
    Some(out)
}

/// Rescaling the columns rescales the scores: what the rescaled columns hold
/// one after the other is each score of the track rescaled, in place.
pub proof fn lemma_flat_rescaled(cols: Seq<Seq<i64>>, center: int, factor: int, denom: int)
    requires
        all_fit(cols, center, factor, denom),
    ensures
        flat(rescaled_columns(cols, center, factor, denom)).len() == flat(cols).len(),
        forall|i: int|
            0 <= i < flat(cols).len() ==> #[trigger] flat(
                rescaled_columns(cols, center, factor, denom),
            )[i] == rescaled(flat(cols)[i], center, factor, denom),
    decreases cols.len(),
{
    if cols.len() > 0 {
        let rest = cols.drop_last();
        let out = rescaled_columns(cols, center, factor, denom);
        assert(out.drop_last() =~= rescaled_columns(rest, center, factor, denom));
        assert(all_fit(rest, center, factor, denom)) by {
            assert forall|c: int, i: int| 0 <= c < rest.len() && 0 <= i < rest[c].len() implies fits(
                rescaled(#[trigger] rest[c][i], center, factor, denom),
            ) by {
                assert(rest[c][i] == cols[c][i]);
            }
        }
        lemma_flat_rescaled(rest, center, factor, denom);
        let last = cols.len() - 1;
        assert forall|i: int| 0 <= i < flat(cols).len() implies #[trigger] flat(out)[i]
            == rescaled(flat(cols)[i], center, factor, denom) by {
            if i >= flat(rest).len() {
                let k = i - flat(rest).len();
                assert(flat(cols)[i] == cols[last][k]);
                assert(fits(rescaled(cols[last][k], center, factor, denom)));
                assert(flat(out)[i] == out[last][k]);
            } else {
                assert(flat(out)[i] == flat(out.drop_last())[i]);
            }
        }
    }
}

/// How far the rescaled scores, added up and multiplied by the divisor, are
/// from the scores added up and multiplied by the factor: rounding moves
/// each score by less than one.
pub proof fn lemma_rescaled_sum(s: Seq<i64>, out: Seq<i64>, factor: int, denom: int)
    requires
        denom > 0,
        out.len() == s.len(),
        forall|i: int| 0 <= i < s.len() ==> #[trigger] out[i] == rescaled(s[i], 0, factor, denom),
    ensures
        -(denom - 1) * s.len() <= denom * sum(out) - factor * sum(s) <= (denom - 1) * s.len(),
    decreases s.len(),
{
    if s.len() > 0 {
        let n = s.len() as int;
        lemma_rescaled_sum(s.drop_last(), out.drop_last(), factor, denom);
        let x = s.last() as int;
        let q = out.last() as int;
        let a = x * factor;
        assert(q == rescaled(s[n - 1], 0, factor, denom));
        assert(-(denom - 1) <= denom * q - a <= denom - 1) by {
            if a >= 0 {
                vstd::arithmetic::div_mod::lemma_fundamental_div_mod(a, denom);
            } else {
                vstd::arithmetic::div_mod::lemma_fundamental_div_mod(-a, denom);
                assert(denom * (-((-a) / denom)) == -(denom * ((-a) / denom))) by (nonlinear_arith);
            }
        }
        assert(denom * (sum(out.drop_last()) + q) == denom * sum(out.drop_last()) + denom * q)
            by (nonlinear_arith);
        assert(factor * (sum(s.drop_last()) + x) == factor * sum(s.drop_last()) + x * factor)
            by (nonlinear_arith);
        assert((denom - 1) * n == (denom - 1) * (n - 1) + (denom - 1)) by (nonlinear_arith);
        assert(-(denom - 1) * n == -(denom - 1) * (n - 1) - (denom - 1)) by (nonlinear_arith);
    }
}

/// After scaling to counts per million the scores add up to a million, but
/// for rounding: each score is rounded toward zero to a millionth, so the
/// sum is off by less than a millionth for each bin.
pub proof fn lemma_cpm_total(cols: Seq<Seq<i64>>)
    requires
        sum(flat(cols)) > 0,
        all_fit(cols, 0, cpm_factor(), sum(flat(cols))),
    ensures
        cpm_factor() - flat(cols).len() < sum(
            flat(rescaled_columns(cols, 0, cpm_factor(), sum(flat(cols)))),
        ) < cpm_factor() + flat(cols).len(),
{
    let s = flat(cols);
    let total = sum(s);
    let out = flat(rescaled_columns(cols, 0, cpm_factor(), total));
    let n = s.len() as int;
    lemma_flat_rescaled(cols, 0, cpm_factor(), total);
    lemma_rescaled_sum(s, out, cpm_factor(), total);
    let k = cpm_factor();
    let d = sum(out) - k;
    assert(n > 0);
    assert(total * sum(out) - k * total == total * d) by (nonlinear_arith)
        requires
            d == sum(out) - k,
    ;
    assert(-n < d < n) by (nonlinear_arith)
        requires
            -(total - 1) * n <= total * d <= (total - 1) * n,
            total > 0,
            n > 0,
    ;
}

/// Copies the scores.
pub fn copy_scores(v: &Vec<i64>) -> (w: Vec<i64>)
    ensures
        w@ == v@,
{
    let mut out: Vec<i64> = Vec::new();
    let mut i: usize = 0;
    while i < v.len()
        invariant
            i <= v.len(),
            out@ == v@.subrange(0, i as int),
        decreases v.len() - i,
    {
        out.push(v[i]);
        assert(out@ =~= v@.subrange(0, i + 1));
        i = i + 1;
    }
    assert(v@.subrange(0, v.len() as int) =~= v@);
    out
}

/// The distances of the scores from `m`; `None` where one is out of range.
pub fn deviation_scores(v: &Vec<i64>, m: i64) -> (r: Option<Vec<i64>>)
    ensures
        r is Some <==> deviations_fit(v@, m as int),
        r is Some ==> r->Some_0@ == deviations(v@, m as int),
{
    let mut out: Vec<i64> = Vec::new();
    let mut i: usize = 0;
    while i < v.len()
        invariant
            i <= v.len(),
            out@.len() == i,
            forall|j: int|
                0 <= j < i ==> deviation(#[trigger] v@[j], m as int) <= i64::MAX && out@[j]
                    == deviation(v@[j], m as int),
        decreases v.len() - i,
    {
        let x: i64 = v[i];
        let d: i128 = if x >= m {
            x as i128 - m as i128
        } else {
            m as i128 - x as i128
        };
        if d > 0x7fff_ffff_ffff_ffff {
            assert(deviation(v@[i as int], m as int) > i64::MAX);
            return None;
        }
        out.push(d as i64);
        i = i + 1;
    }
    assert(out@ =~= deviations(v@, m as int));
    Some(out)
}

impl Track {
    /// All scores of the track, chromosome after chromosome.
    pub open spec fn all_scores(&self) -> Seq<i64> {
        flat(self.scores())
    }

    /// Collects all scores of the track, chromosome after chromosome.
    pub fn gather_scores(&self) -> (v: Vec<i64>)
        ensures
            v@ == self.all_scores(),
    {
        let mut out: Vec<i64> = Vec::new();
        let mut c: usize = 0;
        while c < self.scores.len()
            invariant
                c <= self.scores.len(),
                out@ == flat(self.scores().subrange(0, c as int)),
            decreases self.scores.len() - c,
        {
            let col: &Vec<i64> = &self.scores[c];
            let ghost before = out@;
            let mut i: usize = 0;
            while i < col.len()
                invariant
                    i <= col.len(),
                    out@ == before + col@.subrange(0, i as int),
                decreases col.len() - i,
            {
                out.push(col[i]);
                assert(out@ =~= before + col@.subrange(0, i + 1));
                i = i + 1;
            }
            proof {
                assert(col@.subrange(0, col.len() as int) =~= col@);
                let next = self.scores().subrange(0, c + 1);
                assert(next.drop_last() =~= self.scores().subrange(0, c as int));
                assert(next.last() == col@);
            }
            c = c + 1;
        }
        assert(self.scores().subrange(0, self.scores.len() as int) =~= self.scores());
        out
    }

    /// Rescales the scores in place to counts per million: each becomes its
    /// share of the sum of all scores, times a million. Names, starts and
    /// resolution are never touched; where the call fails, neither are the
    /// scores. Each new score is rounded toward zero to a millionth, so
    /// where the old scores add up to more than zero, the new ones add up to
    /// a million but for less than a millionth for each bin.
    pub fn to_cpm(&mut self) -> (r: Result<(), TrackError>)
        requires
            old(self).wf(),
        ensures
            final(self).wf(),
            printable(old(self).model()) ==> printable(final(self).model()),
            r is Ok && sum(old(self).all_scores()) > 0 ==> cpm_factor() - old(
                self,
            ).all_scores().len() < sum(final(self).all_scores()) < cpm_factor() + old(
                self,
            ).all_scores().len(),
            final(self).resolution == old(self).resolution,
            final(self).names() == old(self).names(),
            final(self).starts() == old(self).starts(),
            match cpm_refusal(old(self).scores()) {
                Some(e) => r == Err::<(), TrackError>(e) && final(self).scores() == old(
                    self,
                ).scores(),
                None => r is Ok && final(self).scores() == rescaled_columns(
                    old(self).scores(),
                    0,
                    cpm_factor(),
                    sum(old(self).all_scores()),
                ),
            },
    {
        let all: Vec<i64> = self.gather_scores();
        let total: i128 = sum_scores(&all);
        if total == 0 {
            return Err(TrackError::ZeroTotal { total: 0 });
        }
        match rescale_columns(&self.scores, 0, 1_000_000_000_000, total) {
            Some(fresh) => {
                self.scores = fresh;
                proof {
                    if total > 0 {
                        lemma_cpm_total(old(self).scores());
                    }
                    if printable(old(self).model()) {
                        lemma_printable_by_topology(old(self).model(), self.model());
                    }
                }
                Ok(())
            },
            None => Err(TrackError::ScoreOverflow),
        }
    }

    /// The robust z-scores of the track: each score less the median of all
    /// scores, over their median absolute deviation, times 0.6745. Names,
    /// starts and resolution stay. Where the scores lie symmetrically round
    /// their median, the z-scores add up to zero.
    pub fn robust_z(self) -> (r: Result<Track, TrackError>)
        requires
            self.wf(),
        ensures
            match z_refusal(self.scores()) {
                Some(e) => r == Err::<Track, TrackError>(e),
                None => {
                    &&& r is Ok
                    &&& r->Ok_0.wf()
                    &&& printable(self.model()) ==> printable(r->Ok_0.model())
                    &&& symmetric(self.all_scores(), median(self.all_scores())) ==> sum(
                        r->Ok_0.all_scores(),
                    ) == 0
                    &&& r->Ok_0.resolution == self.resolution
                    &&& r->Ok_0.names() == self.names()
                    &&& r->Ok_0.starts() == self.starts()
                    &&& r->Ok_0.scores() == rescaled_columns(
                        self.scores(),
                        median(self.all_scores()),
                        z_factor(),
                        mad(self.all_scores()),
                    )
                },
            },
    {
        let all: Vec<i64> = self.gather_scores();
        if all.len() == 0 {
            return Err(TrackError::DegenerateDistribution { mad: 0 });
        }
        let m: i64 = median_scores(copy_scores(&all));
        let devs: Vec<i64> = match deviation_scores(&all, m) {
            Some(devs) => devs,
            None => {
                return Err(TrackError::ScoreOverflow);
            },
        };
        let spread: i64 = median_scores(devs);
        if spread == 0 {
            return Err(TrackError::DegenerateDistribution { mad: 0 });
        }
        match rescale_columns(&self.scores, m, 674_500, spread as i128) {
            Some(fresh) => {
                let t = Track {
                    resolution: self.resolution,
                    names: self.names,
                    starts: self.starts,
                    scores: fresh,
                };
                proof {
                    if symmetric(self.all_scores(), median(self.all_scores())) {
                        lemma_robust_z_centred(self.scores());
                    }
                    if printable(self.model()) {
                        lemma_printable_by_topology(self.model(), t.model());
                    }
                }
                Ok(t)
            },
            None => Err(TrackError::ScoreOverflow),
        }
    }
}

} // verus!
