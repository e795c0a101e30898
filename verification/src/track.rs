use vstd::prelude::*;
use crate::error::TrackError;
use crate::roll::{roll_scores, rolled, Boundary, StatKind};
use crate::roundtrip::{lemma_printable_by_topology, printable};
use crate::window::{half_width, lemma_window_bins_odd, resolve_window, window_bins};

verus! {

/// One scored interval of a chromosome: `start` inclusive, `end` exclusive.
#[derive(Clone, Copy, Debug, PartialEq, Eq, Structural)]
pub struct Bin {
    pub start: usize,
    pub end: usize,
    pub score: i64,
}

/// A score track over several chromosomes, all bins of one width.
///
/// Chromosome `c` has the name `names[c]`; its bins start at `starts[c]` and
/// carry `scores[c]`. A bin ends `resolution` after its start, so a transform
/// that keeps `names`, `starts` and `resolution` keeps the topology.
#[derive(Debug)]
pub struct Track {
    pub resolution: usize,
    pub names: Vec<Vec<u8>>,
    pub starts: Vec<Vec<usize>>,
    pub scores: Vec<Vec<i64>>,
}

/// What a track holds, as plain sequences.
pub struct TrackModel {
    pub resolution: usize,
    pub names: Seq<Seq<u8>>,
    pub starts: Seq<Seq<usize>>,
    pub scores: Seq<Seq<i64>>,
}

impl TrackModel {
    /// The track without chromosomes.
    pub open spec fn empty() -> TrackModel {
        TrackModel { resolution: 0, names: Seq::empty(), starts: Seq::empty(), scores: Seq::empty() }
    }

    /// Whether a bin from `start` on would begin before the last bin of the
    /// chromosome `name` ends.
    pub open spec fn overlaps(self, name: Seq<u8>, start: usize) -> bool {
        exists|c: int|
            0 <= c < self.names.len() && #[trigger] self.names[c] == name && self.starts[c].len()
                > 0 && start < self.starts[c].last() + self.resolution
    }

    /// Why the bin `start..end` of chromosome `name`, read from line `line`,
    /// cannot be appended; `None` where it can.
    pub open spec fn refusal(self, name: Seq<u8>, start: usize, end: usize, line: usize) -> Option<
        TrackError,
    > {
        if self.names.len() == 0 {
            if end <= start {
                Some(TrackError::MalformedLine { line })
            } else {
                None
            }
        } else if self.overlaps(name, start) {
            Some(TrackError::MalformedOrder { line })
        } else if end - start != self.resolution {
            Some(TrackError::InconsistentResolution { line })
        } else {
            None
        }
    }

    /// The track with one more bin at the end of the chromosome `name`, which
    /// comes after the others where the track did not have it.
    pub open spec fn pushed(self, name: Seq<u8>, start: usize, end: usize, score: i64) -> TrackModel {
        if self.names.contains(name) {
            let c = self.names.index_of(name);
            TrackModel {
                resolution: (end - start) as usize,
                names: self.names,
                starts: self.starts.update(c, self.starts[c].push(start)),
                scores: self.scores.update(c, self.scores[c].push(score)),
            }
        } else {
            TrackModel {
                resolution: (end - start) as usize,
                names: self.names.push(name),
                starts: self.starts.push(seq![start]),
                scores: self.scores.push(seq![score]),
            }
        }
    }
}

/// The columns of a table as sequences.
pub open spec fn columns<T>(v: Seq<Vec<T>>) -> Seq<Seq<T>> {
    Seq::new(v.len(), |c: int| v[c]@)
}

/// Compares two byte strings.
pub fn bytes_eq(a: &Vec<u8>, b: &Vec<u8>) -> (r: bool)
    ensures
        r == (a@ == b@),
{
    if a.len() != b.len() {
        return false;
    }
    let mut k: usize = 0;
    while k < a.len()
        invariant
            a.len() == b.len(),
            k <= a.len(),
            forall|j: int| 0 <= j < k ==> a@[j] == b@[j],
        decreases a.len() - k,
    {
        if a[k] != b[k] {
            return false;
        }
        k = k + 1;
    }
    assert(a@ =~= b@);
    true
}

impl Track {
    /// The chromosome names, in the order in which they were first seen.
    pub open spec fn names(&self) -> Seq<Seq<u8>> {
        columns(self.names@)
    }

    /// The bin starts of each chromosome.
    pub open spec fn starts(&self) -> Seq<Seq<usize>> {
        columns(self.starts@)
    }

    /// The scores of each chromosome.
    pub open spec fn scores(&self) -> Seq<Seq<i64>> {
        columns(self.scores@)
    }

    /// Bin `i` of chromosome `c`.
    pub open spec fn bin_at(&self, c: int, i: int) -> Bin {
        Bin {
            start: self.starts()[c][i],
            end: (self.starts()[c][i] + self.resolution) as usize,
            score: self.scores()[c][i],
        }
    }

    /// The invariant of a track: one column of starts and one of scores for
    /// each name, no name twice, a positive bin width once there is a
    /// chromosome, and within a chromosome no bin that starts before the one
    /// before it ends.
    pub open spec fn wf(&self) -> bool {
        &&& self.starts().len() == self.names().len()
        &&& self.scores().len() == self.names().len()
        &&& self.names().len() > 0 ==> self.resolution > 0
        &&& forall|c: int|
            0 <= c < self.names().len() ==> (#[trigger] self.starts()[c]).len()
                == self.scores()[c].len()
        &&& forall|c: int, d: int|
            0 <= c < d < self.names().len() ==> #[trigger] self.names()[c]
                != #[trigger] self.names()[d]
        &&& forall|c: int, i: int|
            0 <= c < self.names().len() && 0 <= i < self.starts()[c].len() ==> (
            #[trigger] self.starts()[c][i]) + self.resolution <= usize::MAX
        &&& forall|c: int, i: int|
            0 <= c < self.names().len() && 0 < i < self.starts()[c].len() ==> self.starts()[c][i
                - 1] + self.resolution <= #[trigger] self.starts()[c][i]
    }

    /// Every bin of a track is as wide as the track's resolution, and no bin
    /// of a chromosome starts before the bin before it ends.
    pub proof fn lemma_bins_uniform(&self, c: int, i: int)
        requires
            self.wf(),
            0 <= c < self.names().len(),
            0 <= i < self.starts()[c].len(),
        ensures
            self.bin_at(c, i).end - self.bin_at(c, i).start == self.resolution,
            self.resolution > 0,
            i > 0 ==> self.bin_at(c, i - 1).end <= self.bin_at(c, i).start,
    {
        if i > 0 {
            assert(self.starts()[c][i - 1] + self.resolution <= self.starts()[c][i]);
        }
    }

    /// What the track holds.
    pub open spec fn model(&self) -> TrackModel {
        TrackModel {
            resolution: self.resolution,
            names: self.names(),
            starts: self.starts(),
            scores: self.scores(),
        }
    }

    /// A track without chromosomes.
    pub fn new() -> (t: Track)
        ensures
            t.wf(),
            t.model() == TrackModel::empty(),
    {
        let t = Track { resolution: 0, names: Vec::new(), starts: Vec::new(), scores: Vec::new() };
        assert(t.names() =~= Seq::<Seq<u8>>::empty());
        assert(t.starts() =~= Seq::<Seq<usize>>::empty());
        assert(t.scores() =~= Seq::<Seq<i64>>::empty());
        t
    }

    /// The number of chromosomes.
    pub fn chromosome_count(&self) -> (n: usize)
        ensures
            n == self.names().len(),
    {
        self.names.len()
    }

    /// The common width of the bins.
    pub fn get_resolution(&self) -> (r: usize)
        ensures
            r == self.resolution,
    {
        self.resolution
    }

    /// The name of chromosome `c`.
    pub fn chromosome_name(&self, c: usize) -> (name: &Vec<u8>)
        requires
            c < self.names().len(),
        ensures
            name@ == self.names()[c as int],
    {
        &self.names[c]
    }

    /// The number of bins of chromosome `c`.
    pub fn chromosome_len(&self, c: usize) -> (n: usize)
        requires
            c < self.scores().len(),
        ensures
            n == self.scores()[c as int].len(),
    {
        self.scores[c].len()
    }

    /// Bin `i` of chromosome `c`; it is as wide as the track's resolution.
    pub fn bin(&self, c: usize, i: usize) -> (b: Bin)
        requires
            self.wf(),
            c < self.names().len(),
            i < self.scores()[c as int].len(),
        ensures
            b == self.bin_at(c as int, i as int),
            b.end - b.start == self.resolution,
    {
        assert(self.starts()[c as int].len() == self.scores()[c as int].len());
        let start: usize = self.starts[c][i];
        assert(start == self.starts()[c as int][i as int]);
        Bin { start, end: start + self.resolution, score: self.scores[c][i] }
    }

    /// The chromosome that carries `name`, if there is one.
    pub fn find_chromosome(&self, name: &Vec<u8>) -> (r: Option<usize>)
        ensures
            match r {
                Some(c) => c < self.names().len() && self.names()[c as int] == name@,
                None => forall|c: int|
                    0 <= c < self.names().len() ==> #[trigger] self.names()[c] != name@,
            },
    {
        let mut c: usize = 0;
        while c < self.names.len()
            invariant
                c <= self.names.len(),
                forall|k: int| 0 <= k < c ==> #[trigger] self.names()[k] != name@,
            decreases self.names.len() - c,
        {
            if bytes_eq(&self.names[c], name) {
                return Some(c);
            }
            c = c + 1;
        }
        None
    }

    /// Appends the bin `start..end` with `score` to the chromosome `name`,
    /// which is added after the others where the track does not have it yet.
    /// The first bin of a track sets its resolution. A bin that `refusal`
    /// names an error for leaves the track as it was.
    pub fn push_bin(&mut self, name: &Vec<u8>, start: usize, end: usize, score: i64, line: usize) -> (r:
        Result<(), TrackError>)
        requires
            old(self).wf(),
        ensures
            final(self).wf(),
            match old(self).model().refusal(name@, start, end, line) {
                Some(e) => r == Err::<(), TrackError>(e) && *final(self) == *old(self),
                None => r is Ok && final(self).model() == old(self).model().pushed(
                    name@,
                    start,
                    end,
                    score,
                ),
            },
    {
        let first: bool = self.names.len() == 0;
        if first && end <= start {
            return Err(TrackError::MalformedLine { line });
        }
        let found: Option<usize> = self.find_chromosome(name);
        if !first {
            match found {
                Some(c) => {
                    assert(self.starts()[c as int].len() == self.scores()[c as int].len());
                    let n: usize = self.starts[c].len();
                    if n > 0 {
                        let last: usize = self.starts[c][n - 1];
                        assert(last == self.starts()[c as int][n - 1]);
                        if start < last + self.resolution {
                            assert(self.model().overlaps(name@, start));
                            return Err(TrackError::MalformedOrder { line });
                        }
                    }
                },
                None => {},
            }
            assert(!self.model().overlaps(name@, start));
            if end < start || end - start != self.resolution {
                return Err(TrackError::InconsistentResolution { line });
            }
        } else {
            self.resolution = end - start;
        }
        match found {
            Some(c) => {
                self.starts[c].push(start);
                self.scores[c].push(score);
                assert(old(self).names().contains(name@));
                assert(old(self).names().index_of(name@) == c);
                assert(self.names() =~= old(self).names());
                assert(self.starts() =~= old(self).starts().update(
                    c as int,
                    old(self).starts()[c as int].push(start),
                ));
                assert(self.scores() =~= old(self).scores().update(
                    c as int,
                    old(self).scores()[c as int].push(score),
                ));
            },
            None => {
                let mut label: Vec<u8> = Vec::new();
                let mut k: usize = 0;
                while k < name.len()
                    invariant
                        k <= name.len(),
                        label@ == name@.subrange(0, k as int),
                    decreases name.len() - k,
                {
                    label.push(name[k]);
                    assert(label@ =~= name@.subrange(0, k + 1));
                    k = k + 1;
                }
                assert(label@ =~= name@);
                let mut col_starts: Vec<usize> = Vec::new();
                col_starts.push(start);
                let mut col_scores: Vec<i64> = Vec::new();
                col_scores.push(score);
                self.names.push(label);
                self.starts.push(col_starts);
                self.scores.push(col_scores);
                assert(self.names() =~= old(self).names().push(name@));
                assert(self.starts() =~= old(self).starts().push(seq![start]));
                assert(self.scores() =~= old(self).scores().push(seq![score]));
                assert(!old(self).names().contains(name@));
            },
        }
        Ok(())
    }

    /// Whether some chromosome is without bins.
    pub open spec fn has_empty_chromosome(&self) -> bool {
        exists|c: int| 0 <= c < self.scores().len() && (#[trigger] self.scores()[c]).len() == 0
    }

    /// Rolls a statistic over every chromosome: the window of `window_bp`
    /// base pairs is resolved to an odd number of bins, and each score is
    /// replaced by the statistic of the window round its bin. Names, starts
    /// and resolution stay.
    pub fn roll(self, window_bp: usize, circular: bool, kind: StatKind) -> (r: Result<
        Track,
        TrackError,
    >)
        requires
            self.wf(),
        ensures
            self.has_empty_chromosome() <==> r == Err::<Track, TrackError>(
                TrackError::EmptyChromosome,
            ),
            !self.has_empty_chromosome() <==> r is Ok,
            r is Ok ==> {
                let t = r->Ok_0;
                let h = half_width(window_bins(window_bp as int, self.resolution as int));
                let boundary = if circular {
                    Boundary::Circular
                } else {
                    Boundary::Linear
                };
                &&& t.wf()
                &&& printable(self.model()) ==> printable(t.model())
                &&& t.resolution == self.resolution
                &&& t.names() == self.names()
                &&& t.starts() == self.starts()
                &&& t.scores().len() == self.scores().len()
                &&& forall|c: int|
                    0 <= c < self.scores().len() ==> (#[trigger] t.scores()[c]).len()
                        == self.scores()[c].len()
                &&& forall|c: int, i: int|
                    0 <= c < self.scores().len() && 0 <= i < self.scores()[c].len()
                        ==> #[trigger] t.scores()[c][i] == rolled(
                        self.scores()[c],
                        i,
                        h,
                        boundary,
                        kind,
                    )
            },
    {
        let boundary: Boundary = if circular {
            Boundary::Circular
        } else {
            Boundary::Linear
        };
        if self.names.len() == 0 {
            return Ok(self);
        }
        proof {
            lemma_window_bins_odd(window_bp as int, self.resolution as int);
        }
        let w: usize = match resolve_window(window_bp, self.resolution) {
            Ok(w) => w,
            Err(e) => {
                return Err(e);
            },
        };
        let mut out: Vec<Vec<i64>> = Vec::new();
        let mut c: usize = 0;
        while c < self.scores.len()
            invariant
                c <= self.scores.len(),
                w % 2 == 1,
                out@.len() == c,
                forall|k: int| 0 <= k < c ==> self.scores()[k].len() > 0,
                forall|k: int|
                    0 <= k < c ==> (#[trigger] out@[k])@.len() == self.scores()[k].len(),
                forall|k: int, i: int|
                    0 <= k < c && 0 <= i < self.scores()[k].len() ==> #[trigger] out@[k]@[i]
                        == rolled(self.scores()[k], i, (w - 1) / 2, boundary, kind),
            decreases self.scores.len() - c,
        {
            match roll_scores(&self.scores[c], w, boundary, kind) {
                Ok(col) => {
                    out.push(col);
                },
                Err(e) => {
                    assert(self.scores()[c as int].len() == 0);
                    return Err(TrackError::EmptyChromosome);
                },
            }
            c = c + 1;
        }
        let t = Track { resolution: self.resolution, names: self.names, starts: self.starts, scores: out };
        assert(t.scores().len() == self.scores().len());
        proof {
            if printable(self.model()) {
                lemma_printable_by_topology(self.model(), t.model());
            }
        }
        Ok(t)
    }
}

} // verus!
