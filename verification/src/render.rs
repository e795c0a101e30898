use vstd::prelude::*;
use crate::error::TrackError;
use crate::parse::parsed;
use crate::roundtrip::{lemma_round_trip, printable};
use crate::track::{columns, Track, TrackModel};

verus! {

/// The decimal digit for `d`.
pub open spec fn digit(d: int) -> u8 {
    (48 + d) as u8
}

/// A number in decimal digits, without leading zeros.
pub open spec fn decimal(n: nat) -> Seq<u8>
    decreases n,
{
    if n < 10 {
        seq![digit(n as int)]
    } else {
        decimal(n / 10).push(digit(n as int % 10))
    }
}

/// The last `k` decimal digits of a number, with leading zeros.
pub open spec fn padded(n: nat, k: nat) -> Seq<u8>
    decreases k,
{
    if k == 0 {
        Seq::empty()
    } else {
        padded(n / 10, (k - 1) as nat).push(digit(n as int % 10))
    }
}

/// The size of a score, its sign left out.
pub open spec fn magnitude(x: i64) -> nat {
    if x < 0 {
        (-x) as nat
    } else {
        x as nat
    }
}

/// The sign of a score: a minus for a negative score, else nothing.
pub open spec fn sign_text(x: i64) -> Seq<u8> {
    if x < 0 {
        seq![45u8]
    } else {
        Seq::empty()
    }
}

/// A score as text: the units, a point, and all six digits of the
/// millionths, so that no part of the score is lost.
pub open spec fn score_text(x: i64) -> Seq<u8> {
    sign_text(x) + decimal(magnitude(x) / 1_000_000) + seq![46u8] + padded(
        magnitude(x) % 1_000_000,
        6,
    )
}

/// The line of one bin: chromosome, start, end and score, parted by tabs.
pub open spec fn bin_line(name: Seq<u8>, start: nat, end: nat, score: i64) -> Seq<u8> {
    name + seq![9u8] + decimal(start) + seq![9u8] + decimal(end) + seq![9u8] + score_text(score)
}

/// The lines of chromosome `c`, one for each bin, by position.
pub open spec fn chromosome_lines(m: TrackModel, c: int) -> Seq<Seq<u8>> {
    Seq::new(
        m.starts[c].len(),
        |i: int|
            bin_line(
                m.names[c],
                m.starts[c][i] as nat,
                (m.starts[c][i] + m.resolution) as nat,
                m.scores[c][i],
            ),
    )
}

/// The lines of the first `c` chromosomes.
pub open spec fn rendered_upto(m: TrackModel, c: nat) -> Seq<Seq<u8>>
    decreases c,
{
    if c == 0 {
        Seq::empty()
    } else {
        rendered_upto(m, (c - 1) as nat) + chromosome_lines(m, c - 1)
    }
}

/// The lines of a track: chromosome after chromosome, each by position.
pub open spec fn rendered(m: TrackModel) -> Seq<Seq<u8>> {
    rendered_upto(m, m.names.len())
}

/// Appends a number in decimal digits.
pub fn push_decimal(out: &mut Vec<u8>, n: u64)
    ensures
        final(out)@ == old(out)@ + decimal(n as nat),
    decreases n,
{
    if n < 10 {
        out.push(48 + n as u8);
        assert(out@ =~= old(out)@ + decimal(n as nat));
    } else {
        push_decimal(out, n / 10);
        out.push(48 + (n % 10) as u8);
        assert(out@ =~= old(out)@ + decimal(n as nat));
    }
}

/// Appends the last `k` decimal digits of a number.
pub fn push_padded(out: &mut Vec<u8>, n: u64, k: usize)
    ensures
        final(out)@ == old(out)@ + padded(n as nat, k as nat),
    decreases k,
{
    if k == 0 {
        assert(out@ =~= old(out)@ + padded(n as nat, k as nat));
    } else {
        push_padded(out, n / 10, k - 1);
        out.push(48 + (n % 10) as u8);
        assert(out@ =~= old(out)@ + padded(n as nat, k as nat));
    }
}

/// Appends a score as text.
pub fn push_score(out: &mut Vec<u8>, x: i64)
    ensures
        final(out)@ == old(out)@ + score_text(x),
{
    let size: u64 = if x < 0 {
        out.push(45);
        (-(x as i128)) as u64
    } else {
        x as u64
    };
    assert(size == magnitude(x));
    assert(out@ =~= old(out)@ + sign_text(x));
    push_decimal(out, size / 1_000_000);
    out.push(46);
    push_padded(out, size % 1_000_000, 6);
    assert(out@ =~= old(out)@ + score_text(x));
}

/// Appends bytes.
pub fn push_bytes(out: &mut Vec<u8>, bytes: &Vec<u8>)
    ensures
        final(out)@ == old(out)@ + bytes@,
{
    let mut i: usize = 0;
    while i < bytes.len()
        invariant
            i <= bytes.len(),
            out@ == old(out)@ + bytes@.subrange(0, i as int),
        decreases bytes.len() - i,
    {
        out.push(bytes[i]);
        assert(out@ =~= old(out)@ + bytes@.subrange(0, i + 1));
        i = i + 1;
    }
    assert(bytes@.subrange(0, bytes.len() as int) =~= bytes@);
}

/// The line of one bin.
pub fn render_bin(name: &Vec<u8>, start: usize, end: usize, score: i64) -> (line: Vec<u8>)
    ensures
        line@ == bin_line(name@, start as nat, end as nat, score),
{
    let mut out: Vec<u8> = Vec::new();
    push_bytes(&mut out, name);
    out.push(9);
    push_decimal(&mut out, start as u64);
    out.push(9);
    push_decimal(&mut out, end as u64);
    out.push(9);
    push_score(&mut out, score);
    assert(out@ =~= bin_line(name@, start as nat, end as nat, score));
    out
}

impl Track {
    /// The track as lines of text, one for each bin: chromosome after
    /// chromosome in the order in which they were first seen, each by
    /// position. The lines of a track that can be written in full read back
    /// as that track.
    pub fn render(&self) -> (lines: Vec<Vec<u8>>)
        requires
            self.wf(),
        ensures
            columns(lines@) == rendered(self.model()),
            printable(self.model()) ==> parsed(columns(lines@)) == Ok::<TrackModel, TrackError>(
                self.model(),
            ),
    {
        proof {
            if printable(self.model()) {
                lemma_round_trip(self.model());
            }
        }
        let ghost m = self.model();
        let mut out: Vec<Vec<u8>> = Vec::new();
        let mut c: usize = 0;
        assert(columns(out@) =~= rendered_upto(m, 0));
        while c < self.names.len()
            invariant
                self.wf(),
                m == self.model(),
                c <= self.names.len(),
                columns(out@) == rendered_upto(m, c as nat),
            decreases self.names.len() - c,
        {
            let ghost before = columns(out@);
            assert(self.starts()[c as int].len() == self.scores()[c as int].len());
            let n: usize = self.starts[c].len();
            let mut i: usize = 0;
            assert(columns(out@) =~= before + chromosome_lines(m, c as int).subrange(0, 0));
            while i < n
                invariant
                    self.wf(),
                    m == self.model(),
                    c < self.names.len(),
                    n == self.starts()[c as int].len(),
                    n == self.scores()[c as int].len(),
                    i <= n,
                    columns(out@) == before + chromosome_lines(m, c as int).subrange(0, i as int),
                decreases n - i,
            {
                let start: usize = self.starts[c][i];
                assert(start == self.starts()[c as int][i as int]);
                let line: Vec<u8> = render_bin(
                    &self.names[c],
                    start,
                    start + self.resolution,
                    self.scores[c][i],
                );
                let ghost prior = columns(out@);
                assert(self.names[c as int]@ == m.names[c as int]);
                assert(self.scores[c as int]@[i as int] == m.scores[c as int][i as int]);
                assert(line@ == chromosome_lines(m, c as int)[i as int]);
                out.push(line);
                assert(columns(out@) =~= prior.push(line@));
                assert(columns(out@) =~= before + chromosome_lines(m, c as int).subrange(
                    0,
                    i + 1,
                ));
                i = i + 1;
            }
            assert(chromosome_lines(m, c as int).subrange(0, n as int) =~= chromosome_lines(
                m,
                c as int,
            ));
            c = c + 1;
        }
        out
    }
}

} // verus!
