use vstd::prelude::*;
use crate::parse::{
    all_digits, coordinate, digits_value, field, field_start, first_dot, fraction_part, is_blank,
    is_digit, kept_fraction, line_fault, natural, pow10, score_of, skip_blanks, skip_field,
    unsigned_micros, unsigned_part, whole_part,
};
use crate::parse::parsed;
use crate::render::{
    bin_line, chromosome_lines, decimal, digit, magnitude, padded, rendered, rendered_upto,
    score_text, sign_text,
};
use crate::error::TrackError;
use crate::track::TrackModel;

verus! {

/// Whether a text holds a byte and no blank.
pub open spec fn is_word(s: Seq<u8>) -> bool {
    s.len() > 0 && forall|k: int| 0 <= k < s.len() ==> !is_blank(#[trigger] s[k])
}

/// A number written in decimal digits reads back as itself.
pub proof fn lemma_decimal_reads_back(n: nat)
    ensures
        decimal(n).len() > 0,
        all_digits(decimal(n)),
        digits_value(decimal(n)) == n,
    decreases n,
{
    reveal_with_fuel(digits_value, 2);
    if n >= 10 {
        lemma_decimal_reads_back(n / 10);
        let d = decimal(n / 10);
        assert(decimal(n).drop_last() =~= d);
        assert(decimal(n).last() == digit(n as int % 10));
        assert forall|i: int| 0 <= i < decimal(n).len() implies is_digit(#[trigger] decimal(n)[i]) by {
            if i < d.len() {
                assert(decimal(n)[i] == d[i]);
            }
        }
    } else {
        assert(decimal(n).drop_last() =~= Seq::<u8>::empty());
    }
}

/// A number below ten to the `k` written in `k` digits reads back as itself.
pub proof fn lemma_padded_reads_back(n: nat, k: nat)
    requires
        n < pow10(k),
    ensures
        padded(n, k).len() == k,
        all_digits(padded(n, k)),
        digits_value(padded(n, k)) == n,
    decreases k,
{
    if k > 0 {
        lemma_padded_reads_back(n / 10, (k - 1) as nat);
        let d = padded(n / 10, (k - 1) as nat);
        assert(padded(n, k).drop_last() =~= d);
        assert(padded(n, k).last() == digit(n as int % 10));
        assert forall|i: int| 0 <= i < padded(n, k).len() implies is_digit(
            #[trigger] padded(n, k)[i],
        ) by {
            if i < d.len() {
                assert(padded(n, k)[i] == d[i]);
            }
        }
    }
}

/// A field runs on to the first blank.
pub proof fn lemma_field_runs(s: Seq<u8>, i: int, e: int)
    requires
        0 <= i <= e <= s.len(),
        forall|k: int| i <= k < e ==> !is_blank(#[trigger] s[k]),
        e == s.len() || is_blank(s[e]),
    ensures
        skip_field(s, i) == e,
    decreases e - i,
{
    if i < e {
        lemma_field_runs(s, i + 1, e);
    }
}

/// The whole part of a decimal number runs on to the first point.
pub proof fn lemma_whole_runs(s: Seq<u8>, i: int, e: int)
    requires
        0 <= i <= e <= s.len(),
        forall|k: int| i <= k < e ==> #[trigger] s[k] != 46,
        e == s.len() || s[e] == 46,
    ensures
        first_dot(s, i) == e,
    decreases e - i,
{
    if i < e {
        lemma_whole_runs(s, i + 1, e);
    }
}

/// Four words parted by single tabs are the four fields of the line.
pub proof fn lemma_fields_of_words(a: Seq<u8>, b: Seq<u8>, c: Seq<u8>, d: Seq<u8>)
    requires
        is_word(a),
        is_word(b),
        is_word(c),
        is_word(d),
    ensures
        ({
            let s = a + seq![9u8] + b + seq![9u8] + c + seq![9u8] + d;
            &&& field(s, 0) == a
            &&& field(s, 1) == b
            &&& field(s, 2) == c
            &&& field(s, 3) == d
        }),
{
    let s = a + seq![9u8] + b + seq![9u8] + c + seq![9u8] + d;
    let a0: int = 0;
    let a1 = a.len() as int;
    let b0 = a1 + 1;
    let b1 = b0 + b.len();
    let c0 = b1 + 1;
    let c1 = c0 + c.len();
    let d0 = c1 + 1;
    let d1 = d0 + d.len();
    assert(s.len() == d1);
    assert forall|k: int| a0 <= k < a1 implies !is_blank(#[trigger] s[k]) by {
        assert(s[k] == a[k]);
    }
    assert forall|k: int| b0 <= k < b1 implies !is_blank(#[trigger] s[k]) by {
        assert(s[k] == b[k - b0]);
    }
    assert forall|k: int| c0 <= k < c1 implies !is_blank(#[trigger] s[k]) by {
        assert(s[k] == c[k - c0]);
    }
    assert forall|k: int| d0 <= k < d1 implies !is_blank(#[trigger] s[k]) by {
        assert(s[k] == d[k - d0]);
    }
    assert(s[a1] == 9 && s[b1] == 9 && s[c1] == 9);
    assert(!is_blank(s[a0]) && !is_blank(s[b0]) && !is_blank(s[c0]) && !is_blank(s[d0]));
    reveal_with_fuel(skip_blanks, 3);
    reveal_with_fuel(field_start, 5);
    lemma_field_runs(s, a0, a1);
    lemma_field_runs(s, b0, b1);
    lemma_field_runs(s, c0, c1);
    lemma_field_runs(s, d0, d1);
    assert(skip_blanks(s, 0) == a0);
    assert(skip_blanks(s, a1) == b0);
    assert(skip_blanks(s, b1) == c0);
    assert(skip_blanks(s, c1) == d0);
    assert(field_start(s, 0) == a0);
    assert(field_start(s, 1) == b0);
    assert(field_start(s, 2) == c0);
    assert(field_start(s, 3) == d0);
    assert(s.subrange(a0, a1) =~= a);
    assert(s.subrange(b0, b1) =~= b);
    assert(s.subrange(c0, c1) =~= c);
    assert(s.subrange(d0, d1) =~= d);
}

/// A score written as text is one word, and reads back as itself.
pub proof fn lemma_score_reads_back(x: i64)
    ensures
        is_word(score_text(x)),
        score_of(score_text(x)) == Some(x),
{
    let a = magnitude(x);
    let q = a / 1_000_000;
    let r = a % 1_000_000;
    let w = decimal(q);
    let f = padded(r, 6);
    let body = w + seq![46u8] + f;
    let text = score_text(x);
    reveal_with_fuel(pow10, 8);
    lemma_decimal_reads_back(q);
    lemma_padded_reads_back(r, 6);
    assert(text =~= sign_text(x) + body);
    assert forall|k: int| 0 <= k < body.len() implies (is_digit(#[trigger] body[k]) || body[k]
        == 46) by {
        if k < w.len() {
            assert(body[k] == w[k]);
        } else if k > w.len() {
            assert(body[k] == f[k - w.len() - 1]);
        }
    }
    assert(is_digit(body[0])) by {
        assert(body[0] == w[0]);
    }
    if x < 0 {
        assert(text[0] == 45);
        assert(text.subrange(1, text.len() as int) =~= body);
        assert forall|k: int| 0 <= k < text.len() implies !is_blank(#[trigger] text[k]) by {
            if k > 0 {
                assert(text[k] == body[k - 1]);
            }
        }
    } else {
        assert(text =~= body);
    }
    assert(unsigned_part(text) == body);
    assert forall|k: int| 0 <= k < w.len() implies #[trigger] body[k] != 46 by {
        assert(body[k] == w[k]);
    }
    assert(body[w.len() as int] == 46);
    lemma_whole_runs(body, 0, w.len() as int);
    assert(whole_part(body) =~= w);
    assert(fraction_part(body) =~= f);
    assert(kept_fraction(f) == f);
    assert(unsigned_micros(body) == Some(q * 1_000_000 + r * pow10(0)));
    assert(q * 1_000_000 + r == a);
}

/// The line written for a bin reads back as that bin: no fault is found in
/// it, and its four fields give the chromosome, the coordinates and the
/// score that were written.
pub proof fn lemma_line_reads_back(name: Seq<u8>, start: usize, end: usize, score: i64, line: usize)
    requires
        is_word(name),
    ensures
        ({
            let s = bin_line(name, start as nat, end as nat, score);
            &&& line_fault(s, line) is None
            &&& field(s, 0) == name
            &&& coordinate(field(s, 1)) == Some(start)
            &&& coordinate(field(s, 2)) == Some(end)
            &&& score_of(field(s, 3)) == Some(score)
        }),
{
    lemma_decimal_reads_back(start as nat);
    lemma_decimal_reads_back(end as nat);
    lemma_score_reads_back(score);
    assert(is_word(decimal(start as nat))) by {
        assert forall|k: int| 0 <= k < decimal(start as nat).len() implies !is_blank(
            #[trigger] decimal(start as nat)[k],
        ) by {
            assert(is_digit(decimal(start as nat)[k]));
        }
    }
    assert(is_word(decimal(end as nat))) by {
        assert forall|k: int| 0 <= k < decimal(end as nat).len() implies !is_blank(
            #[trigger] decimal(end as nat)[k],
        ) by {
            assert(is_digit(decimal(end as nat)[k]));
        }
    }
    lemma_fields_of_words(name, decimal(start as nat), decimal(end as nat), score_text(score));
}

/// What a track must be like for its lines to describe it in full: a valid
/// track whose chromosomes each have a bin and a name without blanks, and
/// whose resolution is zero where it has no chromosome. Every track that is
/// read from lines is like that, whatever is then done to its scores.
pub open spec fn printable(m: TrackModel) -> bool {
    &&& m.starts.len() == m.names.len()
    &&& m.scores.len() == m.names.len()
    &&& m.names.len() > 0 ==> m.resolution > 0
    &&& m.names.len() == 0 ==> m.resolution == 0
    &&& forall|c: int| 0 <= c < m.names.len() ==> is_word(#[trigger] m.names[c])
    &&& forall|c: int|
        0 <= c < m.names.len() ==> (#[trigger] m.starts[c]).len() == m.scores[c].len()
            && m.starts[c].len() > 0
    &&& forall|c: int, d: int|
        0 <= c < d < m.names.len() ==> #[trigger] m.names[c] != #[trigger] m.names[d]
    &&& forall|c: int, i: int|
        0 <= c < m.names.len() && 0 <= i < m.starts[c].len() ==> (#[trigger] m.starts[c][i])
            + m.resolution <= usize::MAX
    &&& forall|c: int, i: int|
        0 <= c < m.names.len() && 0 < i < m.starts[c].len() ==> m.starts[c][i - 1] + m.resolution
            <= #[trigger] m.starts[c][i]
}

/// The lines of the first `c` chromosomes and of the first `i` bins of the
/// next.
pub open spec fn lines_upto(m: TrackModel, c: nat, i: nat) -> Seq<Seq<u8>> {
    rendered_upto(m, c) + chromosome_lines(m, c as int).subrange(0, i as int)
}

/// The track of the first `c` chromosomes and of the first `i` bins of the
/// next.
pub open spec fn prefix_model(m: TrackModel, c: nat, i: nat) -> TrackModel {
    if i == 0 {
        TrackModel {
            resolution: if c == 0 {
                0
            } else {
                m.resolution
            },
            names: m.names.subrange(0, c as int),
            starts: m.starts.subrange(0, c as int),
            scores: m.scores.subrange(0, c as int),
        }
    } else {
        TrackModel {
            resolution: m.resolution,
            names: m.names.subrange(0, c as int + 1),
            starts: m.starts.subrange(0, c as int).push(m.starts[c as int].subrange(0, i as int)),
            scores: m.scores.subrange(0, c as int).push(m.scores[c as int].subrange(0, i as int)),
        }
    }
}

/// Appending bin `i` of chromosome `c` to the track before it is not refused
/// and gives the track with that bin.
pub proof fn lemma_prefix_grows(m: TrackModel, c: nat, i: nat, line: usize)
    requires
        printable(m),
        c < m.names.len(),
        i < m.starts[c as int].len(),
    ensures
        ({
            let before = prefix_model(m, c, i);
            let start = m.starts[c as int][i as int];
            let end = (start + m.resolution) as usize;
            &&& before.refusal(m.names[c as int], start, end, line) is None
            &&& before.pushed(m.names[c as int], start, end, m.scores[c as int][i as int])
                == prefix_model(m, c, i + 1)
        }),
{
    let ci = c as int;
    let ii = i as int;
    let before = prefix_model(m, c, i);
    let after = prefix_model(m, c, i + 1);
    let name = m.names[ci];
    let start = m.starts[ci][ii];
    let end = (start + m.resolution) as usize;
    let score = m.scores[ci][ii];
    assert(m.starts[ci].len() == m.scores[ci].len());
    assert(start + m.resolution <= usize::MAX);
    if i == 0 {
        assert forall|k: int| 0 <= k < before.names.len() implies #[trigger] before.names[k]
            != name by {
            assert(before.names[k] == m.names[k]);
        }
        assert(!before.names.contains(name));
        assert(!before.overlaps(name, start));
        let pushed = before.pushed(name, start, end, score);
        assert(pushed.names =~= after.names);
        assert(m.starts[ci].subrange(0, 1) =~= seq![start]);
        assert(m.scores[ci].subrange(0, 1) =~= seq![score]);
        assert(pushed.starts =~= after.starts);
        assert(pushed.scores =~= after.scores);
    } else {
        assert(before.names.len() == c + 1);
        assert(before.names[ci] == name);
        assert(before.names.contains(name));
        let k = before.names.index_of(name);
        assert(0 <= k < before.names.len() && before.names[k] == name);
        assert(before.names[k] == m.names[k]);
        assert(k == ci);
        assert(before.starts[ci] == m.starts[ci].subrange(0, ii));
        assert(before.starts[ci].last() == m.starts[ci][ii - 1]);
        assert(m.starts[ci][ii - 1] + m.resolution <= m.starts[ci][ii]);
        assert(!before.overlaps(name, start)) by {
            assert forall|d: int|
                0 <= d < before.names.len() && #[trigger] before.names[d] == name
                    && before.starts[d].len() > 0 implies !(start < before.starts[d].last()
                + before.resolution) by {
                assert(before.names[d] == m.names[d]);
                assert(d == ci);
            }
        }
        let pushed = before.pushed(name, start, end, score);
        assert(pushed.names =~= after.names);
        assert(m.starts[ci].subrange(0, ii).push(start) =~= m.starts[ci].subrange(0, ii + 1));
        assert(m.scores[ci].subrange(0, ii).push(score) =~= m.scores[ci].subrange(0, ii + 1));
        assert(pushed.starts =~= after.starts);
        assert(pushed.scores =~= after.scores);
    }
}

/// The lines up to a bin are the lines before it and the line of that bin.
pub proof fn lemma_lines_grow(m: TrackModel, c: nat, j: nat)
    requires
        c < m.names.len(),
        j < m.starts[c as int].len(),
    ensures
        lines_upto(m, c, j + 1).len() > 0,
        lines_upto(m, c, j + 1).drop_last() == lines_upto(m, c, j),
        lines_upto(m, c, j + 1).last() == bin_line(
            m.names[c as int],
            m.starts[c as int][j as int] as nat,
            (m.starts[c as int][j as int] + m.resolution) as nat,
            m.scores[c as int][j as int],
        ),
{
    let lines = lines_upto(m, c, j + 1);
    assert(lines.drop_last() =~= lines_upto(m, c, j));
    assert(lines.last() == chromosome_lines(m, c as int)[j as int]);
}

/// With the last bin of a chromosome its lines are complete, and the next
/// chromosome begins.
pub proof fn lemma_chromosome_ends(m: TrackModel, c: nat)
    requires
        printable(m),
        0 < c <= m.names.len(),
    ensures
        lines_upto(m, c, 0) == lines_upto(m, (c - 1) as nat, m.starts[c - 1].len()),
        prefix_model(m, c, 0) == prefix_model(m, (c - 1) as nat, m.starts[c - 1].len()),
{
    let p = (c - 1) as nat;
    let k = m.starts[p as int].len();
    assert(chromosome_lines(m, p as int).subrange(0, k as int) =~= chromosome_lines(m, p as int));
    assert(lines_upto(m, c, 0) =~= lines_upto(m, p, k));
    let pm = prefix_model(m, c, 0);
    let qm = prefix_model(m, p, k);
    assert(m.starts[p as int].len() == m.scores[p as int].len());
    assert(m.starts[p as int].subrange(0, k as int) =~= m.starts[p as int]);
    assert(m.scores[p as int].subrange(0, k as int) =~= m.scores[p as int]);
    assert(pm.names =~= qm.names);
    assert(pm.starts =~= qm.starts);
    assert(pm.scores =~= qm.scores);
}

/// Lines that read as a track, and then the line of a bin that the track
/// does not refuse, read as the track with that bin.
pub proof fn lemma_parsed_grows(
    lines: Seq<Seq<u8>>,
    before: TrackModel,
    name: Seq<u8>,
    start: usize,
    end: usize,
    score: i64,
)
    requires
        lines.len() > 0,
        parsed(lines.drop_last()) == Ok::<TrackModel, TrackError>(before),
        lines.last() == bin_line(name, start as nat, end as nat, score),
        is_word(name),
        before.refusal(name, start, end, lines.len() as usize) is None,
    ensures
        parsed(lines) == Ok::<TrackModel, TrackError>(before.pushed(name, start, end, score)),
{
    lemma_line_reads_back(name, start, end, score, lines.len() as usize);
}

/// The lines of a part of a track read back as that part.
pub proof fn lemma_prefix_reads_back(m: TrackModel, c: nat, i: nat)
    requires
        printable(m),
        c <= m.names.len(),
        c < m.names.len() ==> i <= m.starts[c as int].len(),
        c == m.names.len() ==> i == 0,
    ensures
        parsed(lines_upto(m, c, i)) == Ok::<TrackModel, TrackError>(prefix_model(m, c, i)),
    decreases c, i,
{
    if i == 0 {
        if c == 0 {
            assert(lines_upto(m, c, i) =~= Seq::<Seq<u8>>::empty());
            let pm = prefix_model(m, c, i);
            assert(pm.names =~= Seq::<Seq<u8>>::empty());
            assert(pm.starts =~= Seq::<Seq<usize>>::empty());
            assert(pm.scores =~= Seq::<Seq<i64>>::empty());
        } else {
            lemma_prefix_reads_back(m, (c - 1) as nat, m.starts[c - 1].len());
            lemma_chromosome_ends(m, c);
        }
    } else {
        let j = (i - 1) as nat;
        lemma_prefix_reads_back(m, c, j);
        let lines = lines_upto(m, c, i);
        let start = m.starts[c as int][j as int];
        let end = (start + m.resolution) as usize;
        assert(m.starts[c as int].len() == m.scores[c as int].len());
        assert(start + m.resolution <= usize::MAX);
        lemma_lines_grow(m, c, j);
        lemma_prefix_grows(m, c, j, lines.len() as usize);
        lemma_parsed_grows(
            lines,
            prefix_model(m, c, j),
            m.names[c as int],
            start,
            end,
            m.scores[c as int][j as int],
        );
    }
}

/// Reading the lines that were written for a track gives that track again:
/// the same chromosomes in the same order, the same bins, the same scores to
/// the millionth.
pub proof fn lemma_round_trip(m: TrackModel)
    requires
        printable(m),
    ensures
        parsed(rendered(m)) == Ok::<TrackModel, TrackError>(m),
{
    let n = m.names.len();
    lemma_prefix_reads_back(m, n, 0);
    assert(lines_upto(m, n, 0) =~= rendered(m));
    let pm = prefix_model(m, n, 0);
    assert(pm.names =~= m.names);
    assert(pm.starts =~= m.starts);
    assert(pm.scores =~= m.scores);
    assert(pm == m);
}

/// Past the blanks stands the end of the line or a byte that is no blank.
pub proof fn lemma_blanks_end(s: Seq<u8>, i: int)
    requires
        0 <= i <= s.len(),
    ensures
        i <= skip_blanks(s, i) <= s.len(),
        skip_blanks(s, i) < s.len() ==> !is_blank(s[skip_blanks(s, i)]),
    decreases s.len() - i,
{
    if i < s.len() && is_blank(s[i]) {
        lemma_blanks_end(s, i + 1);
    }
}

/// A field holds no blank.
pub proof fn lemma_field_is_solid(s: Seq<u8>, i: int)
    requires
        0 <= i <= s.len(),
    ensures
        i <= skip_field(s, i) <= s.len(),
        i < s.len() && !is_blank(s[i]) ==> i < skip_field(s, i),
        forall|k: int| i <= k < skip_field(s, i) ==> !is_blank(#[trigger] s[k]),
    decreases s.len() - i,
{
    if i < s.len() && !is_blank(s[i]) {
        lemma_field_is_solid(s, i + 1);
    }
}

/// A line with a fourth field begins with a word: its first field holds a
/// byte and no blank.
pub proof fn lemma_first_field_is_word(s: Seq<u8>)
    requires
        field(s, 3).len() > 0,
    ensures
        is_word(field(s, 0)),
{
    reveal_with_fuel(field_start, 5);
    let n = s.len() as int;
    let a0 = skip_blanks(s, 0);
    lemma_blanks_end(s, 0);
    lemma_field_is_solid(s, a0);
    let b0 = skip_field(s, a0);
    lemma_blanks_end(s, b0);
    let a1 = skip_blanks(s, b0);
    lemma_field_is_solid(s, a1);
    let b1 = skip_field(s, a1);
    lemma_blanks_end(s, b1);
    let a2 = skip_blanks(s, b1);
    lemma_field_is_solid(s, a2);
    let b2 = skip_field(s, a2);
    lemma_blanks_end(s, b2);
    let a3 = skip_blanks(s, b2);
    lemma_field_is_solid(s, a3);
    assert(a1 == field_start(s, 1));
    assert(a2 == field_start(s, 2));
    assert(a3 == field_start(s, 3));
    assert(a0 < n);
    let f = field(s, 0);
    assert forall|k: int| 0 <= k < f.len() implies !is_blank(#[trigger] f[k]) by {
        assert(f[k] == s[a0 + k]);
    }
}

/// A track that can be written in full stays so when a bin is appended that
/// it does not refuse.
pub proof fn lemma_pushed_printable(
    m: TrackModel,
    name: Seq<u8>,
    start: usize,
    end: usize,
    score: i64,
    line: usize,
)
    requires
        printable(m),
        is_word(name),
        m.refusal(name, start, end, line) is None,
    ensures
        printable(m.pushed(name, start, end, score)),
{
    let after = m.pushed(name, start, end, score);
    if m.names.contains(name) {
        let c = m.names.index_of(name);
        assert(0 <= c < m.names.len() && m.names[c] == name);
        assert(m.starts[c].len() == m.scores[c].len() && m.starts[c].len() > 0);
        assert(!m.overlaps(name, start));
        assert(m.starts[c].last() + m.resolution <= start);
        assert(after.resolution == m.resolution);
        assert forall|d: int| 0 <= d < after.names.len() implies (#[trigger] after.starts[d]).len()
            == after.scores[d].len() && after.starts[d].len() > 0 by {
            assert(m.starts[d].len() == m.scores[d].len() && m.starts[d].len() > 0);
        }
        assert forall|d: int, i: int|
            0 <= d < after.names.len() && 0 <= i < after.starts[d].len() implies (
        #[trigger] after.starts[d][i]) + after.resolution <= usize::MAX by {
            if d == c && i == m.starts[c].len() {
            } else {
                assert(after.starts[d][i] == m.starts[d][i]);
            }
        }
        assert forall|d: int, i: int|
            0 <= d < after.names.len() && 0 < i < after.starts[d].len() implies after.starts[d][i
                - 1] + after.resolution <= #[trigger] after.starts[d][i] by {
            if d == c && i == m.starts[c].len() {
                assert(after.starts[d][i - 1] == m.starts[c].last());
            } else {
                assert(after.starts[d][i] == m.starts[d][i]);
                assert(after.starts[d][i - 1] == m.starts[d][i - 1]);
            }
        }
    } else {
        let n = m.names.len() as int;
        assert forall|d: int| 0 <= d < after.names.len() implies is_word(
            #[trigger] after.names[d],
        ) by {
            if d < n {
                assert(after.names[d] == m.names[d]);
            }
        }
        assert forall|d: int| 0 <= d < after.names.len() implies (#[trigger] after.starts[d]).len()
            == after.scores[d].len() && after.starts[d].len() > 0 by {
            if d < n {
                assert(m.starts[d].len() == m.scores[d].len() && m.starts[d].len() > 0);
            }
        }
        assert forall|d: int, e: int| 0 <= d < e < after.names.len() implies #[trigger] after.names[d]
            != #[trigger] after.names[e] by {
            if e < n {
                assert(after.names[d] == m.names[d] && after.names[e] == m.names[e]);
            } else {
                assert(after.names[d] == m.names[d]);
                assert(m.names.contains(m.names[d]));
            }
        }
        assert forall|d: int, i: int|
            0 <= d < after.names.len() && 0 <= i < after.starts[d].len() implies (
        #[trigger] after.starts[d][i]) + after.resolution <= usize::MAX by {
            if d < n {
                assert(after.starts[d][i] == m.starts[d][i]);
            }
        }
        assert forall|d: int, i: int|
            0 <= d < after.names.len() && 0 < i < after.starts[d].len() implies after.starts[d][i
                - 1] + after.resolution <= #[trigger] after.starts[d][i] by {
            if d < n {
                assert(after.starts[d][i] == m.starts[d][i]);
                assert(after.starts[d][i - 1] == m.starts[d][i - 1]);
            }
        }
    }
}

/// Every track that is read from lines can be written in full, so that its
/// lines read back as the same track.
pub proof fn lemma_parsed_printable(lines: Seq<Seq<u8>>)
    ensures
        parsed(lines) is Ok ==> printable(parsed(lines)->Ok_0),
    decreases lines.len(),
{
    if lines.len() > 0 {
        lemma_parsed_printable(lines.drop_last());
        if parsed(lines) is Ok {
            let s = lines.last();
            let line = lines.len() as usize;
            let m = parsed(lines.drop_last())->Ok_0;
            lemma_first_field_is_word(s);
            lemma_pushed_printable(
                m,
                field(s, 0),
                coordinate(field(s, 1))->Some_0,
                coordinate(field(s, 2))->Some_0,
                score_of(field(s, 3))->Some_0,
                line,
            );
        }
    }
}

/// Whether a track can be written in full does not depend on its scores.
pub proof fn lemma_printable_by_topology(m: TrackModel, t: TrackModel)
    requires
        printable(m),
        t.resolution == m.resolution,
        t.names == m.names,
        t.starts == m.starts,
        t.scores.len() == m.scores.len(),
        forall|c: int| 0 <= c < m.scores.len() ==> (#[trigger] t.scores[c]).len() == m.scores[c].len(),
    ensures
        printable(t),
{
    assert forall|c: int| 0 <= c < t.names.len() implies (#[trigger] t.starts[c]).len()
        == t.scores[c].len() && t.starts[c].len() > 0 by {
        assert(m.starts[c].len() == m.scores[c].len() && m.starts[c].len() > 0);
        assert(t.scores[c].len() == m.scores[c].len());
    }
}

} // verus!
