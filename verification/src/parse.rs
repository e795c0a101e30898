use vstd::prelude::*;
use crate::error::TrackError;
use crate::roundtrip::{lemma_parsed_printable, printable};
use crate::track::{Track, TrackModel};

verus! {

/// A blank: a space, or one of the control characters tab to carriage return.
pub open spec fn is_blank(b: u8) -> bool {
    b == 32 || (9 <= b && b <= 13)
}

pub open spec fn is_digit(b: u8) -> bool {
    48 <= b && b <= 57
}

/// The first place from `i` on that holds no blank.
pub open spec fn skip_blanks(s: Seq<u8>, i: int) -> int
    decreases s.len() - i,
{
    if 0 <= i < s.len() && is_blank(s[i]) {
        skip_blanks(s, i + 1)
    } else {
        i
    }
}

/// The first place from `i` on that holds a blank, or the end.
pub open spec fn skip_field(s: Seq<u8>, i: int) -> int
    decreases s.len() - i,
{
    if 0 <= i < s.len() && !is_blank(s[i]) {
        skip_field(s, i + 1)
    } else {
        i
    }
}

/// Where field `k` of a line begins; the end of the line where the line has
/// no such field.
pub open spec fn field_start(s: Seq<u8>, k: nat) -> int
    decreases k,
{
    if k == 0 {
        skip_blanks(s, 0)
    } else {
        skip_blanks(s, skip_field(s, field_start(s, (k - 1) as nat)))
    }
}

/// Field `k` of a line, counted from 0; empty where the line has no such
/// field.
pub open spec fn field(s: Seq<u8>, k: nat) -> Seq<u8> {
    s.subrange(field_start(s, k), skip_field(s, field_start(s, k)))
}

pub open spec fn all_digits(s: Seq<u8>) -> bool {
    forall|i: int| 0 <= i < s.len() ==> is_digit(#[trigger] s[i])
}

/// The number that decimal digits stand for.
pub open spec fn digits_value(s: Seq<u8>) -> int
    decreases s.len(),
{
    if s.len() == 0 {
        0
    } else {
        digits_value(s.drop_last()) * 10 + (s.last() - 48)
    }
}

/// The number that a run of digits stands for, where it fits 64 bits.
pub open spec fn natural(s: Seq<u8>) -> Option<u64> {
    if all_digits(s) && digits_value(s) <= u64::MAX {
        Some(digits_value(s) as u64)
    } else {
        None
    }
}

/// A coordinate: at least one digit and nothing else, within `usize`.
pub open spec fn coordinate(s: Seq<u8>) -> Option<usize> {
    if s.len() > 0 && natural(s) is Some && natural(s)->Some_0 <= usize::MAX {
        Some(natural(s)->Some_0 as usize)
    } else {
        None
    }
}

pub open spec fn pow10(k: nat) -> int
    decreases k,
{
    if k == 0 {
        1
    } else {
        10 * pow10((k - 1) as nat)
    }
}

/// The first place from `i` on that holds a point, or the end.
pub open spec fn first_dot(s: Seq<u8>, i: int) -> int
    decreases s.len() - i,
{
    if 0 <= i < s.len() && s[i] != 46 {
        first_dot(s, i + 1)
    } else {
        i
    }
}

/// The digits before the point.
pub open spec fn whole_part(s: Seq<u8>) -> Seq<u8> {
    s.subrange(0, first_dot(s, 0))
}

/// The digits after the point.
pub open spec fn fraction_part(s: Seq<u8>) -> Seq<u8> {
    if first_dot(s, 0) < s.len() {
        s.subrange(first_dot(s, 0) + 1, s.len() as int)
    } else {
        Seq::empty()
    }
}

/// The first six digits of a fraction.
pub open spec fn kept_fraction(f: Seq<u8>) -> Seq<u8> {
    if f.len() > 6 {
        f.subrange(0, 6)
    } else {
        f
    }
}

/// An unsigned decimal number in millionths: digits, then optionally a point
/// and more digits, of which those after the sixth are dropped.
pub open spec fn unsigned_micros(s: Seq<u8>) -> Option<int> {
    let whole = whole_part(s);
    let frac = fraction_part(s);
    let kept = kept_fraction(frac);
    if whole.len() > 0 && all_digits(whole) && all_digits(frac) {
        Some(digits_value(whole) * 1_000_000 + digits_value(kept) * pow10((6 - kept.len()) as nat))
    } else {
        None
    }
}

/// The digits of a score text, its sign left out.
pub open spec fn unsigned_part(s: Seq<u8>) -> Seq<u8> {
    if s.len() > 0 && (s[0] == 45 || s[0] == 43) {
        s.subrange(1, s.len() as int)
    } else {
        s
    }
}

/// The largest size that a score text may have: that of the smallest score
/// behind a minus sign, that of the largest score otherwise.
pub open spec fn size_limit(negative: bool) -> int {
    if negative {
        0x8000_0000_0000_0000
    } else {
        0x7fff_ffff_ffff_ffff
    }
}

/// The score that a text stands for, in millionths: an optional sign and an
/// unsigned decimal number whose size a score can hold.
pub open spec fn score_of(s: Seq<u8>) -> Option<i64> {
    match unsigned_micros(unsigned_part(s)) {
        Some(v) => if v > size_limit(s[0] == 45) {
            None
        } else if s[0] == 45 {
            Some((-v) as i64)
        } else {
            Some(v as i64)
        },
        None => None,
    }
}

/// The pieces that newlines cut a text into; the last piece is what follows
/// the last newline.
pub open spec fn pieces(s: Seq<u8>) -> Seq<Seq<u8>>
    decreases s.len(),
{
    if s.len() == 0 {
        seq![Seq::<u8>::empty()]
    } else {
        let before = pieces(s.drop_last());
        if s.last() == 10 {
            before.push(Seq::<u8>::empty())
        } else {
            before.update(before.len() - 1, before.last().push(s.last()))
        }
    }
}

/// A line without the carriage return at its end, if it has one.
pub open spec fn trimmed(line: Seq<u8>) -> Seq<u8> {
    if line.len() > 0 && line.last() == 13 {
        line.drop_last()
    } else {
        line
    }
}

/// The number of lines of a text: a newline at the very end begins no
/// further line.
pub open spec fn line_count(s: Seq<u8>) -> int {
    if pieces(s).last().len() == 0 {
        pieces(s).len() - 1
    } else {
        pieces(s).len() as int
    }
}

/// The lines of a text: its pieces between newlines, each without the
/// carriage return at its end.
pub open spec fn text_lines(s: Seq<u8>) -> Seq<Seq<u8>> {
    Seq::new(line_count(s) as nat, |k: int| trimmed(pieces(s)[k]))
}

/// Takes the carriage return off the end of a line.
pub fn trim_line(line: Vec<u8>) -> (r: Vec<u8>)
    ensures
        r@ == trimmed(line@),
{
    let ghost whole = line@;
    let mut line = line;
    let n: usize = line.len();
    if n > 0 && line[n - 1] == 13 {
        line.pop();
        assert(line@ =~= trimmed(whole));
    }
    line
}

/// Cuts a text into its lines.
pub fn split_lines(text: &Vec<u8>) -> (lines: Vec<Vec<u8>>)
    ensures
        crate::track::columns(lines@) == text_lines(text@),
{
    let mut done: Vec<Vec<u8>> = Vec::new();
    let mut current: Vec<u8> = Vec::new();
    let mut i: usize = 0;
    while i < text.len()
        invariant
            i <= text.len(),
            pieces(text@.subrange(0, i as int)).len() == done@.len() + 1,
            forall|k: int|
                0 <= k < done@.len() ==> (#[trigger] done@[k])@ == trimmed(
                    pieces(text@.subrange(0, i as int))[k],
                ),
            current@ == pieces(text@.subrange(0, i as int)).last(),
        decreases text.len() - i,
    {
        let ghost before = pieces(text@.subrange(0, i as int));
        proof {
            assert(text@.subrange(0, i + 1).drop_last() =~= text@.subrange(0, i as int));
            assert(text@.subrange(0, i + 1).last() == text@[i as int]);
        }
        let b: u8 = text[i];
        if b == 10 {
            let mut fresh: Vec<u8> = Vec::new();
            std::mem::swap(&mut fresh, &mut current);
            done.push(trim_line(fresh));
        } else {
            current.push(b);
        }
        i = i + 1;
    }
    assert(text@.subrange(0, text.len() as int) =~= text@);
    if current.len() > 0 {
        done.push(trim_line(current));
    }
    assert(crate::track::columns(done@) =~= text_lines(text@));
    done
}

/// Why a line is no record; `None` where it is one.
pub open spec fn line_fault(s: Seq<u8>, line: usize) -> Option<TrackError> {
    if field(s, 3).len() == 0 || coordinate(field(s, 1)) is None || coordinate(field(s, 2)) is None {
        Some(TrackError::MalformedLine { line })
    } else if score_of(field(s, 3)) is None {
        Some(TrackError::MalformedScore { line })
    } else {
        None
    }
}

/// The track that the lines describe, or the error of the first line that is
/// refused. Lines count from 1.
pub open spec fn parsed(lines: Seq<Seq<u8>>) -> Result<TrackModel, TrackError>
    decreases lines.len(),
{
    if lines.len() == 0 {
        Ok(TrackModel::empty())
    } else {
        let s = lines.last();
        let line = lines.len() as usize;
        match parsed(lines.drop_last()) {
            Err(e) => Err(e),
            Ok(m) => match line_fault(s, line) {
                Some(e) => Err(e),
                None => {
                    let start = coordinate(field(s, 1))->Some_0;
                    let end = coordinate(field(s, 2))->Some_0;
                    match m.refusal(field(s, 0), start, end, line) {
                        Some(e) => Err(e),
                        None => Ok(m.pushed(field(s, 0), start, end, score_of(field(s, 3))->Some_0)),
                    }
                },
            },
        }
    }
}

pub proof fn lemma_digits_nonnegative(s: Seq<u8>)
    requires
        all_digits(s),
    ensures
        digits_value(s) >= 0,
    decreases s.len(),
{
    if s.len() > 0 {
        lemma_digits_nonnegative(s.drop_last());
        assert(is_digit(s[s.len() - 1]));
    }
}

/// Digits stand for no less than any of their prefixes does.
pub proof fn lemma_digits_prefix(s: Seq<u8>, k: int)
    requires
        all_digits(s),
        0 <= k <= s.len(),
    ensures
        0 <= digits_value(s.subrange(0, k)) <= digits_value(s),
    decreases s.len(),
{
    if k == s.len() {
        assert(s.subrange(0, k) =~= s);
        lemma_digits_nonnegative(s);
    } else {
        lemma_digits_prefix(s.drop_last(), k);
        assert(s.drop_last().subrange(0, k) =~= s.subrange(0, k));
        assert(is_digit(s[s.len() - 1]));
    }
}

/// The next field of a line from `from` on: where it begins and ends.
pub fn next_field(text: &Vec<u8>, from: usize) -> (r: (usize, usize))
    requires
        from <= text.len(),
    ensures
        r.0 == skip_blanks(text@, from as int),
        r.1 == skip_field(text@, r.0 as int),
        from <= r.0 <= r.1 <= text.len(),
{
    let mut a: usize = from;
    while a < text.len() && (text[a] == 32 || (9 <= text[a] && text[a] <= 13))
        invariant
            from <= a <= text.len(),
            skip_blanks(text@, from as int) == skip_blanks(text@, a as int),
        decreases text.len() - a,
    {
        a = a + 1;
    }
    let mut b: usize = a;
    while b < text.len() && !(text[b] == 32 || (9 <= text[b] && text[b] <= 13))
        invariant
            a <= b <= text.len(),
            skip_field(text@, a as int) == skip_field(text@, b as int),
        decreases text.len() - b,
    {
        b = b + 1;
    }
    (a, b)
}

/// Copies the bytes from `a` to `b`.
pub fn copy_range(text: &Vec<u8>, a: usize, b: usize) -> (r: Vec<u8>)
    requires
        a <= b <= text.len(),
    ensures
        r@ == text@.subrange(a as int, b as int),
{
    let mut out: Vec<u8> = Vec::new();
    let mut i: usize = a;
    while i < b
        invariant
            a <= i <= b <= text.len(),
            out@ == text@.subrange(a as int, i as int),
        decreases b - i,
    {
        out.push(text[i]);
        assert(out@ =~= text@.subrange(a as int, i + 1));
        i = i + 1;
    }
    out
}

/// Reads a run of digits.
pub fn parse_natural(t: &Vec<u8>) -> (r: Option<u64>)
    ensures
        r == natural(t@),
{
    let mut acc: u64 = 0;
    let mut i: usize = 0;
    while i < t.len()
        invariant
            i <= t.len(),
            all_digits(t@.subrange(0, i as int)),
            acc == digits_value(t@.subrange(0, i as int)),
        decreases t.len() - i,
    {
        let b: u8 = t[i];
        if b < 48 || b > 57 {
            assert(!is_digit(t@[i as int]));
            return None;
        }
        let d: u64 = (b - 48) as u64;
        proof {
            assert(t@.subrange(0, i + 1).drop_last() =~= t@.subrange(0, i as int));
            assert(digits_value(t@.subrange(0, i + 1)) == acc * 10 + d);
        }
        if acc > (u64::MAX - d) / 10 {
            proof {
                if all_digits(t@) {
                    lemma_digits_prefix(t@, i + 1);
                }
            }
            return None;
        }
        acc = acc * 10 + d;
        i = i + 1;
    }
    assert(t@.subrange(0, t.len() as int) =~= t@);
    Some(acc)
}

/// Reads a coordinate.
pub fn parse_coordinate(t: &Vec<u8>) -> (r: Option<usize>)
    ensures
        r == coordinate(t@),
{
    if t.len() == 0 {
        return None;
    }
    match parse_natural(t) {
        Some(v) => {
            if v > usize::MAX as u64 {
                None
            } else {
                Some(v as usize)
            }
        },
        None => None,
    }
}

/// Ten to the power of `k`.
pub fn power_of_ten(k: usize) -> (p: u64)
    requires
        k <= 6,
    ensures
        p == pow10(k as nat),
        1 <= p <= 1_000_000,
{
    reveal_with_fuel(pow10, 8);
    let mut p: u64 = 1;
    let mut i: usize = 0;
    while i < k
        invariant
            i <= k <= 6,
            p == pow10(i as nat),
            1 <= p <= pow10(6),
            forall|j: nat| j < 6 ==> 10 * #[trigger] pow10(j) <= pow10(6),
        decreases k - i,
    {
        reveal_with_fuel(pow10, 8);
        assert(10 * pow10(i as nat) <= pow10(6));
        p = p * 10;
        i = i + 1;
    }
    p
}

/// Reads a score in millionths.
pub fn parse_score(t: &Vec<u8>) -> (r: Option<i64>)
    ensures
        r == score_of(t@),
{
    let n: usize = t.len();
    let negative: bool = n > 0 && t[0] == 45;
    let signed: bool = n > 0 && (t[0] == 45 || t[0] == 43);
    let body: Vec<u8> = if signed {
        copy_range(t, 1, n)
    } else {
        copy_range(t, 0, n)
    };
    assert(body@ =~= unsigned_part(t@));
    let m: usize = body.len();
    let mut d: usize = 0;
    while d < m && body[d] != 46
        invariant
            d <= m,
            m == body.len(),
            first_dot(body@, 0) == first_dot(body@, d as int),
        decreases m - d,
    {
        d = d + 1;
    }
    let whole: Vec<u8> = copy_range(&body, 0, d);
    let frac: Vec<u8> = if d < m {
        copy_range(&body, d + 1, m)
    } else {
        Vec::new()
    };
    assert(whole@ =~= whole_part(body@));
    assert(frac@ =~= fraction_part(body@));
    if whole.len() == 0 {
        return None;
    }
    let w: u64 = match parse_natural(&whole) {
        Some(w) => w,
        None => {
            proof {
                if all_digits(whole@) && all_digits(frac@) {
                    let k = kept_fraction(frac@);
                    assert(all_digits(k));
                    lemma_digits_below(k);
                    assert(digits_value(k) * pow10((6 - k.len()) as nat) >= 0) by (nonlinear_arith)
                        requires
                            digits_value(k) >= 0,
                            pow10((6 - k.len()) as nat) >= 0,
                    ;
                }
            }
            return None;
        },
    };
    let keep: usize = if frac.len() > 6 {
        6
    } else {
        frac.len()
    };
    let kept: Vec<u8> = copy_range(&frac, 0, keep);
    assert(kept@ =~= kept_fraction(frac@));
    let mut j: usize = keep;
    while j < frac.len()
        invariant
            keep <= j <= frac.len(),
            body@ == unsigned_part(t@),
            frac@ == fraction_part(body@),
            forall|i: int| keep <= i < j ==> is_digit(#[trigger] frac@[i]),
        decreases frac.len() - j,
    {
        if frac[j] < 48 || frac[j] > 57 {
            assert(!is_digit(frac@[j as int]));
            return None;
        }
        j = j + 1;
    }
    let f: u64 = match parse_natural(&kept) {
        Some(f) => f,
        None => {
            proof {
                if all_digits(frac@) {
                    assert(all_digits(kept@));
                    lemma_digits_below(kept@);
                }
            }
            return None;
        },
    };
    proof {
        assert(all_digits(frac@)) by {
            assert forall|i: int| 0 <= i < frac@.len() implies is_digit(#[trigger] frac@[i]) by {
                if i < keep {
                    assert(is_digit(kept@[i]));
                }
            }
        }
        lemma_digits_below(kept@);
    }
    let scale: u64 = power_of_ten(6 - keep);
    assert(f * scale < 1_000_000) by (nonlinear_arith)
        requires
            f < pow10(keep as nat),
            scale == pow10((6 - keep) as nat),
            pow10(keep as nat) * pow10((6 - keep) as nat) == 1_000_000,
            scale >= 1,
            f >= 0,
    ;
    let total: u128 = w as u128 * 1_000_000 + (f * scale) as u128;
    proof {
        lemma_digits_nonnegative(whole@);
        assert(digits_value(kept@) * pow10((6 - kept@.len()) as nat) == f * scale);
        assert(unsigned_micros(body@) == Some(total as int));
    }
    if negative {
        if total > 0x8000_0000_0000_0000 {
            None
        } else {
            Some((-(total as i128)) as i64)
        }
    } else if total > 0x7fff_ffff_ffff_ffff {
        None
    } else {
        Some(total as i64)
    }
}

/// Up to six digits stand for less than ten to the power of their number.
pub proof fn lemma_digits_below(s: Seq<u8>)
    requires
        all_digits(s),
        s.len() <= 6,
    ensures
        0 <= digits_value(s) < pow10(s.len()),
        pow10((6 - s.len()) as nat) >= 1,
        pow10(s.len()) * pow10((6 - s.len()) as nat) == 1_000_000,
        digits_value(s) <= u64::MAX,
    decreases s.len(),
{
    reveal_with_fuel(pow10, 8);
    assert(pow10(0) == 1 && pow10(1) == 10 && pow10(2) == 100 && pow10(3) == 1000);
    assert(pow10(4) == 10_000 && pow10(5) == 100_000 && pow10(6) == 1_000_000);
    if s.len() > 0 {
        lemma_digits_below(s.drop_last());
        assert(is_digit(s[s.len() - 1]));
        assert(pow10(s.len()) == 10 * pow10((s.len() - 1) as nat));
    }
    if s.len() == 0 {
    } else if s.len() == 1 {
    } else if s.len() == 2 {
    } else if s.len() == 3 {
    } else if s.len() == 4 {
    } else if s.len() == 5 {
    } else {
    }
}

/// One line of a track: a bin and the chromosome that it lies on.
#[derive(Debug)]
pub struct Record {
    pub name: Vec<u8>,
    pub start: usize,
    pub end: usize,
    pub score: i64,
}

/// Reads one line: chromosome, start, end and score, parted by blanks. What
/// follows the fourth field is not read.
pub fn parse_line(text: &Vec<u8>, line: usize) -> (r: Result<Record, TrackError>)
    ensures
        match line_fault(text@, line) {
            Some(e) => r == Err::<Record, TrackError>(e),
            None => {
                &&& r is Ok
                &&& r->Ok_0.name@ == field(text@, 0)
                &&& Some(r->Ok_0.start) == coordinate(field(text@, 1))
                &&& Some(r->Ok_0.end) == coordinate(field(text@, 2))
                &&& Some(r->Ok_0.score) == score_of(field(text@, 3))
            },
        },
{
    reveal_with_fuel(field_start, 5);
    let (a0, b0) = next_field(text, 0);
    let (a1, b1) = next_field(text, b0);
    let (a2, b2) = next_field(text, b1);
    let (a3, b3) = next_field(text, b2);
    assert(a0 == field_start(text@, 0));
    assert(a1 == field_start(text@, 1));
    assert(a2 == field_start(text@, 2));
    assert(a3 == field_start(text@, 3));
    if a3 == b3 {
        return Err(TrackError::MalformedLine { line });
    }
    let start: usize = match parse_coordinate(&copy_range(text, a1, b1)) {
        Some(v) => v,
        None => {
            return Err(TrackError::MalformedLine { line });
        },
    };
    let end: usize = match parse_coordinate(&copy_range(text, a2, b2)) {
        Some(v) => v,
        None => {
            return Err(TrackError::MalformedLine { line });
        },
    };
    let score: i64 = match parse_score(&copy_range(text, a3, b3)) {
        Some(v) => v,
        None => {
            return Err(TrackError::MalformedScore { line });
        },
    };
    Ok(Record { name: copy_range(text, a0, b0), start, end, score })
}

/// Builds a track from the lines of a bedgraph text. The first line that is
/// refused ends the run with its error, and no track is returned. A track
/// that is returned can be written in full: its lines read back as itself.
pub fn parse_track(lines: &Vec<Vec<u8>>) -> (r: Result<Track, TrackError>)
    ensures
        match parsed(crate::track::columns(lines@)) {
            Ok(m) => r is Ok && r->Ok_0.wf() && r->Ok_0.model() == m && printable(m),
            Err(e) => r == Err::<Track, TrackError>(e),
        },
{
    proof {
        lemma_parsed_printable(crate::track::columns(lines@));
    }
    let ghost src = crate::track::columns(lines@);
    let mut track: Track = Track::new();
    let mut i: usize = 0;
    assert(src.subrange(0, 0) =~= Seq::<Seq<u8>>::empty());
    while i < lines.len()
        invariant
            i <= lines.len(),
            src == crate::track::columns(lines@),
            track.wf(),
            parsed(src.subrange(0, i as int)) == Ok::<TrackModel, TrackError>(track.model()),
        decreases lines.len() - i,
    {
        let ghost next = src.subrange(0, i + 1);
        proof {
            assert(next.drop_last() =~= src.subrange(0, i as int));
            assert(next.last() == lines@[i as int]@);
            lemma_refused_prefix(src, i + 1);
        }
        let record: Record = match parse_line(&lines[i], i + 1) {
            Ok(record) => record,
            Err(e) => {
                return Err(e);
            },
        };
        match track.push_bin(&record.name, record.start, record.end, record.score, i + 1) {
            Ok(()) => {},
            Err(e) => {
                return Err(e);
            },
        }
        i = i + 1;
    }
    assert(src.subrange(0, lines.len() as int) =~= src);
    Ok(track)
}

/// Once a prefix of the lines is refused, so are all the lines, with the same
/// error.
pub proof fn lemma_refused_prefix(lines: Seq<Seq<u8>>, k: int)
    requires
        0 <= k <= lines.len(),
    ensures
        parsed(lines.subrange(0, k)) is Err ==> parsed(lines) == parsed(lines.subrange(0, k)),
    decreases lines.len(),
{
    if k == lines.len() {
        assert(lines.subrange(0, k) =~= lines);
    } else {
        lemma_refused_prefix(lines.drop_last(), k);
        assert(lines.drop_last().subrange(0, k) =~= lines.subrange(0, k));
    }
}

} // verus!
