use bgtools::error::TrackError;
use bgtools::norm::{copy_scores, deviation_scores, rescale, rescale_columns};
use bgtools::parse::{
    copy_range, next_field, parse_coordinate, parse_line, parse_natural, parse_score, parse_track,
    power_of_ten, split_lines, trim_line,
};
use bgtools::render::{push_decimal, push_padded, push_score, render_bin};
use bgtools::roll::{
    roll_mean, roll_median, roll_scores, slide, window_scores, Boundary, StatKind,
};
use bgtools::stats::{
    div_round_zero, insert_sorted, lower_bound, mean_scores, median_scores, median_sorted,
    remove_sorted, sum_scores,
};
use bgtools::track::{bytes_eq, Bin, Track};
use bgtools::window::resolve_window;

const UNIT: i64 = 1_000_000;

fn lines(text: &str) -> Vec<Vec<u8>> {
    text.lines().map(|l| l.as_bytes().to_vec()).collect()
}

fn three_bins() -> Track {
    parse_track(&lines("chr1 0 10 5\nchr1 10 20 7\nchr1 20 30 9")).unwrap()
}

#[test]
fn parse_three_bins() {
    let t = three_bins();
    assert_eq!(t.get_resolution(), 10);
    assert_eq!(t.chromosome_count(), 1);
    assert_eq!(t.chromosome_name(0), &b"chr1".to_vec());
    assert_eq!(t.chromosome_len(0), 3);
    assert_eq!(t.bin(0, 1), Bin { start: 10, end: 20, score: 7 * UNIT });
    assert_eq!(t.scores, vec![vec![5 * UNIT, 7 * UNIT, 9 * UNIT]]);
}

#[test]
fn every_bin_is_as_wide_as_the_resolution() {
    let t = parse_track(&lines("a 0 5 1\na 5 10 2\nb 100 105 3\na 20 25 4")).unwrap();
    assert_eq!(t.get_resolution(), 5);
    for c in 0..t.chromosome_count() {
        for i in 0..t.chromosome_len(c) {
            let b = t.bin(c, i);
            assert_eq!(b.end - b.start, 5);
        }
    }
    assert_eq!(t.names, vec![b"a".to_vec(), b"b".to_vec()]);
    assert_eq!(t.starts, vec![vec![0, 5, 20], vec![100]]);
}

#[test]
fn circular_mean_and_median_of_three_bins() {
    let rolled = three_bins().roll(25, true, StatKind::Mean).unwrap();
    assert_eq!(rolled.scores, vec![vec![7 * UNIT, 7 * UNIT, 7 * UNIT]]);
    assert_eq!(rolled.starts, vec![vec![0, 10, 20]]);
    assert_eq!(rolled.get_resolution(), 10);
    let rolled = three_bins().roll(25, true, StatKind::Median).unwrap();
    assert_eq!(rolled.scores[0][0], 7 * UNIT);
    assert_eq!(rolled.scores, vec![vec![7 * UNIT, 7 * UNIT, 7 * UNIT]]);
}

#[test]
fn linear_windows_are_cut_at_the_ends() {
    let rolled = three_bins().roll(25, false, StatKind::Mean).unwrap();
    assert_eq!(rolled.scores, vec![vec![6 * UNIT, 7 * UNIT, 8 * UNIT]]);
    let rolled = three_bins().roll(25, false, StatKind::Median).unwrap();
    assert_eq!(rolled.scores, vec![vec![6 * UNIT, 7 * UNIT, 8 * UNIT]]);
}

#[test]
fn window_scores_wrap_and_repeat() {
    let s = vec![1, 2, 3, 4, 5];
    assert_eq!(window_scores(&s, 0, 1, Boundary::Circular), vec![5, 1, 2]);
    assert_eq!(window_scores(&s, 4, 2, Boundary::Circular), vec![3, 4, 5, 1, 2]);
    assert_eq!(window_scores(&s, 0, 2, Boundary::Linear), vec![1, 2, 3]);
    assert_eq!(window_scores(&s, 4, 1, Boundary::Linear), vec![4, 5]);
    assert_eq!(window_scores(&s, 2, 9, Boundary::Linear), vec![1, 2, 3, 4, 5]);
    let two = vec![1, 2];
    assert_eq!(window_scores(&two, 0, 2, Boundary::Circular), vec![1, 2, 1, 2, 1]);
}

#[test]
fn circular_window_wider_than_the_chromosome() {
    let s = vec![UNIT, 2 * UNIT];
    let out = roll_scores(&s, 5, Boundary::Circular, StatKind::Mean).unwrap();
    assert_eq!(out, vec![1_400_000, 1_600_000]);
    let out = roll_scores(&s, 5, Boundary::Circular, StatKind::Median).unwrap();
    assert_eq!(out, vec![UNIT, 2 * UNIT]);
}

#[test]
fn circular_windows_turn_with_the_chromosome() {
    let s = vec![4, 8, 15, 16, 23, 42];
    let turned = vec![15, 16, 23, 42, 4, 8];
    for i in 0..6 {
        let w = window_scores(&turned, i, 2, Boundary::Circular);
        assert_eq!(w.len(), 5);
        assert_eq!(w, window_scores(&s, (i + 2) % 6, 2, Boundary::Circular));
    }
    let a = roll_scores(&s, 5, Boundary::Circular, StatKind::Median).unwrap();
    let b = roll_scores(&turned, 5, Boundary::Circular, StatKind::Median).unwrap();
    for i in 0..6 {
        assert_eq!(b[i], a[(i + 2) % 6]);
    }
}

#[test]
fn constant_scores_roll_to_the_constant() {
    let s = vec![-3 * UNIT; 7];
    for w in [1usize, 3, 5, 7, 9, 15] {
        for boundary in [Boundary::Linear, Boundary::Circular] {
            for kind in [StatKind::Mean, StatKind::Median] {
                assert_eq!(roll_scores(&s, w, boundary, kind).unwrap(), s);
            }
        }
    }
}

#[test]
fn rolling_an_empty_chromosome_fails() {
    let s: Vec<i64> = Vec::new();
    assert_eq!(
        roll_scores(&s, 3, Boundary::Linear, StatKind::Mean),
        Err(TrackError::EmptyChromosome)
    );
    let t = Track {
        resolution: 10,
        names: vec![b"chr1".to_vec(), b"chr2".to_vec()],
        starts: vec![vec![0], vec![]],
        scores: vec![vec![UNIT], vec![]],
    };
    assert_eq!(t.roll(30, true, StatKind::Median).unwrap_err(), TrackError::EmptyChromosome);
}

#[test]
fn rolling_a_track_without_chromosomes_keeps_it() {
    let t = Track::new().roll(30, true, StatKind::Mean).unwrap();
    assert_eq!(t.chromosome_count(), 0);
}

#[test]
fn median_sorts_before_it_picks() {
    assert_eq!(median_scores(vec![9, 5, 7]), 7);
    assert_eq!(median_scores(vec![9, 1, 7, 3]), 5);
    assert_eq!(median_scores(vec![2, 2, 1, 2, 3]), 2);
    assert_eq!(median_scores(vec![-3, -4]), -3);
    assert_eq!(median_scores(vec![i64::MAX, i64::MAX]), i64::MAX);
}

#[test]
fn mean_rounds_toward_zero() {
    assert_eq!(mean_scores(&vec![1, 2]), 1);
    assert_eq!(mean_scores(&vec![-1, -2]), -1);
    assert_eq!(mean_scores(&vec![i64::MAX, i64::MAX, i64::MAX]), i64::MAX);
    assert_eq!(mean_scores(&vec![i64::MIN, i64::MIN]), i64::MIN);
    assert_eq!(sum_scores(&vec![i64::MAX, i64::MAX]), 2 * (i64::MAX as i128));
    assert_eq!(div_round_zero(-7, 2), -3);
    assert_eq!(div_round_zero(7, 2), 3);
}

#[test]
fn window_is_resolved_to_an_odd_number_of_bins() {
    assert_eq!(resolve_window(25, 10), Ok(3));
    assert_eq!(resolve_window(30, 10), Ok(3));
    assert_eq!(resolve_window(40, 10), Ok(5));
    assert_eq!(resolve_window(5, 10), Ok(1));
    assert_eq!(resolve_window(0, 10), Ok(1));
    assert_eq!(resolve_window(usize::MAX, 1), Ok(usize::MAX));
}

#[test]
fn cpm_of_one_one_two() {
    let mut t = parse_track(&lines("chr1 0 10 1\nchr1 10 20 1\nchr2 0 10 2")).unwrap();
    assert_eq!(t.to_cpm(), Ok(()));
    assert_eq!(t.scores, vec![vec![250_000 * UNIT, 250_000 * UNIT], vec![500_000 * UNIT]]);
    assert_eq!(t.starts, vec![vec![0, 10], vec![0]]);
    assert_eq!(t.get_resolution(), 10);
}

#[test]
fn cpm_adds_up_to_a_million() {
    let mut t = parse_track(&lines("c 0 1 1\nc 1 2 1\nc 2 3 1\nd 0 1 0.5\nd 5 6 3.25")).unwrap();
    assert_eq!(t.to_cpm(), Ok(()));
    let all = t.gather_scores();
    let total = sum_scores(&all);
    let million = 1_000_000 * (UNIT as i128);
    assert!(million - 5 < total && total < million + 5);
    assert_eq!(all[0], 148_148_148_148);
}

#[test]
fn cpm_of_a_zero_total_fails() {
    let mut t = parse_track(&lines("c 0 1 1.5\nc 1 2 -1.5")).unwrap();
    assert_eq!(t.to_cpm(), Err(TrackError::ZeroTotal { total: 0 }));
    assert_eq!(t.scores, vec![vec![1_500_000, -1_500_000]]);
    let mut empty = Track::new();
    assert_eq!(empty.to_cpm(), Err(TrackError::ZeroTotal { total: 0 }));
}

#[test]
fn cpm_out_of_range_fails_and_keeps_the_scores() {
    let mut t = Track {
        resolution: 1,
        names: vec![b"c".to_vec()],
        starts: vec![vec![0, 1]],
        scores: vec![vec![i64::MAX, -(i64::MAX - 1)]],
    };
    assert_eq!(t.to_cpm(), Err(TrackError::ScoreOverflow));
    assert_eq!(t.scores, vec![vec![i64::MAX, -(i64::MAX - 1)]]);
}

#[test]
fn cpm_with_a_negative_total() {
    let mut t = parse_track(&lines("c 0 1 -1\nc 1 2 -3")).unwrap();
    assert_eq!(t.to_cpm(), Ok(()));
    assert_eq!(t.scores, vec![vec![250_000 * UNIT, 750_000 * UNIT]]);
}

#[test]
fn robust_z_of_one_to_five() {
    let t = parse_track(&lines("c 0 1 1\nc 1 2 2\nc 2 3 3\nd 0 1 4\nd 1 2 5")).unwrap();
    let z = t.robust_z().unwrap();
    assert_eq!(z.scores, vec![vec![-1_349_000, -674_500, 0], vec![674_500, 1_349_000]]);
    assert_eq!(z.names, vec![b"c".to_vec(), b"d".to_vec()]);
    assert_eq!(z.starts, vec![vec![0, 1, 2], vec![0, 1]]);
    assert_eq!(sum_scores(&z.gather_scores()), 0);
}

#[test]
fn robust_z_of_equal_scores_fails() {
    let t = parse_track(&lines("c 0 1 4\nc 1 2 4\nc 2 3 4")).unwrap();
    assert_eq!(t.robust_z().unwrap_err(), TrackError::DegenerateDistribution { mad: 0 });
    assert_eq!(
        Track::new().robust_z().unwrap_err(),
        TrackError::DegenerateDistribution { mad: 0 }
    );
}

#[test]
fn robust_z_out_of_range_fails() {
    let t = Track {
        resolution: 1,
        names: vec![b"c".to_vec()],
        starts: vec![vec![0, 1, 2]],
        scores: vec![vec![i64::MIN, i64::MAX, i64::MAX]],
    };
    assert_eq!(t.robust_z().unwrap_err(), TrackError::ScoreOverflow);
    let t = Track {
        resolution: 1,
        names: vec![b"c".to_vec()],
        starts: vec![vec![0, 1, 2, 3, 4]],
        scores: vec![vec![0, 1, 2, 3, i64::MAX]],
    };
    assert_eq!(t.robust_z().unwrap_err(), TrackError::ScoreOverflow);
}

#[test]
fn rescale_rounds_toward_zero_and_keeps_to_the_range() {
    assert_eq!(rescale(7, 0, 1, 2), Some(3));
    assert_eq!(rescale(-7, 0, 1, 2), Some(-3));
    assert_eq!(rescale(7, 0, 1, -2), Some(-3));
    assert_eq!(rescale(5, 3, 674_500, 1), Some(1_349_000));
    assert_eq!(rescale(i64::MAX, 0, 2, 1), None);
    assert_eq!(rescale_columns(&vec![vec![2, 4], vec![]], 0, 3, 2), Some(vec![vec![3, 6], vec![]]));
    assert_eq!(rescale_columns(&vec![vec![2], vec![i64::MIN]], 0, 3, 2), None);
    assert_eq!(deviation_scores(&vec![1, 5, 3], 3), Some(vec![2, 2, 0]));
    assert_eq!(deviation_scores(&vec![i64::MIN], 0), None);
    assert_eq!(copy_scores(&vec![3, 1, 2]), vec![3, 1, 2]);
}

#[test]
fn three_fields_are_a_malformed_line() {
    assert_eq!(
        parse_track(&lines("chr1\t0\t10")).unwrap_err(),
        TrackError::MalformedLine { line: 1 }
    );
    assert_eq!(
        parse_track(&lines("chr1 0 10 1\n\nchr1 10 20 1")).unwrap_err(),
        TrackError::MalformedLine { line: 2 }
    );
    assert_eq!(
        parse_track(&lines("chr1 x 10 1")).unwrap_err(),
        TrackError::MalformedLine { line: 1 }
    );
    assert_eq!(
        parse_track(&lines("chr1 10 10 1")).unwrap_err(),
        TrackError::MalformedLine { line: 1 }
    );
}

#[test]
fn a_bad_score_is_a_malformed_score() {
    for bad in ["abc", "NaN", "inf", "1e5", ".5", "-", "1.2.3", "9223372036854.775808", "--1"] {
        let text = format!("chr1 0 10 1\nchr1 10 20 {}", bad);
        assert_eq!(parse_track(&lines(&text)).unwrap_err(), TrackError::MalformedScore { line: 2 });
    }
}

#[test]
fn a_bin_before_the_end_of_the_last_is_out_of_order() {
    assert_eq!(
        parse_track(&lines("chr1 0 10 1\nchr2 0 10 1\nchr1 5 15 1")).unwrap_err(),
        TrackError::MalformedOrder { line: 3 }
    );
    assert!(parse_track(&lines("chr1 0 10 1\nchr2 0 10 1\nchr1 10 20 1")).is_ok());
}

#[test]
fn a_bin_of_another_width_is_inconsistent() {
    assert_eq!(
        parse_track(&lines("chr1 0 10 1\nchr1 10 25 1")).unwrap_err(),
        TrackError::InconsistentResolution { line: 2 }
    );
    assert_eq!(
        parse_track(&lines("chr1 0 10 1\nchr2 30 20 1")).unwrap_err(),
        TrackError::InconsistentResolution { line: 2 }
    );
}

#[test]
fn push_bin_refuses_and_keeps_the_track() {
    let mut t = Track::new();
    assert_eq!(t.push_bin(&b"a".to_vec(), 5, 5, 1, 7), Err(TrackError::MalformedLine { line: 7 }));
    assert_eq!(t.chromosome_count(), 0);
    assert_eq!(t.push_bin(&b"a".to_vec(), 5, 9, 1, 1), Ok(()));
    assert_eq!(t.get_resolution(), 4);
    assert_eq!(t.push_bin(&b"a".to_vec(), 8, 12, 1, 2), Err(TrackError::MalformedOrder { line: 2 }));
    assert_eq!(
        t.push_bin(&b"a".to_vec(), 9, 12, 1, 3),
        Err(TrackError::InconsistentResolution { line: 3 })
    );
    assert_eq!(t.starts, vec![vec![5]]);
    assert_eq!(t.push_bin(&b"a".to_vec(), 9, 13, 2, 4), Ok(()));
    assert_eq!(t.push_bin(&b"b".to_vec(), 0, 4, 3, 5), Ok(()));
    assert_eq!(t.starts, vec![vec![5, 9], vec![0]]);
    assert_eq!(t.scores, vec![vec![1, 2], vec![3]]);
    assert_eq!(t.find_chromosome(&b"b".to_vec()), Some(1));
    assert_eq!(t.find_chromosome(&b"c".to_vec()), None);
    assert!(bytes_eq(&b"ab".to_vec(), &b"ab".to_vec()));
    assert!(!bytes_eq(&b"ab".to_vec(), &b"ac".to_vec()));
    assert!(!bytes_eq(&b"ab".to_vec(), &b"a".to_vec()));
}

#[test]
fn scores_are_read_in_millionths() {
    assert_eq!(parse_score(&b"5".to_vec()), Some(5_000_000));
    assert_eq!(parse_score(&b"-1.5".to_vec()), Some(-1_500_000));
    assert_eq!(parse_score(&b"+0.25".to_vec()), Some(250_000));
    assert_eq!(parse_score(&b"0.1234567".to_vec()), Some(123_456));
    assert_eq!(parse_score(&b"3.".to_vec()), Some(3_000_000));
    assert_eq!(parse_score(&b"0.000001".to_vec()), Some(1));
    assert_eq!(parse_score(&b"9223372036854.775807".to_vec()), Some(i64::MAX));
    assert_eq!(parse_score(&b"-9223372036854.775807".to_vec()), Some(-i64::MAX));
    assert_eq!(parse_score(&b"-9223372036854.775808".to_vec()), Some(i64::MIN));
    assert_eq!(parse_score(&b"-9223372036854.775809".to_vec()), None);
    assert_eq!(parse_score(&b"9223372036854.775808".to_vec()), None);
    assert_eq!(parse_score(&b"+9223372036854.775808".to_vec()), None);
    assert_eq!(parse_score(&b"-0".to_vec()), Some(0));
    assert_eq!(parse_score(&b"".to_vec()), None);
    assert_eq!(parse_score(&b"1.5x".to_vec()), None);
    assert_eq!(parse_score(&b"1.1234567x".to_vec()), None);
    assert_eq!(parse_score(&b"99999999999999999999999".to_vec()), None);
}

#[test]
fn numbers_and_fields_are_read() {
    assert_eq!(parse_natural(&b"".to_vec()), Some(0));
    assert_eq!(parse_natural(&b"0042".to_vec()), Some(42));
    assert_eq!(parse_natural(&b"18446744073709551615".to_vec()), Some(u64::MAX));
    assert_eq!(parse_natural(&b"18446744073709551616".to_vec()), None);
    assert_eq!(parse_natural(&b"4 2".to_vec()), None);
    assert_eq!(parse_coordinate(&b"".to_vec()), None);
    assert_eq!(parse_coordinate(&b"17".to_vec()), Some(17));
    assert_eq!(parse_coordinate(&b"-1".to_vec()), None);
    assert_eq!(power_of_ten(0), 1);
    assert_eq!(power_of_ten(6), 1_000_000);
    let text = b"  chr1\t 12".to_vec();
    assert_eq!(next_field(&text, 0), (2, 6));
    assert_eq!(next_field(&text, 6), (8, 10));
    assert_eq!(next_field(&text, 10), (10, 10));
    assert_eq!(copy_range(&text, 2, 6), b"chr1".to_vec());
    let record = parse_line(&b" chrX\t100  200 -0.5 extra".to_vec(), 3).unwrap();
    assert_eq!(record.name, b"chrX".to_vec());
    assert_eq!((record.start, record.end, record.score), (100, 200, -500_000));
    assert_eq!(
        parse_line(&b"chrX 100 200".to_vec(), 3).unwrap_err(),
        TrackError::MalformedLine { line: 3 }
    );
}

#[test]
fn a_track_is_written_line_by_line() {
    let t = parse_track(&lines("chr1 0 10 5\nchr2 0 10 -0.25\nchr1 10 20 7.5")).unwrap();
    let out = t.render();
    assert_eq!(
        out,
        vec![
            b"chr1\t0\t10\t5.000000".to_vec(),
            b"chr1\t10\t20\t7.500000".to_vec(),
            b"chr2\t0\t10\t-0.250000".to_vec(),
        ]
    );
    assert_eq!(render_bin(&b"c".to_vec(), 7, 8, 1), b"c\t7\t8\t0.000001".to_vec());
    let mut buf: Vec<u8> = Vec::new();
    push_decimal(&mut buf, 0);
    push_decimal(&mut buf, 1203);
    push_padded(&mut buf, 42, 4);
    push_score(&mut buf, i64::MIN);
    assert_eq!(buf, b"012030042-9223372036854.775808".to_vec());
}

#[test]
fn written_lines_read_back_to_the_same_track() {
    let t = parse_track(&lines("chr1 0 10 5.125\nchr1 10 20 -7\nchr2 40 50 0.000001\nchr1 30 40 9"))
        .unwrap();
    let back = parse_track(&t.render()).unwrap();
    assert_eq!(back.get_resolution(), t.get_resolution());
    assert_eq!(back.names, t.names);
    assert_eq!(back.starts, t.starts);
    assert_eq!(back.scores, t.scores);
    let z = back.roll(30, false, StatKind::Mean).unwrap();
    let again = parse_track(&z.render()).unwrap();
    assert_eq!(again.scores, z.scores);
}

#[test]
fn ascending_scores_take_and_give_at_the_right_place() {
    let mut v = vec![1, 3, 3, 7];
    assert_eq!(lower_bound(&v, 0), 0);
    assert_eq!(lower_bound(&v, 3), 1);
    assert_eq!(lower_bound(&v, 4), 3);
    assert_eq!(lower_bound(&v, 8), 4);
    insert_sorted(&mut v, 5);
    insert_sorted(&mut v, -2);
    insert_sorted(&mut v, 3);
    assert_eq!(v, vec![-2, 1, 3, 3, 3, 5, 7]);
    assert_eq!(median_sorted(&v), 3);
    remove_sorted(&mut v, 3);
    remove_sorted(&mut v, -2);
    remove_sorted(&mut v, 7);
    assert_eq!(v, vec![1, 3, 3, 5]);
    assert_eq!(median_sorted(&v), 3);
}

#[test]
fn the_window_slides_by_one_score() {
    let s = vec![10, 20, 30, 40, 50];
    assert_eq!(slide(&s, 0, 1, Boundary::Circular), (Some(50), Some(30)));
    assert_eq!(slide(&s, 3, 1, Boundary::Circular), (Some(30), Some(10)));
    assert_eq!(slide(&s, 0, 1, Boundary::Linear), (None, Some(30)));
    assert_eq!(slide(&s, 1, 1, Boundary::Linear), (Some(10), Some(40)));
    assert_eq!(slide(&s, 3, 1, Boundary::Linear), (Some(30), None));
    assert_eq!(slide(&s, 2, 9, Boundary::Linear), (None, None));
}

#[test]
fn rolling_agrees_with_each_window_taken_alone() {
    let s = vec![7, -3, 12, 0, 5, 5, -9, 41, 2, 2, 18];
    for h in 0..8 {
        for boundary in [Boundary::Linear, Boundary::Circular] {
            let means = roll_mean(&s, h, boundary);
            let medians = roll_median(&s, h, boundary);
            for i in 0..s.len() {
                let w = window_scores(&s, i, h, boundary);
                assert_eq!(means[i], mean_scores(&w));
                assert_eq!(medians[i], median_scores(w));
            }
        }
    }
    assert_eq!(roll_mean(&s, 1, Boundary::Linear)[0], 2);
    assert_eq!(roll_median(&s, 1, Boundary::Circular)[0], 7);
    assert_eq!(roll_median(&s, 2, Boundary::Linear)[10], 2);
}

#[test]
fn symmetric_scores_have_z_scores_that_add_up_to_zero() {
    let t = parse_track(&lines("c 0 1 -2.5\nc 1 2 9\nc 2 3 4\nc 3 4 10.5\nc 4 5 -1\nc 5 6 4\nc 6 7 5.75\nc 7 8 2.25"))
        .unwrap();
    let z = t.robust_z().unwrap();
    assert_eq!(sum_scores(&z.gather_scores()), 0);
    assert_eq!(z.scores[0][2], 0);
    assert_eq!(z.scores[0][1], -z.scores[0][4]);
}

#[test]
fn the_smallest_score_is_written_and_read_back() {
    let t = Track {
        resolution: 10,
        names: vec![b"chr1".to_vec()],
        starts: vec![vec![0, 10, 20]],
        scores: vec![vec![i64::MIN, i64::MAX, 0]],
    };
    let out = t.render();
    assert_eq!(out[0], b"chr1\t0\t10\t-9223372036854.775808".to_vec());
    assert_eq!(out[1], b"chr1\t10\t20\t9223372036854.775807".to_vec());
    let back = parse_track(&out).unwrap();
    assert_eq!(back.scores, t.scores);
    assert_eq!(back.starts, t.starts);
    assert_eq!(back.names, t.names);
    assert_eq!(back.get_resolution(), 10);
}

#[test]
fn counts_per_million_that_reach_the_smallest_score_read_back() {
    let mut t = parse_track(&lines(
        "c 0 1 -2251799813.685248\nc 1 2 1125899906.842624\nc 2 3 1125900150.983249",
    ))
    .unwrap();
    assert_eq!(t.to_cpm(), Ok(()));
    assert_eq!(t.scores[0][0], i64::MIN);
    let back = parse_track(&t.render()).unwrap();
    assert_eq!(back.scores, t.scores);
    assert_eq!(back.starts, t.starts);
}

#[test]
fn a_text_is_cut_into_lines() {
    assert_eq!(split_lines(&b"".to_vec()), Vec::<Vec<u8>>::new());
    assert_eq!(split_lines(&b"a b".to_vec()), vec![b"a b".to_vec()]);
    assert_eq!(split_lines(&b"a\nb\n".to_vec()), vec![b"a".to_vec(), b"b".to_vec()]);
    assert_eq!(split_lines(&b"a\r\nb\r".to_vec()), vec![b"a".to_vec(), b"b".to_vec()]);
    assert_eq!(
        split_lines(&b"a\n\nb".to_vec()),
        vec![b"a".to_vec(), b"".to_vec(), b"b".to_vec()]
    );
    assert_eq!(split_lines(&b"\n".to_vec()), vec![b"".to_vec()]);
    assert_eq!(split_lines(&b"\r\r\n".to_vec()), vec![b"\r".to_vec()]);
    assert_eq!(trim_line(b"x\r".to_vec()), b"x".to_vec());
    assert_eq!(trim_line(b"x".to_vec()), b"x".to_vec());
    let t = parse_track(&split_lines(&b"chr1\t0\t10\t5\r\nchr1\t10\t20\t7\r\n".to_vec()))
        .unwrap();
    assert_eq!(t.scores, vec![vec![5 * UNIT, 7 * UNIT]]);
    assert_eq!(
        parse_track(&split_lines(&b"chr1 0 10 5\n\nchr1 10 20 7\n".to_vec())).unwrap_err(),
        TrackError::MalformedLine { line: 2 }
    );
}
