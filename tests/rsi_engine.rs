use rsi_screener::rsi::{compute_rsi, rsi_reading, RsiReading, DEFAULT_PERIOD, RSI_MAX, RSI_NEUTRAL};

const UNIT: u64 = 100_000_000;

fn units(whole: &[u64]) -> Vec<u64> {
    whole.iter().map(|w| w * UNIT).collect()
}

fn textbook_closes() -> Vec<u64> {
    vec![
        4434000000, 4409000000, 4415000000, 4361000000, 4433000000, 4483000000, 4510000000,
        4542000000, 4584000000, 4608000000, 4589000000, 4603000000, 4561000000, 4628000000,
        4628000000,
    ]
}

#[test]
fn textbook_series_gives_wilder_value() {
    assert_eq!(compute_rsi(&textbook_closes(), 14), Some(7046));
    assert_eq!(
        rsi_reading(&textbook_closes(), 14),
        Some(RsiReading { avg_gain: 23857142857142858, avg_loss: 10000000000000000 })
    );
}

#[test]
fn smoothing_runs_past_the_seed_window() {
    let s = units(&[
        100, 103, 101, 108, 108, 107, 110, 115, 112, 111, 118, 120, 119, 125, 124, 126, 121, 130,
        131, 129,
    ]);
    assert_eq!(compute_rsi(&s, 14), Some(7295));
}

#[test]
fn series_of_exactly_period_points_is_defined() {
    let s = units(&[100, 103, 101, 108, 108, 107, 110, 115, 112, 111, 118, 120, 119, 125]);
    assert_eq!(compute_rsi(&s, 14), Some(8048));
}

#[test]
fn rising_series_reads_full_scale() {
    let s = units(&[1, 2, 2, 3, 5, 8, 13, 21, 34, 55, 89, 144, 233, 377, 610, 987]);
    assert_eq!(compute_rsi(&s, DEFAULT_PERIOD), Some(RSI_MAX));
    for m in 14..=s.len() {
        assert_eq!(compute_rsi(&s[..m].to_vec(), DEFAULT_PERIOD), Some(RSI_MAX));
    }
}

#[test]
fn falling_series_reads_zero() {
    let s = units(&[40, 39, 39, 37, 30, 29, 28, 20, 19, 18, 17, 15, 14, 10, 9, 1]);
    assert_eq!(compute_rsi(&s, DEFAULT_PERIOD), Some(0));
}

#[test]
fn flat_series_reads_neutral() {
    let s = vec![5 * UNIT; 20];
    assert_eq!(compute_rsi(&s, DEFAULT_PERIOD), Some(RSI_NEUTRAL));
    assert_eq!(compute_rsi(&vec![7], 1), Some(RSI_NEUTRAL));
}

#[test]
fn short_series_is_undefined() {
    let s = units(&[1, 2, 3, 4, 5, 6, 7, 8, 9, 10, 11, 12, 13]);
    assert_eq!(compute_rsi(&s, 14), None);
    assert_eq!(compute_rsi(&Vec::new(), 1), None);
}

#[test]
fn index_stays_in_range() {
    let s = vec![u64::MAX, 0, u64::MAX, 0, u64::MAX, 3, 9, 1, 0, u64::MAX, 12, 0, 1, 2, 3];
    for p in 1..=s.len() {
        let r = compute_rsi(&s, p).unwrap();
        assert!(r <= RSI_MAX);
    }
}

#[test]
fn computing_twice_gives_the_same_value() {
    let s = textbook_closes();
    let a = compute_rsi(&s, 14);
    let b = compute_rsi(&s, 14);
    assert_eq!(a, b);
    assert_eq!(s, textbook_closes());
}

#[test]
fn one_unit_rise_then_flat_reads_full_scale() {
    let mut s = vec![100000000];
    s.extend(vec![100000001; 14]);
    assert_eq!(compute_rsi(&s, 14), Some(RSI_MAX));
    let mut long = vec![100000000];
    long.extend(vec![100000001; 99]);
    assert_eq!(compute_rsi(&long, 14), Some(RSI_MAX));
    assert_eq!(compute_rsi(&vec![1, 2, 2, 2, 2, 2, 2, 2, 2, 2, 2, 2, 2, 2, 2], 14), Some(RSI_MAX));
}

#[test]
fn one_unit_fall_then_flat_reads_zero() {
    let mut s = vec![100000001];
    s.extend(vec![100000000; 14]);
    assert_eq!(compute_rsi(&s, 14), Some(0));
}

#[test]
fn small_moves_keep_their_fractions() {
    let moves: [i64; 14] = [5, -9, 3, -4, 4, -6, 2, -3, 3, -2, 1, -3, 2, 0];
    let mut s = vec![100u64];
    for m in moves {
        let last = *s.last().unwrap() as i64;
        s.push((last + m) as u64);
    }
    assert_eq!(compute_rsi(&s, 14), Some(4255));
    assert_eq!(
        rsi_reading(&s, 14),
        Some(RsiReading { avg_gain: 1428571429, avg_loss: 1928571429 })
    );
}
