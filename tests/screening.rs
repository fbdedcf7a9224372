use rsi_screener::rsi::RsiReading;
use rsi_screener::screen::{
    classify, closes_from_candles, select_candidates, symbol_outcome, ScreenConfig, ScreenError,
    SymbolOutcome, DEFAULT_HIGH, DEFAULT_LIMIT, DEFAULT_LOW,
};

fn reading(g: u128, l: u128) -> RsiReading {
    RsiReading { avg_gain: g, avg_loss: l }
}

fn fields(texts: &[&str]) -> Vec<Option<String>> {
    texts.iter().map(|t| Some(t.to_string())).collect()
}

#[test]
fn oversold_and_overbought_are_told_apart() {
    let aaa = reading(25, 75);
    let bbb = reading(80, 20);
    assert_eq!(aaa.hundredths(), 2500);
    assert_eq!(bbb.hundredths(), 8000);
    let results = vec![
        ("AAA".to_string(), SymbolOutcome::Rsi(aaa)),
        ("BBB".to_string(), SymbolOutcome::Rsi(bbb)),
    ];
    let report = classify(&results, 3000, 7000);
    assert_eq!(report.oversold, vec![("AAA".to_string(), aaa)]);
    assert_eq!(report.overbought, vec![("BBB".to_string(), bbb)]);
}

#[test]
fn failed_symbol_is_left_out() {
    let results = vec![
        ("AAA".to_string(), SymbolOutcome::Rsi(reading(10, 90))),
        ("BAD".to_string(), symbol_outcome(&None, 14)),
        ("CCC".to_string(), SymbolOutcome::Rsi(reading(90, 10))),
        ("DDD".to_string(), SymbolOutcome::TooShort),
        ("EEE".to_string(), SymbolOutcome::Rsi(reading(2999, 7001))),
    ];
    let report = classify(&results, 3000, 7000);
    assert_eq!(
        report.oversold,
        vec![("AAA".to_string(), reading(10, 90)), ("EEE".to_string(), reading(2999, 7001))]
    );
    assert_eq!(report.overbought, vec![("CCC".to_string(), reading(90, 10))]);
}

#[test]
fn thresholds_themselves_are_not_reported() {
    let results = vec![
        ("LOW".to_string(), SymbolOutcome::Rsi(reading(30, 70))),
        ("MID".to_string(), SymbolOutcome::Rsi(reading(0, 0))),
        ("HIGH".to_string(), SymbolOutcome::Rsi(reading(70, 30))),
    ];
    let report = classify(&results, 3000, 7000);
    assert!(report.oversold.is_empty());
    assert!(report.overbought.is_empty());
}

#[test]
fn index_just_above_threshold_is_overbought() {
    let r = reading(70001, 29999);
    assert_eq!(r.hundredths(), 7000);
    assert!(r.is_above(7000));
    assert!(!r.is_below(3000));
    let report = classify(&vec![("NEAR".to_string(), SymbolOutcome::Rsi(r))], 3000, 7000);
    assert_eq!(report.overbought, vec![("NEAR".to_string(), r)]);
    assert!(reading(29999, 70001).is_below(3000));
}

#[test]
fn listing_without_list_is_fatal() {
    assert_eq!(select_candidates(&None, 100), Err(ScreenError::CandidateListError));
}

#[test]
fn listing_keeps_named_entries_up_to_the_limit() {
    let list = Some(vec![
        Some("A".to_string()),
        None,
        Some("B".to_string()),
        Some("C".to_string()),
    ]);
    assert_eq!(select_candidates(&list, 2), Ok(vec!["A".to_string(), "B".to_string()]));
    assert_eq!(select_candidates(&Some(Vec::new()), 2), Ok(Vec::new()));
}

#[test]
fn closes_skip_unreadable_fields() {
    let mut f = fields(&["1.5", "x", "2"]);
    f.push(None);
    f.push(Some("3.25".to_string()));
    assert_eq!(closes_from_candles(&f), vec![150000000, 200000000, 325000000]);
}

#[test]
fn symbol_outcome_computes_the_index() {
    let f = fields(&[
        "44.34", "44.09", "44.15", "43.61", "44.33", "44.83", "45.10", "45.42", "45.84", "46.08",
        "45.89", "46.03", "45.61", "46.28", "46.28",
    ]);
    let outcome = symbol_outcome(&Some(f.clone()), 14);
    assert_eq!(outcome, SymbolOutcome::Rsi(reading(23857142857142858, 10000000000000000)));
    match outcome {
        SymbolOutcome::Rsi(r) => assert_eq!(r.hundredths(), 7046),
        _ => panic!("expected an index"),
    }
    assert_eq!(symbol_outcome(&Some(f[..5].to_vec()), 14), SymbolOutcome::TooShort);
    assert_eq!(symbol_outcome(&None, 14), SymbolOutcome::FetchFailed);
}

#[test]
fn default_settings() {
    let c = ScreenConfig::default();
    assert_eq!(c.limit, DEFAULT_LIMIT);
    assert_eq!(c.limit, 100);
    assert_eq!(c.period, 14);
    assert_eq!(c.low, DEFAULT_LOW);
    assert_eq!(c.high, DEFAULT_HIGH);
}
