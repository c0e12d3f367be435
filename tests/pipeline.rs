use stock_trading_cli_with_async_streams::pipeline::{series_or_empty, SeriesMap};

#[test]
fn failed_fetch_omits_only_that_symbol() {
    let mut m: SeriesMap<f64> = SeriesMap::new();
    m.record("AAPL".to_string(), Ok::<Vec<f64>, String>(vec![1.0, 2.0]));
    m.record("BAD".to_string(), Err::<Vec<f64>, String>("not found".to_string()));
    m.record("MSFT".to_string(), Ok::<Vec<f64>, String>(vec![3.0]));
    assert_eq!(m.len(), 3);
    let due = m.into_rows_due();
    let symbols: Vec<&str> = due.iter().map(|e| e.symbol.as_str()).collect();
    assert_eq!(symbols, vec!["AAPL", "MSFT"]);
    assert_eq!(due[0].series, vec![1.0, 2.0]);
    assert_eq!(due[1].series, vec![3.0]);
}

#[test]
fn empty_series_is_skipped() {
    let mut m: SeriesMap<f64> = SeriesMap::new();
    m.record("EMPTY".to_string(), Ok::<Vec<f64>, ()>(vec![]));
    m.record("GOOG".to_string(), Ok::<Vec<f64>, ()>(vec![5.0]));
    let due = m.into_rows_due();
    assert_eq!(due.len(), 1);
    assert_eq!(due[0].symbol, "GOOG");
}

#[test]
fn a_symbol_recorded_twice_keeps_its_place_and_last_series() {
    let mut m: SeriesMap<u32> = SeriesMap::new();
    m.insert("A".to_string(), vec![1]);
    m.insert("B".to_string(), vec![2]);
    m.insert("A".to_string(), vec![3]);
    assert_eq!(m.len(), 2);
    let due = m.into_rows_due();
    assert_eq!(due[0].symbol, "A");
    assert_eq!(due[0].series, vec![3]);
    assert_eq!(due[1].symbol, "B");
}

#[test]
fn outcome_series_is_the_fetched_series_or_empty() {
    assert_eq!(series_or_empty(Ok::<Vec<u8>, ()>(vec![7, 8])), vec![7, 8]);
    assert!(series_or_empty(Err::<Vec<u8>, ()>(())).is_empty());
}
