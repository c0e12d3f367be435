use stock_trading_cli_with_async_streams::config::CSV_HEADER;
use stock_trading_cli_with_async_streams::sink::{period_lines, CsvSink};

fn texts(v: &[&str]) -> Vec<String> {
    v.iter().map(|s| s.to_string()).collect()
}

#[test]
fn header_is_written_once_before_any_row() {
    let mut sink = CsvSink::new();
    assert!(!sink.is_started());
    assert!(sink.handle("p", &texts(&["AAPL,$1.00"])).is_empty());
    assert_eq!(sink.start(), vec![CSV_HEADER.to_string()]);
    assert!(sink.is_started());
    assert!(sink.start().is_empty());
}

#[test]
fn messages_are_written_in_handling_order() {
    let mut sink = CsvSink::new();
    let mut file = sink.start();
    file.extend(sink.handle("2024-01-01T00:00:00Z", &texts(&["A1", "A2"])));
    file.extend(sink.handle("2024-01-01T00:00:00Z", &texts(&["B1"])));
    assert_eq!(
        file,
        texts(&[
            CSV_HEADER,
            "2024-01-01T00:00:00Z,A1",
            "2024-01-01T00:00:00Z,A2",
            "2024-01-01T00:00:00Z,B1",
        ])
    );
    assert_eq!(file[0], "period start,symbol,price,change %,min,max,30d avg");
}

#[test]
fn each_row_is_prefixed_with_the_period() {
    let lines = period_lines("2024-05-06T07:08:09Z", &texts(&["MSFT,$1.00,2.00%,$0.50,$1.50,$0.00", ""]));
    assert_eq!(
        lines,
        texts(&["2024-05-06T07:08:09Z,MSFT,$1.00,2.00%,$0.50,$1.50,$0.00", "2024-05-06T07:08:09Z,"])
    );
    assert!(period_lines("p", &Vec::new()).is_empty());
}
