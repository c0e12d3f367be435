use stock_trading_cli_with_async_streams::signals::WindowedSMA;

#[test]
fn moving_average_window_counts() {
    let len = [2.0, 4.5, 5.3, 6.5, 4.7].len();
    assert_eq!(WindowedSMA { window_size: 3 }.window_count(len), Some(3));
    assert_eq!(WindowedSMA { window_size: 5 }.window_count(len), Some(1));
    assert_eq!(WindowedSMA { window_size: 10 }.window_count(len), Some(0));
}

#[test]
fn moving_average_undefined_cases() {
    assert_eq!(WindowedSMA { window_size: 1 }.window_count(5), None);
    assert_eq!(WindowedSMA { window_size: 0 }.window_count(5), None);
    assert_eq!(WindowedSMA { window_size: 3 }.window_count(0), None);
}
