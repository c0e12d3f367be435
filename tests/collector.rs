use stock_trading_cli_with_async_streams::collector::Collector;

fn feed(c: &mut Collector<u32>, rows: Vec<u32>) -> bool {
    c.handle_chunk(rows)
}

#[test]
fn partial_cycle_is_not_visible() {
    let mut c: Collector<u32> = Collector::new(3, 2);
    assert!(!feed(&mut c, vec![1, 2]));
    assert_eq!(c.len(), 0);
    assert!(c.tail(10).is_empty());
    assert!(feed(&mut c, vec![3]));
    assert_eq!(c.tail(10), &[vec![1, 2, 3]][..]);
}

#[test]
fn empty_tail_before_any_cycle() {
    let c: Collector<u32> = Collector::new(10, 3);
    assert!(c.tail(5).is_empty());
    assert_eq!(c.capacity(), 10);
    assert_eq!(c.expected_chunks(), 3);
}

#[test]
fn ring_keeps_most_recent_capacity_batches() {
    let capacity = 3;
    let mut c: Collector<u32> = Collector::new(capacity, 1);
    for cycle in 0..(capacity as u32 + 1) {
        assert!(feed(&mut c, vec![cycle]));
    }
    assert_eq!(c.len(), capacity);
    let tail = c.tail(capacity);
    assert_eq!(tail, &[vec![1], vec![2], vec![3]][..]);
    assert!(!tail.contains(&vec![0]));
}

#[test]
fn ring_never_exceeds_capacity() {
    let mut c: Collector<u32> = Collector::new(4, 2);
    for i in 0..50u32 {
        feed(&mut c, vec![i]);
        assert!(c.len() <= 4);
    }
    assert_eq!(c.len(), 4);
    assert_eq!(c.tail(4)[3], vec![48, 49]);
}

#[test]
fn tail_request_is_clamped_to_capacity() {
    let mut c: Collector<u32> = Collector::new(2, 1);
    for i in 0..5u32 {
        feed(&mut c, vec![i]);
    }
    let tail = c.tail(1000);
    assert_eq!(tail.len(), 2);
    assert_eq!(tail, &[vec![3], vec![4]][..]);
    assert_eq!(c.tail(1), &[vec![4]][..]);
    assert!(c.tail(0).is_empty());
}

#[test]
fn chunks_arriving_in_any_order_complete_the_cycle() {
    let mut c: Collector<&str> = Collector::new(5, 3);
    assert!(!c.handle_chunk(vec!["MSFT"]));
    assert!(!c.handle_chunk(vec!["AAPL", "AMZN"]));
    assert!(c.handle_chunk(vec!["GOOG"]));
    assert_eq!(c.tail(1), &[vec!["MSFT", "AAPL", "AMZN", "GOOG"]][..]);
    assert!(!c.handle_chunk(vec!["X"]));
    assert_eq!(c.len(), 1);
}

#[test]
fn zero_expected_chunks_never_completes() {
    let mut c: Collector<u32> = Collector::new(5, 0);
    for i in 0..10u32 {
        assert!(!c.handle_chunk(vec![i]));
    }
    assert!(c.tail(5).is_empty());
}

#[test]
fn zero_capacity_holds_nothing() {
    let mut c: Collector<u32> = Collector::new(0, 1);
    assert!(c.handle_chunk(vec![1]));
    assert_eq!(c.len(), 0);
    assert!(c.tail(3).is_empty());
}
