use stock_trading_cli_with_async_streams::partition::{chunk_symbols, expected_chunks, par_chunk_symbols};

fn symbols(n: usize) -> Vec<String> {
    (0..n).map(|i| format!("S{}", i)).collect()
}

#[test]
fn chunks_are_consecutive_and_bounded() {
    let s = symbols(12);
    let chunks = chunk_symbols(&s, 5);
    assert_eq!(chunks.len(), 3);
    assert_eq!(chunks[0], s[0..5].to_vec());
    assert_eq!(chunks[1], s[5..10].to_vec());
    assert_eq!(chunks[2], s[10..12].to_vec());
}

#[test]
fn parallel_chunks_match_sequential_chunks() {
    for n in 0..23 {
        let s = symbols(n);
        for size in 1..7 {
            assert_eq!(par_chunk_symbols(&s, size), chunk_symbols(&s, size));
        }
    }
}

#[test]
fn no_symbols_give_no_chunks() {
    assert!(chunk_symbols(&[], 5).is_empty());
    assert!(par_chunk_symbols(&[], 5).is_empty());
}

#[test]
fn expected_chunk_count_is_rounded_up() {
    assert_eq!(expected_chunks(12, 5), 3);
    assert_eq!(expected_chunks(10, 5), 2);
    assert_eq!(expected_chunks(1, 5), 1);
    assert_eq!(expected_chunks(0, 5), 0);
    assert_eq!(expected_chunks(7, 0), 0);
    assert_eq!(expected_chunks(usize::MAX, 2), usize::MAX / 2 + 1);
    for n in 0..40 {
        for size in 1..9 {
            assert_eq!(expected_chunks(n, size), chunk_symbols(&symbols(n), size).len());
        }
    }
}
