use stock_trading_cli_with_async_streams::config::{
    split_symbols, Args, Config, ConfigError, ImplementationVariant, CHUNK_SIZE,
};

fn args(from: &str, symbols: &str, variant: ImplementationVariant) -> Args {
    Args { from: from.to_string(), symbols: symbols.to_string(), variant }
}

#[test]
fn symbols_are_split_at_commas() {
    assert_eq!(split_symbols("AAPL,AMZN,GOOG,MSFT"), vec!["AAPL", "AMZN", "GOOG", "MSFT"]);
    assert_eq!(split_symbols("AAPL"), vec!["AAPL"]);
    assert_eq!(split_symbols(""), vec![""]);
    assert_eq!(split_symbols("A,,B,"), vec!["A", "", "B", ""]);
}

#[test]
fn config_from_valid_arguments() {
    let a = args("2024-01-02T03:04:05Z", "A,B,C,D,E,F,G", ImplementationVariant::MyActorsNoRayon);
    let c = Config::new(&a, CHUNK_SIZE).unwrap();
    assert_eq!(c.period, "2024-01-02T03:04:05Z");
    assert_eq!(c.symbols.len(), 7);
    assert_eq!(c.expected_chunks, 2);
    assert_eq!(c.chunks, vec![vec!["A", "B", "C", "D", "E"], vec!["F", "G"]]);
}

#[test]
fn rayon_variant_chunks_the_same_way() {
    let a = args("2024-01-02T03:04:05+02:00", "A,B,C", ImplementationVariant::MyActorsRayon);
    let c = Config::new(&a, 2).unwrap();
    assert_eq!(c.chunks, vec![vec!["A", "B"], vec!["C"]]);
    assert_eq!(c.period, "2024-01-02T03:04:05+02:00");
}

#[test]
fn malformed_start_is_refused() {
    let a = args("yesterday", "AAPL", ImplementationVariant::MyActorsNoRayon);
    assert_eq!(Config::new(&a, CHUNK_SIZE).err(), Some(ConfigError::InvalidStart));
}

#[test]
fn zero_chunk_size_is_refused() {
    let a = args("2024-01-02T03:04:05Z", "AAPL", ImplementationVariant::MyActorsNoRayon);
    assert_eq!(Config::new(&a, 0).err(), Some(ConfigError::ZeroChunkSize));
}

#[test]
fn missing_period_label_falls_back_to_the_given_text() {
    let a = args("2024-01-02T03:04:05Z", "AAPL", ImplementationVariant::NoActorsNoRayon);
    let from = time::OffsetDateTime::UNIX_EPOCH;
    let c = Config::assemble(from, None, &a, 5).unwrap();
    assert_eq!(c.period, "2024-01-02T03:04:05Z");
    let c = Config::assemble(from, Some("label".to_string()), &a, 5).unwrap();
    assert_eq!(c.period, "label");
    assert_eq!(c.from, from);
    assert_eq!(Config::assemble(from, None, &a, 0).err(), Some(ConfigError::ZeroChunkSize));
}

#[test]
fn accepted_start_always_gives_a_configuration() {
    for from in ["2024-01-02T03:04:05Z", "1999-12-31T23:59:59.5-08:00", "2000-02-29T00:00:00+14:00"] {
        let a = args(from, "AAPL,MSFT", ImplementationVariant::MyActorsNoRayon);
        let c = Config::new(&a, 1).unwrap();
        assert_eq!(c.chunks, vec![vec!["AAPL"], vec!["MSFT"]]);
        assert_eq!(c.expected_chunks, 2);
    }
}

#[test]
fn rayon_variants() {
    assert!(ImplementationVariant::MyActorsRayon.uses_rayon());
    assert!(ImplementationVariant::ActixActorsRayon.uses_rayon());
    assert!(ImplementationVariant::NoActorsRayon.uses_rayon());
    assert!(!ImplementationVariant::MyActorsNoRayon.uses_rayon());
    assert!(!ImplementationVariant::ActixActorsNoRayon.uses_rayon());
    assert!(!ImplementationVariant::NoActorsNoRayon.uses_rayon());
}
