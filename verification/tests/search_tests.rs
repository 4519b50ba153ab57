use chartmath::SymbolEntry;
use chartmath::filter_symbols_impl;

fn entry(symbol: &str, name: &str) -> SymbolEntry {
    SymbolEntry { symbol: symbol.to_string(), name: name.to_string() }
}

fn sample_entries() -> Vec<SymbolEntry> {
    vec![
        entry("AAPL", "Apple Inc."),
        entry("MSFT", "Microsoft Corporation"),
        entry("AMZN", "Amazon.com Inc."),
        entry("GOOG", "Alphabet Inc."),
        entry("META", "Meta Platforms Inc."),
        entry("TSLA", "Tesla Inc."),
        entry("AA", "Alcoa Corporation"),
    ]
}

#[test]
fn filter_exact_match_scores_highest() {
    let entries = sample_entries();
    let result = filter_symbols_impl(&entries, "AAPL", 10);
    assert!(!result.is_empty());
    assert_eq!(result[0].symbol, "AAPL");
}

#[test]
fn filter_prefix_match() {
    let entries = sample_entries();
    let result = filter_symbols_impl(&entries, "AA", 10);
    // "AA" exact match on AA (100), "AAPL" starts with "AA" (80)
    assert!(result.len() >= 2);
    assert_eq!(result[0].symbol, "AA", "Exact match should rank first");
    assert_eq!(result[1].symbol, "AAPL", "Prefix match should rank second");
}

#[test]
fn filter_no_match() {
    let entries = sample_entries();
    let result = filter_symbols_impl(&entries, "XYZ", 10);
    assert!(result.is_empty());
}

#[test]
fn filter_case_insensitivity() {
    let entries = sample_entries();
    let result = filter_symbols_impl(&entries, "aapl", 10);
    assert!(!result.is_empty());
    assert_eq!(result[0].symbol, "AAPL");
}

#[test]
fn filter_name_match() {
    let entries = sample_entries();
    let result = filter_symbols_impl(&entries, "Tesla", 10);
    assert_eq!(result.len(), 1);
    assert_eq!(result[0].symbol, "TSLA");
}

#[test]
fn filter_max_results_limit() {
    let entries = sample_entries();
    let result = filter_symbols_impl(&entries, "a", 2);
    assert_eq!(result.len(), 2);
}

#[test]
fn filter_name_contains() {
    let entries = sample_entries();
    // "Platforms" is contained in "Meta Platforms Inc." -> score 20
    let result = filter_symbols_impl(&entries, "Platforms", 10);
    assert_eq!(result.len(), 1);
    assert_eq!(result[0].symbol, "META");
}

#[test]
fn filter_empty_query_returns_up_to_max() {
    let entries = sample_entries();
    let result = filter_symbols_impl(&entries, "", 3);
    assert_eq!(result.len(), 3);
}

#[test]
fn filter_symbol_contains() {
    let entries = sample_entries();
    // "OO" is contained in "GOOG" -> symbol contains = 60
    let result = filter_symbols_impl(&entries, "OO", 10);
    assert!(!result.is_empty());
    assert_eq!(result[0].symbol, "GOOG");
}

#[test]
fn filter_ranks_symbol_hits_above_name_hits() {
    let entries = vec![entry("INC", "Something Else"), entry("ZZZ", "Inc. Holdings")];
    // "inc" matches ZZZ only through its name, INC through its symbol.
    let result = filter_symbols_impl(&entries, "inc", 10);
    assert_eq!(result.len(), 2);
    assert_eq!(result[0].symbol, "INC");
    assert_eq!(result[1].symbol, "ZZZ");
}

#[test]
fn filter_empty_query_keeps_input_order() {
    let entries = sample_entries();
    let result = filter_symbols_impl(&entries, "", 100);
    assert_eq!(result.len(), entries.len());
    for i in 0..entries.len() {
        assert_eq!(result[i].symbol, entries[i].symbol);
        assert_eq!(result[i].name, entries[i].name);
    }
}
