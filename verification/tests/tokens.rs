use price_providers::tokens::{tokens_or_defaults, TokensOfInterest};

#[test]
fn stored_tokens_are_kept() {
    let stored = vec!["ETHUSDT".to_string(), "BTCUSDC".to_string()];
    let chosen = tokens_or_defaults(stored.clone(), &["SOLUSDT"]);
    assert!(!chosen.populates_store());
    assert!(matches!(&chosen, TokensOfInterest::Stored(_)));
    assert_eq!(chosen.into_tokens(), stored);
}

#[test]
fn an_empty_store_gives_the_defaults() {
    let chosen = tokens_or_defaults(Vec::new(), &["BTCUSDC", "ETHUSDT"]);
    assert!(chosen.populates_store());
    assert!(matches!(&chosen, TokensOfInterest::Defaults(_)));
    assert_eq!(chosen.into_tokens(), vec!["BTCUSDC".to_string(), "ETHUSDT".to_string()]);
}

#[test]
fn an_empty_store_and_no_defaults_give_nothing() {
    let chosen = tokens_or_defaults(Vec::new(), &[]);
    assert!(chosen.populates_store());
    assert!(chosen.into_tokens().is_empty());
}
