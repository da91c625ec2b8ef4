use artificiency_core::pricing::{cost_of, price_for, COST_UNITS_PER_USD};

fn usd(units: i128) -> f64 {
    units as f64 / COST_UNITS_PER_USD as f64
}

fn dollars(cents: u32) -> f64 {
    cents as f64 / 100.0
}

#[test]
fn matches_specific_version_over_family() {
    // "opus-4-8" must win over the bare "opus" fallback and the legacy
    // "opus-4" entry (both are substrings of the id).
    assert_eq!(dollars(price_for("model-opus-4-8").unwrap().input), 5.0);
    // A genuine Opus 4.0 id lands on the legacy $15 rate, not the 4.6+ one.
    assert_eq!(dollars(price_for("model-opus-4-20250514").unwrap().input), 15.0);
}

#[test]
fn tolerates_prefixes_suffixes_and_case() {
    assert_eq!(dollars(price_for("model-3-5-sonnet-20241022").unwrap().input), 3.0);
    assert_eq!(dollars(price_for("MODEL-HAIKU-4-5").unwrap().input), 1.0);
    assert!(price_for("model-fable-5").is_some());
}

#[test]
fn unknown_model_is_unpriced() {
    assert!(price_for("gpt-4o").is_none());
    assert_eq!(usd(cost_of(Some("gpt-4o"), 1000, 1000, 0, 0)), 0.0);
    assert_eq!(usd(cost_of(None, 1000, 1000, 0, 0)), 0.0);
}

#[test]
fn cost_uses_cache_multipliers() {
    // 1M input, 1M output, 1M cache-read, 1M cache-write on Opus 4.8.
    // 5 + 25 + (5*0.1) + (5*1.25) = 5 + 25 + 0.5 + 6.25 = 36.75
    let c = usd(cost_of(Some("model-opus-4-8"), 1_000_000, 1_000_000, 1_000_000, 1_000_000));
    assert!((c - 36.75).abs() < 1e-9, "got {c}");
}

#[test]
fn cost_is_exact_in_units() {
    // 36.75 USD exactly.
    assert_eq!(
        cost_of(Some("model-opus-4-8"), 1_000_000, 1_000_000, 1_000_000, 1_000_000),
        367_500_000_000
    );
    // Haiku 3.x: $0.80 in, $4 out per 1M tokens.
    let p = price_for("model-3-haiku-20240307").unwrap();
    assert_eq!((p.input, p.output), (80, 400));
    assert_eq!(p.cost(1_000, 0, 0, 0), 8_000_000);
}

#[test]
fn longest_fragment_wins_and_ties_go_last() {
    // "sonnet-4-5" (10 chars) beats "sonnet-4" and "sonnet".
    assert_eq!(price_for("model-sonnet-4-5").unwrap().input, 300);
    // "opus" alone falls back to the current family price.
    assert_eq!(price_for("opus").unwrap().input, 500);
    // "3-opus" matches the legacy row.
    assert_eq!(price_for("model-3-opus-20240229").unwrap().input, 1500);
    // Case-insensitive.
    assert_eq!(price_for("Model-Opus-4-1"), price_for("model-opus-4-1"));
}

#[test]
fn cost_is_linear_and_handles_negative_tokens() {
    let p = price_for("sonnet").unwrap();
    let a = p.cost(10, 20, 30, 40);
    let b = p.cost(1, 2, 3, 4);
    assert_eq!(p.cost(11, 22, 33, 44), a + b);
    assert_eq!(p.cost(-5, 0, 0, 0), -p.cost(5, 0, 0, 0));
    assert_eq!(p.cost(i64::MAX, i64::MAX, i64::MAX, i64::MAX) > 0, true);
}
