use i18n_backend::backend::{Backend, BackendExt, SimpleBackend};
use i18n_backend::resolve::{lookup_fallback, resolve, sorted_locales};

fn backend_with(items: &[(&str, &str, &str)]) -> SimpleBackend {
    let mut backend = SimpleBackend::new();
    for (locale, key, text) in items {
        backend.add_translations(locale.to_string(), vec![(key.to_string(), text.to_string())]);
    }
    backend
}

fn chain(locale: &str) -> Vec<&str> {
    let mut out = Vec::new();
    let mut current = locale;
    while let Some(parent) = lookup_fallback(current) {
        out.push(parent);
        current = parent;
    }
    out
}

#[test]
fn test_fallback() {
    let backend = backend_with(&[("en", "missing.default", "This is missing key fallbacked to en.")]);
    assert_eq!(
        resolve(&backend, "en", "missing.default", &["en"]),
        "This is missing key fallbacked to en."
    );
}

#[test]
fn intergartion_test_test_fallback() {
    let backend = backend_with(&[("zh-CN", "fallback_to_cn", "这是一个中文的翻译。")]);
    assert_eq!(resolve(&backend, "en", "fallback_to_cn", &["zh-CN"]), "这是一个中文的翻译。");
}

#[test]
fn test_translate() {
    let backend = backend_with(&[("en", "hello", "Bar - Hello, World!"), ("zh-CN", "hello", "Bar - 你好世界！")]);
    assert_eq!(resolve(&backend, "en", "hello", &["en"]), "Bar - Hello, World!");
}

#[test]
fn test_available_locales() {
    let backend = backend_with(&[("zh-CN", "hello", "Bar - 你好世界！"), ("en", "hello", "Bar - Hello, World!")]);
    assert_eq!(backend.available_locales(), &["en", "zh-CN"]);
    assert_eq!(sorted_locales(&backend), &["en", "zh-CN"]);
}

#[test]
fn sorted_locales_of_combined_backend() {
    let base = backend_with(&[("zh", "k", "v"), ("fr", "k", "v")]);
    let over = backend_with(&[("ja", "k", "v"), ("de", "k", "v"), ("fr", "k", "w")]);
    let combined = base.extend(over);
    assert_eq!(combined.available_locales(), vec!["fr", "zh", "de", "ja"]);
    assert_eq!(sorted_locales(&combined), vec!["de", "fr", "ja", "zh"]);
    assert!(sorted_locales(&SimpleBackend::new()).is_empty());
}

#[test]
fn fallback_chain_strips_private_use() {
    assert_eq!(
        chain("zh-Hant-CN-x-private1-private2"),
        vec!["zh-Hant-CN-x-private1", "zh-Hant-CN", "zh-Hant", "zh"]
    );
}

#[test]
fn fallback_chain_edges() {
    assert_eq!(lookup_fallback("en"), None);
    assert_eq!(lookup_fallback(""), None);
    assert_eq!(lookup_fallback("en-US"), Some("en"));
    assert_eq!(lookup_fallback("a-x-x-b"), Some("a"));
    assert_eq!(lookup_fallback("-"), Some(""));
    assert_eq!(lookup_fallback("a-X-b"), Some("a-X"));
    assert_eq!(chain("de-CH-1996"), vec!["de-CH", "de"]);
}

#[test]
fn scenario_exact_hit() {
    let backend = backend_with(&[("en", "hello", "Hello")]);
    assert_eq!(resolve(&backend, "en", "hello", &[]), "Hello");
}

#[test]
fn scenario_configured_fallback_after_chain() {
    let backend = backend_with(&[("en", "missing.default", "This is missing key fallbacked to en.")]);
    assert_eq!(
        resolve(&backend, "zh-CN", "missing.default", &["en"]),
        "This is missing key fallbacked to en."
    );
}

#[test]
fn scenario_no_chain_straight_to_configured() {
    let backend = backend_with(&[("zh-CN", "fallback_to_cn", "这是一个中文的翻译。")]);
    assert_eq!(resolve(&backend, "en", "fallback_to_cn", &["zh-CN"]), "这是一个中文的翻译。");
}

#[test]
fn scenario_total_miss_marker() {
    let backend = backend_with(&[("en", "hello", "Hello")]);
    assert_eq!(resolve(&backend, "fr", "nonexistent.key", &[]), "fr.nonexistent.key");
}

#[test]
fn scenario_empty_locale_returns_key() {
    let backend = backend_with(&[("en", "hello", "Hello")]);
    assert_eq!(resolve(&backend, "", "any.key", &[]), "any.key");
}

#[test]
fn chain_is_tried_before_configured_fallbacks() {
    let backend = backend_with(&[("zh", "k", "from zh"), ("en", "k", "from en")]);
    assert_eq!(resolve(&backend, "zh-Hant-CN", "k", &["en"]), "from zh");
    assert_eq!(resolve(&backend, "ja-JP", "k", &["fr", "en"]), "from en");
}

#[test]
fn configured_fallbacks_in_listed_order() {
    let backend = backend_with(&[("fr", "k", "from fr"), ("en", "k", "from en")]);
    assert_eq!(resolve(&backend, "de", "k", &["en", "fr"]), "from en");
    assert_eq!(resolve(&backend, "de", "k", &["fr", "en"]), "from fr");
    // configured locales are not truncated
    assert_eq!(resolve(&backend, "de", "k", &["fr-CA"]), "de.k");
}

#[test]
fn empty_locale_still_uses_configured_fallback() {
    let backend = backend_with(&[("en", "k", "from en")]);
    assert_eq!(resolve(&backend, "", "k", &["en"]), "from en");
}

#[test]
fn resolve_through_combined_backend() {
    let base = backend_with(&[("en", "k", "base"), ("zh", "k", "base zh")]);
    let over = backend_with(&[("zh-CN", "k", "over zh-CN")]);
    let combined = base.extend(over);
    assert_eq!(resolve(&combined, "zh-CN", "k", &[]), "over zh-CN");
    assert_eq!(resolve(&combined, "zh-TW", "k", &[]), "base zh");
    assert_eq!(resolve(&combined, "ja", "k", &["en"]), "base");
}
