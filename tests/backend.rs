use i18n_backend::backend::{Backend, BackendExt, SimpleBackend};

fn pairs(items: &[(&str, &str)]) -> Vec<(String, String)> {
    items.iter().map(|(k, v)| (k.to_string(), v.to_string())).collect()
}

fn sample_backend() -> SimpleBackend {
    let mut backend = SimpleBackend::new();
    backend.add_translations("en".into(), pairs(&[("hello", "Hello"), ("foo", "Foo bar")]));
    backend.add_translations("zh-CN".into(), pairs(&[("hello", "你好"), ("foo", "Foo 测试")]));
    backend
}

#[test]
fn test_simple_backend() {
    let backend = sample_backend();

    assert_eq!(backend.translate("en", "hello"), Some("Hello"));
    assert_eq!(backend.translate("en", "foo"), Some("Foo bar"));
    assert_eq!(backend.translate("zh-CN", "hello"), Some("你好"));
    assert_eq!(backend.translate("zh-CN", "foo"), Some("Foo 测试"));

    assert_eq!(backend.available_locales(), vec!["en", "zh-CN"]);
}

#[test]
fn test_combined_backend() {
    let backend = sample_backend();

    let mut backend2 = SimpleBackend::new();
    backend2.add_translations("en".into(), pairs(&[("hello", "Hello2")]));
    backend2.add_translations("zh-CN".into(), pairs(&[("hello", "你好2")]));

    let combined = backend.extend(backend2);
    assert_eq!(combined.translate("en", "hello"), Some("Hello2"));
    assert_eq!(combined.translate("zh-CN", "hello"), Some("你好2"));

    assert_eq!(combined.available_locales(), vec!["en", "zh-CN"]);
}

#[test]
fn simple_backend_misses() {
    let backend = sample_backend();
    assert_eq!(backend.translate("en", "missing"), None);
    assert_eq!(backend.translate("fr", "hello"), None);
    assert_eq!(backend.translate("zh", "hello"), None);
    assert_eq!(backend.translate("", "hello"), None);
}

#[test]
fn add_translations_merges_and_last_write_wins() {
    let mut backend = SimpleBackend::new();
    backend.add_translations("en".into(), pairs(&[("a", "1"), ("b", "2")]));
    backend.add_translations("en".into(), pairs(&[("b", "3"), ("c", "4"), ("c", "5")]));
    assert_eq!(backend.translate("en", "a"), Some("1"));
    assert_eq!(backend.translate("en", "b"), Some("3"));
    assert_eq!(backend.translate("en", "c"), Some("5"));
    assert_eq!(backend.available_locales(), vec!["en"]);
}

#[test]
fn available_locales_sorted_without_duplicates() {
    let mut backend = SimpleBackend::new();
    backend.add_translations("zh-CN".into(), pairs(&[("a", "1")]));
    backend.add_translations("en".into(), pairs(&[("a", "1")]));
    backend.add_translations("fr".into(), Vec::new());
    backend.add_translations("de".into(), pairs(&[("a", "1")]));
    backend.add_translations("en".into(), pairs(&[("b", "2")]));
    backend.add_translations("en-US".into(), Vec::new());
    assert_eq!(backend.available_locales(), vec!["de", "en", "en-US", "fr", "zh-CN"]);
    // a locale added with no keys is still available
    assert_eq!(backend.messages_for_locale("fr"), Some(vec![]));
}

#[test]
fn available_locales_of_empty_backend() {
    let backend = SimpleBackend::default();
    assert!(backend.available_locales().is_empty());
    assert_eq!(backend.messages_for_locale("en"), None);
}

#[test]
fn simple_messages_for_locale() {
    let backend = sample_backend();
    let mut msgs = backend.messages_for_locale("en").unwrap();
    msgs.sort();
    assert_eq!(msgs, vec![("foo", "Foo bar"), ("hello", "Hello")]);
    assert_eq!(backend.messages_for_locale("fr"), None);
}

#[test]
fn combined_override_precedence() {
    let mut base = SimpleBackend::new();
    base.add_translations("en".into(), pairs(&[("a", "base a"), ("b", "base b")]));
    let mut over = SimpleBackend::new();
    over.add_translations("en".into(), pairs(&[("a", "over a"), ("c", "over c")]));
    let combined = base.extend(over);
    assert_eq!(combined.translate("en", "a"), Some("over a"));
    assert_eq!(combined.translate("en", "b"), Some("base b"));
    assert_eq!(combined.translate("en", "c"), Some("over c"));
    assert_eq!(combined.translate("en", "d"), None);
    // no locale fallback inside the layering
    assert_eq!(combined.translate("en-US", "a"), None);
}

#[test]
fn combined_locales_first_seen_not_resorted() {
    let mut base = SimpleBackend::new();
    base.add_translations("fr".into(), Vec::new());
    base.add_translations("zh".into(), Vec::new());
    let mut over = SimpleBackend::new();
    over.add_translations("de".into(), Vec::new());
    over.add_translations("fr".into(), Vec::new());
    over.add_translations("ja".into(), Vec::new());
    let combined = base.extend(over);
    assert_eq!(combined.available_locales(), vec!["fr", "zh", "de", "ja"]);
}

#[test]
fn combined_messages_for_locale() {
    let mut base = SimpleBackend::new();
    base.add_translations("en".into(), pairs(&[("a", "base a"), ("b", "base b")]));
    base.add_translations("fr".into(), pairs(&[("a", "fr a")]));
    let mut over = SimpleBackend::new();
    over.add_translations("en".into(), pairs(&[("a", "over a"), ("c", "over c")]));
    over.add_translations("de".into(), pairs(&[("a", "de a")]));
    let combined = base.extend(over);

    let en = combined.messages_for_locale("en").unwrap();
    assert_eq!(en.len(), 3);
    let (over_part, base_part) = en.split_at(2);
    let mut over_part = over_part.to_vec();
    over_part.sort();
    assert_eq!(over_part, vec![("a", "over a"), ("c", "over c")]);
    assert_eq!(base_part.to_vec(), vec![("b", "base b")]);

    assert_eq!(combined.messages_for_locale("fr"), Some(vec![("a", "fr a")]));
    assert_eq!(combined.messages_for_locale("de"), Some(vec![("a", "de a")]));
    assert_eq!(combined.messages_for_locale("ja"), None);
}

#[test]
fn combined_nests() {
    let mut a = SimpleBackend::new();
    a.add_translations("en".into(), pairs(&[("k", "a"), ("x", "a x")]));
    let mut b = SimpleBackend::new();
    b.add_translations("en".into(), pairs(&[("k", "b"), ("y", "b y")]));
    let mut c = SimpleBackend::new();
    c.add_translations("en".into(), pairs(&[("k", "c")]));
    let stacked = a.extend(b).extend(c);
    assert_eq!(stacked.translate("en", "k"), Some("c"));
    assert_eq!(stacked.translate("en", "x"), Some("a x"));
    assert_eq!(stacked.translate("en", "y"), Some("b y"));
}

#[test]
fn translate_twice_gives_same_result() {
    let backend = sample_backend();
    assert_eq!(backend.translate("en", "hello"), backend.translate("en", "hello"));
    assert_eq!(backend.translate("en", "nope"), backend.translate("en", "nope"));
    let combined = backend.extend(SimpleBackend::new());
    assert_eq!(combined.translate("zh-CN", "foo"), combined.translate("zh-CN", "foo"));
}

#[test]
fn from_tables_replaces_repeated_locale() {
    let backend = SimpleBackend::from_tables(vec![
        ("zh-CN".to_string(), pairs(&[("hello", "你好")])),
        ("en".to_string(), pairs(&[("hello", "Hello"), ("foo", "Foo bar")])),
        ("en".to_string(), pairs(&[("foo", "Foo 2"), ("bar", "Bar"), ("bar", "Bar 2")])),
    ]);
    assert_eq!(backend.available_locales(), vec!["en", "zh-CN"]);
    assert_eq!(backend.translate("en", "hello"), None);
    assert_eq!(backend.translate("en", "foo"), Some("Foo 2"));
    assert_eq!(backend.translate("en", "bar"), Some("Bar 2"));
    assert_eq!(backend.translate("zh-CN", "hello"), Some("你好"));
    assert!(SimpleBackend::from_tables(Vec::new()).available_locales().is_empty());
}

#[test]
fn most_recent_value_over_many_adds() {
    let mut backend = SimpleBackend::new();
    backend.add_translations("en".into(), pairs(&[("k", "one")]));
    backend.add_translations("fr".into(), pairs(&[("k", "un")]));
    backend.add_translations("en".into(), pairs(&[("k", "two"), ("other", "x")]));
    backend.add_translations("en".into(), pairs(&[("other", "y")]));
    backend.add_translations("de".into(), pairs(&[("k", "eins")]));
    assert_eq!(backend.translate("en", "k"), Some("two"));
    assert_eq!(backend.translate("en", "other"), Some("y"));
    assert_eq!(backend.translate("fr", "k"), Some("un"));
}
