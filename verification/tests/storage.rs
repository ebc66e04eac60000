use pwstore::fileops::all_values;
use pwstore::fileops::apply_set;
use pwstore::fileops::initial_content;
use pwstore::fileops::lookup;
use pwstore::store::Storage;
use pwstore::store::StoreMap;
use pwstore::StoreError;

#[test]
fn test_set_and_get() {
    let mut storage = StoreMap::new();
    storage.set("key".to_string(), "value".to_string()).unwrap();
    assert_eq!(storage.get("key".to_string()).unwrap(), Some("value".to_string()));
}

#[test]
fn test_get_nonexistent_key() {
    let storage = StoreMap::new();
    assert_eq!(storage.get("nonexistent_key".to_string()).unwrap(), None);
}

#[test]
fn test_persistence() {
    let mut storage = StoreMap::new();
    storage
        .set("persisted_key".to_string(), "persisted_value".to_string())
        .unwrap();
    let written = storage.to_json();
    drop(storage);

    let new_storage = StoreMap::from_json(&written).unwrap();
    assert_eq!(
        new_storage.get("persisted_key".to_string()).unwrap(),
        Some("persisted_value".to_string())
    );
}

#[test]
fn test_get_all() {
    let mut storage = StoreMap::new();
    storage.set("k1".to_string(), "v1".to_string()).unwrap();
    storage.set("k2".to_string(), "v2".to_string()).unwrap();
    storage.set("k3".to_string(), "v3".to_string()).unwrap();

    let mut values = storage.get_all().unwrap().unwrap_or_default();
    values.sort();

    let mut expected = vec!["v1".to_string(), "v2".to_string(), "v3".to_string()];
    expected.sort();

    assert_eq!(values, expected);
}

#[test]
fn get_all_on_empty_store_is_none() {
    let storage = StoreMap::new();
    assert_eq!(storage.get_all().unwrap(), None);
}

#[test]
fn set_overwrites_existing_key() {
    let mut storage = StoreMap::new();
    storage.set("k".to_string(), "old".to_string()).unwrap();
    storage.set("k".to_string(), "new".to_string()).unwrap();
    assert_eq!(storage.get("k".to_string()).unwrap(), Some("new".to_string()));
    assert_eq!(storage.get_all().unwrap(), Some(vec!["new".to_string()]));
}

#[test]
fn empty_store_serializes_to_empty_object() {
    assert_eq!(StoreMap::new().to_json(), "{}");
    assert_eq!(initial_content(), "{}");
}

#[test]
fn one_entry_serializes_exactly() {
    let mut storage = StoreMap::new();
    storage.set("key".to_string(), "value".to_string()).unwrap();
    assert_eq!(storage.to_json(), "{\"key\":\"value\"}");
}

#[test]
fn escapes_are_written_and_read_back() {
    let key = "a\"b".to_string();
    let value = "c\\d\ne".to_string();
    let mut storage = StoreMap::new();
    storage.set(key.clone(), value.clone()).unwrap();
    let text = storage.to_json();
    assert_eq!(text, "{\"a\\\"b\":\"c\\\\d\\u000ae\"}");

    let back = StoreMap::from_json(&text).unwrap();
    assert_eq!(back.get(key).unwrap(), Some(value));
}

#[test]
fn parses_two_entries_in_order() {
    let back = StoreMap::from_json("{\"a\":\"1\",\"b\":\"2\"}").unwrap();
    assert_eq!(back.get("a".to_string()).unwrap(), Some("1".to_string()));
    assert_eq!(back.get("b".to_string()).unwrap(), Some("2".to_string()));
    assert_eq!(
        back.get_all().unwrap(),
        Some(vec!["1".to_string(), "2".to_string()])
    );
}

#[test]
fn malformed_content_is_rejected() {
    for bad in [
        "",
        "not json",
        "{",
        "{}x",
        "{\"a\":\"b\",}",
        "{\"a\":\"b\"",
        "{\"a\":1}",
        "{\"a\":\"b\",\"a\":\"c\"}",
        "{\"a\u{7}\":\"b\"}",
        "{\"a\":\"b\\q\"}",
        "{\"a\":\"\\uD800\"}",
    ] {
        assert!(matches!(
            StoreMap::from_json(bad),
            Err(StoreError::MalformedContent)
        ));
    }
}

#[test]
fn whitespace_between_tokens_is_accepted() {
    let empty = StoreMap::from_json("{ }").unwrap();
    assert_eq!(empty.get_all().unwrap(), None);
    let trailing = StoreMap::from_json("{}\n").unwrap();
    assert_eq!(trailing.get_all().unwrap(), None);
    let spaced = StoreMap::from_json("{ \"a\" : \"1\" ,\n  \"b\" : \"2\" }").unwrap();
    assert_eq!(spaced.get("a".to_string()).unwrap(), Some("1".to_string()));
    assert_eq!(spaced.get("b".to_string()).unwrap(), Some("2".to_string()));
}

#[test]
fn standard_escapes_are_accepted() {
    let short = StoreMap::from_json("{\"a\":\"x\\ty\\nz\\/w\"}").unwrap();
    assert_eq!(
        short.get("a".to_string()).unwrap(),
        Some("x\ty\nz/w".to_string())
    );
    let unicode = StoreMap::from_json("{\"a\":\"\\u0041\\u00e9\"}").unwrap();
    assert_eq!(unicode.get("a".to_string()).unwrap(), Some("A\u{e9}".to_string()));
    let pair = StoreMap::from_json("{\"a\":\"\\uD83D\\uDE00\"}").unwrap();
    assert_eq!(
        pair.get("a".to_string()).unwrap(),
        Some("\u{1F600}".to_string())
    );
}

#[test]
fn apply_set_rewrites_the_whole_content() {
    let start = initial_content();
    let one = apply_set(&start, "k1".to_string(), "v1".to_string()).unwrap();
    assert_eq!(one, "{\"k1\":\"v1\"}");
    let two = apply_set(&one, "k2".to_string(), "v2".to_string()).unwrap();
    assert_eq!(two, "{\"k1\":\"v1\",\"k2\":\"v2\"}");
    let replaced = apply_set(&two, "k1".to_string(), "v3".to_string()).unwrap();
    assert_eq!(replaced, "{\"k1\":\"v3\",\"k2\":\"v2\"}");
    assert!(apply_set("oops", "k".to_string(), "v".to_string()).is_err());
}

#[test]
fn lookup_and_all_values_on_content() {
    let content = "{\"k1\":\"v1\",\"k2\":\"v2\"}";
    assert_eq!(
        lookup(content, "k1".to_string()).unwrap(),
        Some("v1".to_string())
    );
    assert_eq!(lookup(content, "missing".to_string()).unwrap(), None);
    assert_eq!(
        all_values(content).unwrap(),
        Some(vec!["v1".to_string(), "v2".to_string()])
    );
    assert_eq!(all_values("{}").unwrap(), None);
    assert!(lookup("oops", "k1".to_string()).is_err());
    assert!(all_values("oops").is_err());
}
