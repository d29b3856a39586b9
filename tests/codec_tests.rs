use kv_store::codec::{escape_str, key_val_to_raw_line, raw_line_to_key_val, unescape_str};
use kv_store::error::StoreError;

fn round_trip(key: &str, val: &str) {
    let line = key_val_to_raw_line(key, val);
    let (k, v) = raw_line_to_key_val(line).expect("an encoded line decodes");
    assert_eq!(k, key);
    assert_eq!(v, val);
}

#[test]
fn escape_doubles_backslash_and_escapes_pipe() {
    assert_eq!(escape_str("a|b"), "a\\|b");
    assert_eq!(escape_str("c\\d"), "c\\\\d");
    assert_eq!(escape_str("\\|"), "\\\\\\|");
    assert_eq!(escape_str("plain"), "plain");
    assert_eq!(escape_str(""), "");
}

#[test]
fn unescape_drops_escape_characters() {
    assert_eq!(unescape_str("a\\|b"), "a|b");
    assert_eq!(unescape_str("c\\\\d"), "c\\d");
    assert_eq!(unescape_str("\\\\\\|"), "\\|");
    assert_eq!(unescape_str("x\\"), "x\\");
    assert_eq!(unescape_str("a\\x"), "a\\x");
    assert_eq!(unescape_str("\\\\x\\y"), "\\x\\y");
    assert_eq!(unescape_str(""), "");
}

#[test]
fn escaping_twice_differs_but_unescape_inverts() {
    for s in ["\\", "|", "||", "\\|", "\\\\", "a\\\\|b", "", "abc"] {
        assert_eq!(unescape_str(&escape_str(s)), s);
    }
    assert_ne!(escape_str(&escape_str("\\")), "\\");
    assert_ne!(escape_str(&escape_str("|")), "|");
}

#[test]
fn line_layout() {
    assert_eq!(key_val_to_raw_line("a|b", "c\\d"), "a\\|b||c\\\\d");
    assert_eq!(key_val_to_raw_line("", ""), "||");
    assert_eq!(key_val_to_raw_line("test1", "test2"), "test1||test2");
}

#[test]
fn line_round_trip_on_delimiter_heavy_text() {
    let samples = ["", "\\", "|", "||", "\\|", "\\\\", "a|", "|a", "\\\\|", "|||", "a||b", "é|ü\\"];
    for k in samples {
        for v in samples {
            round_trip(k, v);
        }
    }
}

#[test]
fn decode_splits_at_first_unescaped_delimiter() {
    assert_eq!(
        raw_line_to_key_val("k||v||w".to_string()),
        Ok(("k".to_string(), "v||w".to_string()))
    );
    assert_eq!(
        raw_line_to_key_val("a\\|||b".to_string()),
        Ok(("a|".to_string(), "b".to_string()))
    );
}

#[test]
fn backslash_before_other_characters_is_kept() {
    assert_eq!(
        raw_line_to_key_val("a\\x||b\\y".to_string()),
        Ok(("a\\x".to_string(), "b\\y".to_string()))
    );
    assert_eq!(
        raw_line_to_key_val("\\\\x||\\".to_string()),
        Ok(("\\x".to_string(), "\\".to_string()))
    );
}

#[test]
fn line_without_delimiter_is_malformed() {
    assert_eq!(raw_line_to_key_val("abc".to_string()), Err(StoreError::MalformedRecord));
    assert_eq!(raw_line_to_key_val("".to_string()), Err(StoreError::MalformedRecord));
    assert_eq!(raw_line_to_key_val("a|b".to_string()), Err(StoreError::MalformedRecord));
    assert_eq!(raw_line_to_key_val("\\||".to_string()), Err(StoreError::MalformedRecord));
    assert_eq!(raw_line_to_key_val("ab\\".to_string()), Err(StoreError::MalformedRecord));
}
