use kv_store::error::StoreError;
use kv_store::store::{data_file_lines, load_data_file, open_data_store, DataStore};

fn fresh() -> DataStore {
    open_data_store("db".to_string(), true, None).expect("an existing directory opens")
}

fn reopen(ds: &DataStore) -> DataStore {
    let lines = data_file_lines(ds);
    open_data_store(ds.path().clone(), true, Some(lines)).expect("an existing directory opens")
}

#[test]
fn missing_directory_is_not_found() {
    assert!(matches!(
        open_data_store("nowhere".to_string(), false, None),
        Err(StoreError::NotFound)
    ));
    assert!(matches!(
        open_data_store("nowhere".to_string(), false, Some(vec!["a||b".to_string()])),
        Err(StoreError::NotFound)
    ));
}

#[test]
fn missing_data_file_opens_empty() {
    let mut ds = fresh();
    assert_eq!(ds.path(), "db");
    assert!(data_file_lines(&ds).is_empty());
    assert_eq!(ds.get("anything".to_string()), None);
}

#[test]
fn absent_key_on_fresh_store() {
    let mut ds = fresh();
    assert_eq!(ds.get("k".to_string()), None);
    assert_eq!(ds.get("".to_string()), None);
}

#[test]
fn insert_overwrites() {
    let mut ds = fresh();
    ds.insert("k".to_string(), "v1".to_string());
    ds.insert("k".to_string(), "v2".to_string());
    assert_eq!(ds.get("k".to_string()), Some(&"v2".to_string()));
    assert_eq!(data_file_lines(&ds), vec!["k||v2".to_string()]);
}

#[test]
fn remove_twice_is_harmless() {
    let mut ds = fresh();
    ds.insert("a".to_string(), "1".to_string());
    ds.insert("b".to_string(), "2".to_string());
    ds.remove("a".to_string());
    let after_first = data_file_lines(&ds);
    ds.remove("a".to_string());
    assert_eq!(data_file_lines(&ds), after_first);
    assert_eq!(ds.get("a".to_string()), None);
    assert_eq!(ds.get("b".to_string()), Some(&"2".to_string()));
}

#[test]
fn insert_get_remove_then_flush_leaves_empty_file() {
    let mut ds = fresh();
    assert_eq!(ds.get("test1".to_string()), None);
    ds.insert("test1".to_string(), "test2".to_string());
    assert_eq!(ds.get("test1".to_string()), Some(&"test2".to_string()));
    ds.remove("test1".to_string());
    assert_eq!(ds.get("test1".to_string()), None);
    let lines = data_file_lines(&ds);
    assert!(lines.is_empty());
    let mut again = open_data_store("db".to_string(), true, Some(lines)).unwrap();
    assert_eq!(again.get("test1".to_string()), None);
    assert!(data_file_lines(&again).is_empty());
}

#[test]
fn delimiter_characters_survive_flush_and_reopen() {
    let mut ds = fresh();
    ds.insert("a|b".to_string(), "c\\d".to_string());
    assert_eq!(data_file_lines(&ds), vec!["a\\|b||c\\\\d".to_string()]);
    let mut again = reopen(&ds);
    assert_eq!(again.get("a|b".to_string()), Some(&"c\\d".to_string()));
}

#[test]
fn save_then_load_keeps_every_pair() {
    let mut ds = fresh();
    let pairs = [("", ""), ("||", "\\"), ("\\|", "|"), ("x", "y||z"), ("\\\\", "\\\\|")];
    for (k, v) in pairs {
        ds.insert(k.to_string(), v.to_string());
    }
    let mut again = reopen(&ds);
    for (k, v) in pairs {
        assert_eq!(again.get(k.to_string()), Some(&v.to_string()));
    }
    assert_eq!(data_file_lines(&again).len(), pairs.len());
}

#[test]
fn malformed_lines_are_skipped() {
    let lines = vec![
        "a||1".to_string(),
        "no delimiter".to_string(),
        "b||2".to_string(),
        "".to_string(),
    ];
    let mut ds = open_data_store("db".to_string(), true, Some(lines.clone())).unwrap();
    assert_eq!(ds.get("a".to_string()), Some(&"1".to_string()));
    assert_eq!(ds.get("b".to_string()), Some(&"2".to_string()));
    assert_eq!(data_file_lines(&ds).len(), 2);
    let mut other = fresh();
    assert_eq!(load_data_file(&lines, &mut other), 2);
    assert_eq!(load_data_file(&vec!["k||v".to_string()], &mut other), 0);
}

#[test]
fn later_line_for_a_key_wins() {
    let lines = vec!["k||old".to_string(), "k||new".to_string()];
    let mut ds = open_data_store("db".to_string(), true, Some(lines)).unwrap();
    assert_eq!(ds.get("k".to_string()), Some(&"new".to_string()));
    assert_eq!(data_file_lines(&ds), vec!["k||new".to_string()]);
}

#[test]
fn load_adds_to_existing_records() {
    let mut ds = fresh();
    ds.insert("a".to_string(), "1".to_string());
    let skipped = load_data_file(&vec!["a||2".to_string(), "b||3".to_string()], &mut ds);
    assert_eq!(skipped, 0);
    assert_eq!(ds.get("a".to_string()), Some(&"2".to_string()));
    assert_eq!(ds.get("b".to_string()), Some(&"3".to_string()));
}

#[test]
fn saved_lines_are_one_per_record() {
    let mut ds = fresh();
    ds.insert("b".to_string(), "2".to_string());
    ds.insert("a|".to_string(), "1".to_string());
    ds.insert("b".to_string(), "3".to_string());
    let mut lines = data_file_lines(&ds);
    lines.sort();
    assert_eq!(lines, vec!["a\\|||1".to_string(), "b||3".to_string()]);
}
