use subnet_calc::history::{contains_text, HistoryEntry, HistoryStore, Timestamp};
use subnet_calc::subnet::{self, SubnetInfo};

fn temp_store() -> HistoryStore {
    HistoryStore::new("/tmp/subnet_calc_history_test.json".to_string())
}

fn create_test_entry(input: &str) -> HistoryEntry {
    let info = subnet::analyze("192.168.1.1/24").unwrap();
    HistoryEntry {
        timestamp: Timestamp::now(),
        input: input.to_string(),
        result: info,
    }
}

fn info() -> SubnetInfo {
    subnet::analyze("192.168.1.1/24").unwrap()
}

#[test]
fn test_history_entry_creation() {
    let entry = create_test_entry("192.168.1.1/24");
    assert_eq!(entry.input, "192.168.1.1/24");
    assert_eq!(entry.result.cidr, 24);
}

#[test]
fn test_history_store_default() {
    let store = temp_store();
    assert!(store.entries().is_empty());
}

#[test]
fn test_history_store_add_entry() {
    let mut store = temp_store();
    store.add("192.168.1.1/24", info());
    assert_eq!(store.entries().len(), 1);
}

#[test]
fn test_history_store_add_multiple_entries() {
    let mut store = temp_store();
    for i in 0..5 {
        store.add(&format!("entry_{}", i), info());
    }
    assert_eq!(store.entries().len(), 5);
}

#[test]
fn test_history_store_add_duplicate_replaces() {
    let mut store = temp_store();
    let info = info();
    store.add("192.168.1.1/24", info.clone());
    store.add("192.168.1.1/24", info);
    assert_eq!(store.entries().len(), 1);
}

#[test]
fn test_history_store_add_inserts_at_front() {
    let mut store = temp_store();
    store.add("first", subnet::analyze("192.168.1.1/24").unwrap());
    store.add("second", subnet::analyze("10.0.0.1/8").unwrap());
    assert_eq!(store.entries()[0].input, "second");
    assert_eq!(store.entries()[1].input, "first");
}

#[test]
fn test_history_store_remove_entry() {
    let mut store = temp_store();
    for i in 0..3 {
        store.add(&format!("entry_{}", i), info());
    }
    assert_eq!(store.entries().len(), 3);
    store.remove(1);
    assert_eq!(store.entries().len(), 2);
}

#[test]
fn test_history_store_remove_out_of_bounds() {
    let mut store = temp_store();
    store.add("entry", info());
    store.remove(10);
    assert_eq!(store.entries().len(), 1);
}

#[test]
fn test_history_store_clear() {
    let mut store = temp_store();
    for i in 0..5 {
        store.add(&format!("entry_{}", i), info());
    }
    store.clear();
    assert!(store.entries().is_empty());
}

#[test]
fn test_history_store_search_by_input() {
    let mut store = temp_store();
    store.add("192.168.1.1/24", info());
    assert_eq!(store.search("192.168").len(), 1);
}

#[test]
fn test_history_store_search_no_match() {
    let mut store = temp_store();
    store.add("192.168.1.1/24", info());
    assert!(store.search("nonexistent").is_empty());
}

#[test]
fn test_history_store_search_case_insensitive() {
    let mut store = temp_store();
    store.add("TestEntry", info());
    assert_eq!(store.search("test").len(), 1);
}

#[test]
fn test_history_store_search_partial_match() {
    let mut store = temp_store();
    store.add("192.168.1.1/24", info());
    assert_eq!(store.search(".1.").len(), 1);
}

#[test]
fn test_history_store_load_nonexistent_file() {
    let mut store = temp_store();
    store.load(None);
    assert!(store.entries().is_empty());
}

#[test]
fn test_history_store_load_valid_empty_array() {
    let mut store = temp_store();
    store.load(Some(vec![]));
    assert!(store.entries().is_empty());
}

#[test]
fn test_history_store_load_multiple_entries() {
    let entries = vec![
        create_test_entry("entry_1"),
        create_test_entry("entry_2"),
        create_test_entry("entry_3"),
    ];
    let mut store = temp_store();
    store.load(Some(entries));
    assert_eq!(store.entries().len(), 3);
}

#[test]
fn test_history_store_preserves_order_after_load() {
    let mut store = temp_store();
    for i in 0..5 {
        store.add(&format!("entry_{}", i), info());
    }
    let saved = store.entries().to_vec();
    let mut loaded_store = temp_store();
    loaded_store.load(Some(saved));
    assert_eq!(loaded_store.entries().len(), 5);
    assert_eq!(loaded_store.entries()[0].input, "entry_4");
    assert_eq!(loaded_store.entries()[4].input, "entry_0");
}

#[test]
fn test_history_store_entries_ref() {
    let mut store = temp_store();
    store.add("test", info());
    let entries: &[HistoryEntry] = store.entries();
    assert_eq!(entries.len(), 1);
}

#[test]
fn test_history_store_search_empty_store() {
    let store = temp_store();
    assert!(store.search("anything").is_empty());
}

#[test]
fn test_history_store_remove_empty_store() {
    let mut store = temp_store();
    store.remove(0);
    assert!(store.entries().is_empty());
}

#[test]
fn test_history_store_long_input_string() {
    let mut store = temp_store();
    let long_input = "a".repeat(1000);
    store.add(&long_input, info());
    assert_eq!(store.entries().len(), 1);
    assert_eq!(store.entries()[0].input.len(), 1000);
}

#[test]
fn test_history_store_unicode_input() {
    let mut store = temp_store();
    store.add("测试_子网", info());
    assert_eq!(store.entries().len(), 1);
    assert_eq!(store.entries()[0].input, "测试_子网");
}

#[test]
fn test_history_store_different_cidr_blocks() {
    let mut store = temp_store();
    store.add("10.0.0.1/8", subnet::analyze("10.0.0.1/8").unwrap());
    store.add("172.16.0.1/12", subnet::analyze("172.16.0.1/12").unwrap());
    store.add("192.168.1.1/24", subnet::analyze("192.168.1.1/24").unwrap());
    assert_eq!(store.entries().len(), 3);
    assert_eq!(store.entries()[0].result.cidr, 24);
    assert_eq!(store.entries()[1].result.cidr, 12);
    assert_eq!(store.entries()[2].result.cidr, 8);
}

// Further cases.

#[test]
fn re_adding_moves_entry_to_front_and_keeps_inputs_distinct() {
    let mut store = temp_store();
    store.add("a", info());
    store.add("b", info());
    store.add("c", info());
    store.add("b", subnet::analyze("10.0.0.0/8").unwrap());
    let inputs: Vec<&str> = store.entries().iter().map(|e| e.input.as_str()).collect();
    assert_eq!(inputs, vec!["b", "c", "a"]);
    assert_eq!(store.entries()[0].result.cidr, 8);
}

#[test]
fn search_keeps_order_and_lowercases_both_sides() {
    let mut store = temp_store();
    store.add("Alpha", info());
    store.add("beta", info());
    store.add("ALPHABET", info());
    let found: Vec<&str> = store.search("ALP").iter().map(|e| e.input.as_str()).collect();
    assert_eq!(found, vec!["ALPHABET", "Alpha"]);
    assert_eq!(store.search("").len(), 3);
}

#[test]
fn storage_path_is_kept() {
    let mut store = HistoryStore::new("/tmp/x/history.json".to_string());
    store.add("a", info());
    store.clear();
    assert_eq!(store.storage_path(), "/tmp/x/history.json");
}

#[test]
fn load_none_keeps_entries() {
    let mut store = temp_store();
    store.add("kept", info());
    store.load(None);
    assert_eq!(store.entries().len(), 1);
}

#[test]
fn add_entry_keeps_the_given_timestamp() {
    let mut store = temp_store();
    let e = HistoryEntry {
        timestamp: Timestamp { secs: 86400, nanos: 0, offset_secs: 3600 },
        input: "x".to_string(),
        result: info(),
    };
    store.add_entry(e);
    assert_eq!(store.entries()[0].timestamp.to_text(), "1970-01-02 01:00:00");
}

#[test]
fn timestamp_text_out_of_range_offset_is_empty() {
    let t = Timestamp { secs: 0, nanos: 0, offset_secs: 86400 };
    assert_eq!(t.to_text(), "");
}

#[test]
fn contains_text_finds_runs() {
    let s: Vec<char> = "hello world".chars().collect();
    let t: Vec<char> = "o w".chars().collect();
    let u: Vec<char> = "ow".chars().collect();
    let empty: Vec<char> = Vec::new();
    assert!(contains_text(&s, &t));
    assert!(!contains_text(&s, &u));
    assert!(contains_text(&s, &empty));
    assert!(!contains_text(&empty, &t));
}

#[test]
fn now_has_bounded_parts() {
    let t = Timestamp::now();
    assert!(t.nanos < 2_000_000_000);
    assert!(-86_400 < t.offset_secs && t.offset_secs < 86_400);
    assert!(t.secs > 0);
    assert_eq!(t.to_text().len(), "YYYY-MM-DD hh:mm:ss".len());
}

#[test]
fn added_entry_has_a_bounded_timestamp() {
    let mut store = temp_store();
    store.add("a", info());
    let t = store.entries()[0].timestamp;
    assert!(t.nanos < 2_000_000_000);
    assert!(-86_400 < t.offset_secs && t.offset_secs < 86_400);
}
