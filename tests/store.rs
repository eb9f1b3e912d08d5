use prism::{load, AddStep, Loaded, ReadOutcome, TrackingStore};
use std::collections::HashMap;

fn as_map(store: &TrackingStore) -> HashMap<String, String> {
    store
        .playlists()
        .iter()
        .map(|p| (p.url.clone(), p.title.clone()))
        .collect()
}

fn map_of(pairs: &[(&str, &str)]) -> HashMap<String, String> {
    pairs
        .iter()
        .map(|(u, t)| (u.to_string(), t.to_string()))
        .collect()
}

fn parsed(text: &str) -> (HashMap<String, String>, usize) {
    let (store, malformed) = TrackingStore::parse(text);
    (as_map(&store), malformed)
}

#[test]
fn parse_reads_url_title_lines() {
    let (m, malformed) = parsed("https://a/list=Music\nhttps://b=Talks\n");
    assert_eq!(m, map_of(&[("https://a/list", "Music"), ("https://b", "Talks")]));
    assert_eq!(malformed, 0);
}

#[test]
fn parse_splits_at_first_equals() {
    let (m, _) = parsed("https://x?list=PL1\n");
    assert_eq!(m, map_of(&[("https://x?list", "PL1")]));
    let (m, _) = parsed("u=a=b\n");
    assert_eq!(m, map_of(&[("u", "a=b")]));
}

#[test]
fn malformed_line_is_skipped_and_counted() {
    let (m, malformed) = parsed("good=Title\nno separator here\n");
    assert_eq!(m, map_of(&[("good", "Title")]));
    assert_eq!(malformed, 1);
}

#[test]
fn empty_lines_are_skipped_without_count() {
    let (m, malformed) = parsed("\n\na=A\n\n");
    assert_eq!(m, map_of(&[("a", "A")]));
    assert_eq!(malformed, 0);
}

#[test]
fn last_line_needs_no_newline() {
    let (m, _) = parsed("a=A\nb=B");
    assert_eq!(m, map_of(&[("a", "A"), ("b", "B")]));
}

#[test]
fn crlf_line_endings_are_read() {
    let (m, _) = parsed("a=A\r\nb=B\r\n");
    assert_eq!(m, map_of(&[("a", "A"), ("b", "B")]));
}

#[test]
fn later_line_wins_for_a_repeated_url() {
    let (m, _) = parsed("a=Old\na=New\n");
    assert_eq!(m, map_of(&[("a", "New")]));
}

#[test]
fn empty_text_gives_empty_store() {
    let (m, malformed) = parsed("");
    assert!(m.is_empty());
    assert_eq!(malformed, 0);
}

#[test]
fn render_writes_one_line_per_entry() {
    let mut store = TrackingStore::new();
    store.insert("https://a".to_string(), "Music".to_string());
    assert_eq!(store.render(), "https://a=Music\n");
    store.insert("https://b".to_string(), "Talks".to_string());
    let text = store.render();
    let mut lines: Vec<&str> = text.lines().collect();
    lines.sort();
    assert_eq!(lines, vec!["https://a=Music", "https://b=Talks"]);
    assert!(text.ends_with('\n'));
}

#[test]
fn render_of_empty_store_is_empty() {
    assert_eq!(TrackingStore::new().render(), "");
}

#[test]
fn round_trip_keeps_the_mapping() {
    let mut store = TrackingStore::new();
    store.insert("https://a/list".to_string(), "Title = with equals".to_string());
    store.insert("https://b".to_string(), "".to_string());
    store.insert("".to_string(), "no url".to_string());
    store.insert("https://c".to_string(), "Ünïcödé [x]".to_string());
    let text = store.render();
    let (back, malformed) = parsed(&text);
    assert_eq!(back, as_map(&store));
    assert_eq!(malformed, 0);
}

#[test]
fn load_of_missing_file_is_empty() {
    let Loaded { store, malformed_lines, read_failed } = load(ReadOutcome::Missing);
    assert!(store.playlists().is_empty());
    assert_eq!(malformed_lines, 0);
    assert!(!read_failed);
}

#[test]
fn load_of_complete_text() {
    let loaded = load(ReadOutcome::Complete("a=A\nbroken\n".to_string()));
    assert_eq!(as_map(&loaded.store), map_of(&[("a", "A")]));
    assert_eq!(loaded.malformed_lines, 1);
    assert!(!loaded.read_failed);
}

#[test]
fn load_after_failed_read_keeps_what_was_read() {
    let loaded = load(ReadOutcome::Failed("a=A\nb=B".to_string()));
    assert_eq!(as_map(&loaded.store), map_of(&[("a", "A"), ("b", "B")]));
    assert!(loaded.read_failed);
    let loaded = load(ReadOutcome::Failed(String::new()));
    assert!(loaded.store.playlists().is_empty());
    assert!(loaded.read_failed);
}

#[test]
fn add_twice_keeps_one_entry_and_needs_no_second_title() {
    let mut store = TrackingStore::new();
    assert!(matches!(store.plan_add("https://p"), AddStep::FetchTitle));
    assert!(store.add("https://p".to_string(), "First".to_string()));
    assert!(matches!(store.plan_add("https://p"), AddStep::AlreadyTracked));
    assert!(!store.add("https://p".to_string(), "Second".to_string()));
    assert_eq!(as_map(&store), map_of(&[("https://p", "First")]));
    assert_eq!(store.playlists().len(), 1);
}

#[test]
fn insert_replaces_the_title() {
    let mut store = TrackingStore::new();
    store.insert("u".to_string(), "One".to_string());
    store.insert("u".to_string(), "Two".to_string());
    assert_eq!(as_map(&store), map_of(&[("u", "Two")]));
}

#[test]
fn remove_of_absent_url_changes_nothing() {
    let mut store = TrackingStore::new();
    store.add("a".to_string(), "A".to_string());
    let before = as_map(&store);
    assert!(!store.remove("missing"));
    assert_eq!(as_map(&store), before);
}

#[test]
fn remove_drops_the_entry() {
    let mut store = TrackingStore::new();
    store.add("a".to_string(), "A".to_string());
    store.add("b".to_string(), "B".to_string());
    store.add("c".to_string(), "C".to_string());
    assert!(store.remove("b"));
    assert!(!store.contains("b"));
    assert_eq!(as_map(&store), map_of(&[("a", "A"), ("c", "C")]));
    assert!(!store.remove("b"));
}

#[test]
fn round_trip_keeps_inner_carriage_returns() {
    let mut store = TrackingStore::new();
    store.insert("https://a\r/pl".to_string(), "Mix\rTape".to_string());
    let (back, malformed) = parsed(&store.render());
    assert_eq!(back, as_map(&store));
    assert_eq!(malformed, 0);
}

#[test]
fn render_of_one_entry_is_one_line() {
    let mut store = TrackingStore::new();
    store.add("https://a.example/pl".to_string(), "Mix".to_string());
    store.add("https://a.example/pl".to_string(), "Other".to_string());
    assert_eq!(store.render(), "https://a.example/pl=Mix\n");
    let (back, _) = parsed(&store.render());
    assert_eq!(back, map_of(&[("https://a.example/pl", "Mix")]));
}
