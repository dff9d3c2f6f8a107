use snip::snippet::Snippet;
use snip::store::{has_records, SnippetStore, StoreError};
use snip::text::contains_text;

fn tags(ts: &[&str]) -> Vec<String> {
    ts.iter().map(|t| t.to_string()).collect()
}

fn ids(v: &[Snippet]) -> Vec<u32> {
    v.iter().map(|s| s.id).collect()
}

fn add(store: &mut SnippetStore, code: &str, lang: &str, ts: &[&str]) -> Snippet {
    store.add(code.to_string(), lang.to_string(), tags(ts)).unwrap()
}

#[test]
fn concrete_scenario() {
    let mut store = SnippetStore::new();
    let first = add(&mut store, "print(1)", "python", &[]);
    assert_eq!(first.id, 1);
    assert_eq!(first.code, "print(1)");
    assert_eq!(first.lang, "python");
    assert!(first.tags.is_empty());
    let second = add(&mut store, "fmt.Println(1)", "go", &["demo"]);
    assert_eq!(second.id, 2);
    let demo = store.list(Some("demo"));
    assert_eq!(ids(&demo), vec![2]);
    assert_eq!(demo[0].code, "fmt.Println(1)");
    let popped = store.pop().unwrap();
    assert_eq!(popped.id, 2);
    assert_eq!(popped.lang, "go");
    assert_eq!(ids(store.snippets()), vec![1]);
    assert_eq!(store.get_by_id(2).err(), Some(StoreError::NotFound));
}

#[test]
fn add_assigns_one_on_empty_store() {
    let mut store = SnippetStore::new();
    assert_eq!(store.max_id(), 0);
    assert_eq!(add(&mut store, "x", "c", &[]).id, 1);
}

#[test]
fn add_assigns_max_plus_one() {
    let records = vec![
        Snippet::new(7, "a".to_string(), "rust".to_string(), vec![]),
        Snippet::new(3, "b".to_string(), "rust".to_string(), vec![]),
    ];
    let mut store = SnippetStore::from_snippets(records).unwrap();
    assert_eq!(store.max_id(), 7);
    assert_eq!(add(&mut store, "c", "rust", &[]).id, 8);
    assert_eq!(ids(store.snippets()), vec![7, 3, 8]);
}

#[test]
fn ids_stay_unique_over_adds_and_removals() {
    let mut store = SnippetStore::new();
    for i in 0..5 {
        add(&mut store, &format!("code {i}"), "sh", &[]);
    }
    store.remove_by_id(2).unwrap();
    add(&mut store, "again", "sh", &[]);
    let mut seen = ids(store.snippets());
    assert_eq!(seen, vec![1, 3, 4, 5, 6]);
    seen.sort();
    seen.dedup();
    assert_eq!(seen.len(), 5);
}

#[test]
fn add_fails_when_ids_are_exhausted() {
    let records = vec![Snippet::new(u32::MAX, "a".to_string(), "c".to_string(), vec![])];
    let mut store = SnippetStore::from_snippets(records).unwrap();
    let r = store.add("b".to_string(), "c".to_string(), vec![]);
    assert_eq!(r.err(), Some(StoreError::IdsExhausted));
    assert_eq!(store.len(), 1);
}

#[test]
fn add_keeps_fields_verbatim() {
    let mut store = SnippetStore::new();
    let s = add(&mut store, "  fn main() {}\n", "Rust", &["b", "a", "b"]);
    assert_eq!(s.code, "  fn main() {}\n");
    assert_eq!(s.lang, "Rust");
    assert_eq!(s.tags, tags(&["b", "a", "b"]));
    let stored = store.get_by_id(1).unwrap();
    assert_eq!(stored.tags, tags(&["b", "a", "b"]));
}

#[test]
fn list_without_filter_returns_all_in_order() {
    let mut store = SnippetStore::new();
    add(&mut store, "a", "x", &["one"]);
    add(&mut store, "b", "x", &[]);
    add(&mut store, "c", "x", &["two"]);
    assert_eq!(ids(&store.list(None)), vec![1, 2, 3]);
}

#[test]
fn list_filter_matches_substrings_of_tags() {
    let mut store = SnippetStore::new();
    add(&mut store, "a", "x", &["database", "sql"]);
    add(&mut store, "b", "x", &["web"]);
    add(&mut store, "c", "x", &["db", "data"]);
    add(&mut store, "d", "x", &[]);
    assert_eq!(ids(&store.list(Some("data"))), vec![1, 3]);
    assert_eq!(ids(&store.list(Some("base"))), vec![1]);
    assert_eq!(ids(&store.list(Some("we"))), vec![2]);
    assert_eq!(ids(&store.list(Some("nothing"))), Vec::<u32>::new());
    assert_eq!(ids(&store.list(Some(""))), vec![1, 2, 3]);
}

#[test]
fn list_filter_is_case_sensitive() {
    let mut store = SnippetStore::new();
    add(&mut store, "a", "x", &["Demo"]);
    assert!(store.list(Some("demo")).is_empty());
    assert_eq!(ids(&store.list(Some("Dem"))), vec![1]);
}

#[test]
fn removal_preserves_order() {
    let mut store = SnippetStore::new();
    add(&mut store, "A", "x", &[]);
    add(&mut store, "B", "x", &[]);
    add(&mut store, "C", "x", &[]);
    let removed = store.remove_by_id(2).unwrap();
    assert_eq!(removed.code, "B");
    let left: Vec<String> = store.snippets().iter().map(|s| s.code.clone()).collect();
    assert_eq!(left, vec!["A".to_string(), "C".to_string()]);
}

#[test]
fn remove_missing_id_is_not_found() {
    let mut store = SnippetStore::new();
    add(&mut store, "A", "x", &[]);
    assert_eq!(store.remove_by_id(5).err(), Some(StoreError::NotFound));
    assert_eq!(ids(store.snippets()), vec![1]);
}

#[test]
fn pop_targets_newest() {
    let mut store = SnippetStore::new();
    add(&mut store, "one", "x", &[]);
    add(&mut store, "two", "x", &[]);
    add(&mut store, "three", "x", &[]);
    let popped = store.pop().unwrap();
    assert_eq!(popped.id, 3);
    assert_eq!(popped.code, "three");
    assert_eq!(ids(store.snippets()), vec![1, 2]);
}

#[test]
fn pop_on_empty_store() {
    let mut store = SnippetStore::new();
    assert_eq!(store.pop().err(), Some(StoreError::EmptyStore));
    assert_eq!(store.len(), 0);
}

#[test]
fn get_missing_id_is_not_found_and_changes_nothing() {
    let mut store = SnippetStore::new();
    add(&mut store, "a", "x", &[]);
    add(&mut store, "b", "x", &[]);
    assert_eq!(store.get_by_id(999).err(), Some(StoreError::NotFound));
    assert_eq!(ids(store.snippets()), vec![1, 2]);
    assert_eq!(store.get_by_id(2).unwrap().code, "b");
}

#[test]
fn load_nothing_gives_empty_store() {
    assert!(!has_records(None));
    assert!(!has_records(Some(0)));
    assert!(has_records(Some(2)));
    let store = SnippetStore::load(None).unwrap();
    assert_eq!(store.len(), 0);
}

#[test]
fn load_keeps_records_and_order() {
    let records = vec![
        Snippet::new(4, "d".to_string(), "x".to_string(), tags(&["t"])),
        Snippet::new(1, "a".to_string(), "y".to_string(), vec![]),
    ];
    let store = SnippetStore::load(Some(records)).unwrap();
    assert_eq!(ids(store.snippets()), vec![4, 1]);
    assert_eq!(store.snippets()[0].tags, tags(&["t"]));
}

#[test]
fn load_rejects_duplicate_ids() {
    let records = vec![
        Snippet::new(1, "a".to_string(), "x".to_string(), vec![]),
        Snippet::new(2, "b".to_string(), "x".to_string(), vec![]),
        Snippet::new(1, "c".to_string(), "x".to_string(), vec![]),
    ];
    assert_eq!(SnippetStore::load(Some(records)).err(), Some(StoreError::CorruptStore));
}

#[test]
fn round_trip_through_records() {
    let mut store = SnippetStore::new();
    add(&mut store, "a", "x", &["p", "q"]);
    add(&mut store, "b", "y", &[]);
    store.remove_by_id(1).unwrap();
    add(&mut store, "c", "z", &["r"]);
    let records: Vec<Snippet> = store.snippets().iter().map(|s| s.duplicate()).collect();
    let back = SnippetStore::load(Some(records)).unwrap();
    assert_eq!(ids(back.snippets()), vec![2, 3]);
    assert_eq!(back.snippets()[1].tags, tags(&["r"]));
    assert_eq!(back.snippets()[0].lang, "y");
}

#[test]
fn duplicate_copies_every_field() {
    let s = Snippet::new(9, "c".to_string(), "l".to_string(), tags(&["a", "b"]));
    let d = s.duplicate();
    assert_eq!(d.id, 9);
    assert_eq!(d.code, "c");
    assert_eq!(d.lang, "l");
    assert_eq!(d.tags, tags(&["a", "b"]));
}

#[test]
fn contains_text_cases() {
    assert!(contains_text("database", "base"));
    assert!(contains_text("database", "database"));
    assert!(contains_text("abc", ""));
    assert!(contains_text("", ""));
    assert!(!contains_text("", "a"));
    assert!(!contains_text("ab", "abc"));
    assert!(!contains_text("abab", "ba b"));
    assert!(contains_text("aab", "ab"));
    assert!(contains_text("größe", "öß"));
}
