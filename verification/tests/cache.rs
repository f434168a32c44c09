use utility_css::cache::{CacheError, ClassnameCache, FileRecord};
use utility_css::classes::ClassSet;

fn set(names: &[&str]) -> ClassSet {
    let v: Vec<String> = names.iter().map(|s| s.to_string()).collect();
    ClassSet::from_names(&v)
}

fn sorted(s: &ClassSet) -> Vec<String> {
    let mut v = s.to_names();
    v.sort();
    v
}

fn record(path: &str, modified: u64, names: &[&str]) -> FileRecord {
    FileRecord {
        path: path.to_string(),
        modified,
        classnames: names.iter().map(|s| s.to_string()).collect(),
    }
}

#[test]
fn set_then_get_returns_the_set() {
    let mut c = ClassnameCache::new(&vec![]);
    c.set("a.tsx", 100, &set(&["x", "y"]));
    let got = c.get("a.tsx", Some(100)).unwrap();
    assert_eq!(sorted(&got), vec!["x", "y"]);
}

#[test]
fn get_misses_after_the_file_changed() {
    let mut c = ClassnameCache::new(&vec![]);
    c.set("a.tsx", 100, &set(&["x", "y"]));
    assert!(c.get("a.tsx", Some(101)).is_none());
    assert!(c.get("a.tsx", Some(99)).is_none());
    assert!(c.get("a.tsx", None).is_none());
    assert!(c.get("b.tsx", Some(100)).is_none());
}

#[test]
fn set_replaces_the_record() {
    let mut c = ClassnameCache::new(&vec![]);
    c.set("a.tsx", 100, &set(&["x", "y"]));
    c.update_from_classnames("a.tsx", 200, &set(&["z"]));
    assert!(c.get("a.tsx", Some(100)).is_none());
    assert_eq!(sorted(&c.get("a.tsx", Some(200)).unwrap()), vec!["z"]);
    assert_eq!(c.records().len(), 1);
}

#[test]
fn remove_forgets_the_file() {
    let mut c = ClassnameCache::new(&vec![record("a", 1, &["x"]), record("b", 2, &["y"])]);
    c.remove("a");
    assert!(c.get("a", Some(1)).is_none());
    assert_eq!(sorted(&c.get("b", Some(2)).unwrap()), vec!["y"]);
    c.remove("nothing");
    assert_eq!(c.records().len(), 1);
}

#[test]
fn new_loads_records_and_later_ones_win() {
    let c = ClassnameCache::new(&vec![
        record("a", 1, &["x"]),
        record("b", 2, &["y", "y"]),
        record("a", 3, &["z"]),
    ]);
    assert!(c.get("a", Some(1)).is_none());
    assert_eq!(sorted(&c.get("a", Some(3)).unwrap()), vec!["z"]);
    assert_eq!(sorted(&c.get("b", Some(2)).unwrap()), vec!["y"]);
}

#[test]
fn records_load_back_to_the_same_mirror() {
    let mut c = ClassnameCache::new(&vec![]);
    c.set("a", 10, &set(&["x", "y"]));
    c.set("b", 20, &set(&[]));
    let again = ClassnameCache::new(&c.records());
    assert_eq!(sorted(&again.get("a", Some(10)).unwrap()), vec!["x", "y"]);
    assert!(again.get("b", Some(20)).unwrap().is_empty());
    assert_eq!(again.records().len(), 2);
}

#[test]
fn compare_and_generate_returns_what_is_new() {
    let mut c = ClassnameCache::new(&vec![record("a", 5, &["x"])]);
    let fresh = c.compare_and_generate("a", Some(5), &set(&["x", "y"])).unwrap();
    assert_eq!(sorted(&fresh), vec!["y"]);
    assert_eq!(sorted(&c.get("a", Some(5)).unwrap()), vec!["x", "y"]);
    let nothing = c.compare_and_generate("a", Some(5), &set(&["x"])).unwrap();
    assert!(nothing.is_empty());
    // Nothing was new, so the record still holds both classes.
    assert_eq!(sorted(&c.get("a", Some(5)).unwrap()), vec!["x", "y"]);
}

#[test]
fn compare_and_generate_takes_a_changed_file_as_all_new() {
    let mut c = ClassnameCache::new(&vec![record("a", 5, &["x"])]);
    let fresh = c.compare_and_generate("a", Some(6), &set(&["x", "y"])).unwrap();
    assert_eq!(sorted(&fresh), vec!["x", "y"]);
    assert!(c.get("a", Some(5)).is_none());
    assert_eq!(sorted(&c.get("a", Some(6)).unwrap()), vec!["x", "y"]);
}

#[test]
fn compare_and_generate_fails_without_a_modification_time() {
    let mut c = ClassnameCache::new(&vec![record("a", 5, &["x"])]);
    assert_eq!(c.compare_and_generate("a", None, &set(&["x"])).err(), Some(CacheError::Unreadable));
    assert_eq!(sorted(&c.get("a", Some(5)).unwrap()), vec!["x"]);
    // With nothing to record there is nothing to fail on.
    assert!(c.compare_and_generate("a", None, &set(&[])).unwrap().is_empty());
}
