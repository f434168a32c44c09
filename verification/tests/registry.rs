use utility_css::classes::ClassSet;
use utility_css::registry::{Delta, GlobalRegistry};

fn set(names: &[&str]) -> ClassSet {
    let v: Vec<String> = names.iter().map(|s| s.to_string()).collect();
    ClassSet::from_names(&v)
}

fn sorted(s: &ClassSet) -> Vec<String> {
    let mut v = s.to_names();
    v.sort();
    v
}

fn delta(a: usize, b: usize, c: usize, d: usize) -> Delta {
    Delta { added_in_file: a, removed_in_file: b, added_global: c, removed_global: d }
}

#[test]
fn new_registry_is_empty() {
    let r = GlobalRegistry::new();
    assert!(r.active_classes().is_empty());
    assert_eq!(r.count("x"), 0);
    assert!(r.classes_of("a.tsx").is_empty());
}

#[test]
fn reconcile_counts_what_a_file_gains_and_loses() {
    let mut r = GlobalRegistry::new();
    assert_eq!(r.reconcile("a.tsx", &set(&["x", "y", "z"])), delta(3, 0, 3, 0));
    assert_eq!(r.reconcile("a.tsx", &set(&["y", "w"])), delta(1, 2, 1, 2));
    assert_eq!(sorted(r.active_classes()), vec!["w", "y"]);
    assert_eq!(sorted(&r.classes_of("a.tsx")), vec!["w", "y"]);
    assert_eq!(r.count("y"), 1);
    assert_eq!(r.count("x"), 0);
}

#[test]
fn reconcile_twice_changes_nothing() {
    let mut r = GlobalRegistry::new();
    r.reconcile("b.tsx", &set(&["k"]));
    let first = r.reconcile("a.tsx", &set(&["x", "y"]));
    assert_eq!(first, delta(2, 0, 2, 0));
    let active = sorted(r.active_classes());
    let second = r.reconcile("a.tsx", &set(&["x", "y"]));
    assert_eq!(second, delta(0, 0, 0, 0));
    assert_eq!(sorted(r.active_classes()), active);
    assert_eq!(r.count("x"), 1);
    let third = r.reconcile("a.tsx", &set(&["y", "x"]));
    assert_eq!(third, delta(0, 0, 0, 0));
}

#[test]
fn reconcile_twice_with_nothing_changes_nothing() {
    let mut r = GlobalRegistry::new();
    r.reconcile("a.tsx", &set(&["x"]));
    assert_eq!(r.reconcile("a.tsx", &set(&[])), delta(0, 1, 0, 1));
    assert_eq!(r.reconcile("a.tsx", &set(&[])), delta(0, 0, 0, 0));
    assert!(r.active_classes().is_empty());
}

#[test]
fn shared_class_stays_until_its_last_file_goes() {
    let mut r = GlobalRegistry::new();
    assert_eq!(r.reconcile("a.tsx", &set(&["x"])), delta(1, 0, 1, 0));
    assert_eq!(r.reconcile("b.tsx", &set(&["x"])), delta(1, 0, 0, 0));
    assert_eq!(r.count("x"), 2);
    assert_eq!(r.reconcile("a.tsx", &set(&[])), delta(0, 1, 0, 0));
    assert!(r.active_classes().contains(&"x".to_string()));
    assert_eq!(r.count("x"), 1);
    assert_eq!(r.reconcile("b.tsx", &set(&[])), delta(0, 1, 0, 1));
    assert!(!r.active_classes().contains(&"x".to_string()));
    assert_eq!(r.count("x"), 0);
}

#[test]
fn active_classes_are_those_with_a_count() {
    let mut r = GlobalRegistry::new();
    let steps: Vec<(&str, Vec<&str>)> = vec![
        ("a", vec!["x", "y"]),
        ("b", vec!["y", "z"]),
        ("c", vec!["z"]),
        ("a", vec!["z"]),
        ("b", vec![]),
        ("c", vec!["x", "q"]),
        ("a", vec![]),
        ("c", vec![]),
    ];
    let universe = ["x", "y", "z", "q"];
    for (path, names) in steps {
        r.reconcile(path, &set(&names));
        for class in universe {
            assert_eq!(r.active_classes().contains(&class.to_string()), r.count(class) > 0);
        }
        let files = ["a", "b", "c"];
        for class in universe {
            let referencing =
                files.iter().filter(|f| r.classes_of(f).contains(&class.to_string())).count();
            assert_eq!(r.count(class), referencing);
        }
    }
    assert!(r.active_classes().is_empty());
}

#[test]
fn deleting_an_unknown_file_changes_nothing() {
    let mut r = GlobalRegistry::new();
    r.reconcile("a", &set(&["x"]));
    assert_eq!(r.reconcile("zzz", &set(&[])), delta(0, 0, 0, 0));
    assert_eq!(sorted(r.active_classes()), vec!["x"]);
}

#[test]
fn class_set_operations() {
    let mut s = set(&["a", "b", "a"]);
    assert_eq!(s.len(), 2);
    assert!(s.contains(&"a".to_string()));
    assert!(!s.insert("a".to_string()));
    assert!(s.insert("c".to_string()));
    assert!(s.remove(&"b".to_string()));
    assert!(!s.remove(&"b".to_string()));
    assert_eq!(sorted(&s), vec!["a", "c"]);
    let d = s.difference(&set(&["c", "d"]));
    assert_eq!(sorted(&d), vec!["a"]);
    assert_eq!(s.name(0), "a");
    assert_eq!(sorted(&s.duplicate()), vec!["a", "c"]);
    assert!(ClassSet::new().is_empty());
    assert!(!s.is_empty());
}
