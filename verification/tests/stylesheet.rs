use utility_css::cache::ClassnameCache;
use utility_css::classes::ClassSet;
use utility_css::decimal::Decimal;
use utility_css::engine::StyleEngine;
use utility_css::generator::{
    generate_css, join_rules, minified_or_error, resolve_all, sorted_names, GenerateError,
};
use utility_css::registry::{Delta, GlobalRegistry};
use utility_css::vocabulary::{Entry, Generator, VocabularySource};
use utility_css::watcher::{
    apply_scan, process_event, process_file_change, process_file_remove, FileEvent, ScannedFile,
};

fn entry(name: &str, value: &str) -> Entry {
    Entry { name: name.to_string(), value: value.to_string() }
}

fn engine() -> StyleEngine {
    StyleEngine::new(VocabularySource {
        styles: vec![
            entry("text-red", "color: red"),
            entry("flex", "display: flex"),
            entry("broken(", "color: red"),
        ],
        dynamics: vec![],
        generators: vec![Generator {
            prefix: "mt".to_string(),
            property: "margin-top".to_string(),
            multiplier: Decimal::new(false, 25, 2).unwrap(),
            unit: "rem".to_string(),
        }],
        screens: vec![entry("md", "768px")],
        states: vec![entry("hover", ":hover")],
        container_queries: vec![],
    })
}

fn set(names: &[&str]) -> ClassSet {
    let v: Vec<String> = names.iter().map(|s| s.to_string()).collect();
    ClassSet::from_names(&v)
}

#[test]
fn stylesheet_lists_rules_in_order_of_the_names() {
    let mut e = engine();
    let css = generate_css(&set(&["text-red", "mt-4", "flex"]), &mut e, false).unwrap();
    assert_eq!(
        css,
        ".flex { display: flex }\n\n.mt-4 { margin-top: 1rem }\n\n.text-red { color: red }"
    );
}

#[test]
fn stylesheet_does_not_depend_on_insertion_order() {
    let mut e = engine();
    let one = generate_css(&set(&["flex", "mt-4", "text-red"]), &mut e, false).unwrap();
    let two = generate_css(&set(&["mt-4", "text-red", "flex"]), &mut e, false).unwrap();
    assert_eq!(one, two);
}

#[test]
fn unknown_tokens_are_left_out() {
    let mut e = engine();
    let with = generate_css(&set(&["flex", "zzz-unknown", "aaa", "text-red"]), &mut e, false).unwrap();
    let without = generate_css(&set(&["flex", "text-red"]), &mut e, false).unwrap();
    assert_eq!(with, without);
    assert!(!with.contains("unknown"));
    assert_eq!(generate_css(&set(&["aaa", "bbb"]), &mut e, false), Ok(String::new()));
    assert_eq!(generate_css(&set(&["aaa", "bbb"]), &mut e, true), Ok(String::new()));
    assert_eq!(
        generate_css(&set(&["zzz-unknown", "flex"]), &mut e, true),
        Ok(".flex{display:flex}".to_string())
    );
}

#[test]
fn empty_set_gives_an_empty_stylesheet() {
    let mut e = engine();
    assert_eq!(generate_css(&set(&[]), &mut e, false), Ok(String::new()));
    assert_eq!(generate_css(&set(&[]), &mut e, true), Ok(String::new()));
}

#[test]
fn single_rule_has_no_separator() {
    let mut e = engine();
    assert_eq!(generate_css(&set(&["flex"]), &mut e, false).unwrap(), ".flex { display: flex }");
}

#[test]
fn production_minifies() {
    let mut e = engine();
    let css = generate_css(&set(&["text-red", "flex"]), &mut e, true).unwrap();
    assert_eq!(css, ".flex{display:flex}.text-red{color:red}");
}

#[test]
fn production_minifies_wrapped_rules() {
    let mut e = engine();
    let css = generate_css(&set(&["md:hover:text-red"]), &mut e, true).unwrap();
    assert_eq!(css, "@media (width>=768px){.md\\:hover\\:text-red:hover{color:red}}");
}

#[test]
fn production_fails_on_invalid_css() {
    let mut e = engine();
    assert_eq!(generate_css(&set(&["broken("]), &mut e, true), Err(GenerateError::InvalidCss));
    // Without minifying nothing parses the text.
    assert_eq!(
        generate_css(&set(&["broken("]), &mut e, false).unwrap(),
        ".broken( { color: red }"
    );
}

#[test]
fn sorted_names_ascend() {
    let names = sorted_names(&set(&["b", "a:b", "a", "ab", "B", "", "a-", "é"]));
    assert_eq!(names, vec!["", "B", "a", "a-", "a:b", "ab", "b", "é"]);
}

#[test]
fn resolve_all_keeps_order_and_drops_unknown() {
    let mut e = engine();
    let names: Vec<String> = ["text-red", "nope", "flex"].iter().map(|s| s.to_string()).collect();
    assert_eq!(resolve_all(&mut e, &names), vec![".text-red { color: red }", ".flex { display: flex }"]);
}

#[test]
fn join_rules_separates_with_a_blank_line() {
    let rules: Vec<String> = vec!["a".to_string(), "b".to_string(), "c".to_string()];
    assert_eq!(join_rules(&rules), "a\n\nb\n\nc");
    assert_eq!(join_rules(&vec![]), "");
}

#[test]
fn minified_or_error_maps_none_to_the_error() {
    assert_eq!(minified_or_error(Some("x".to_string())), Ok("x".to_string()));
    assert_eq!(minified_or_error(None), Err(GenerateError::InvalidCss));
}

#[test]
fn change_regenerates_only_when_the_active_set_changes() {
    let mut cache = ClassnameCache::new(&vec![]);
    let mut registry = GlobalRegistry::new();
    let mut e = engine();
    let out = process_file_change(
        &mut cache, &mut registry, &mut e, "a.tsx", &set(&["flex", "nope"]), Some(7), false,
    )
    .unwrap();
    assert_eq!(out.delta, Delta { added_in_file: 2, removed_in_file: 0, added_global: 2, removed_global: 0 });
    assert_eq!(out.stylesheet, Some(".flex { display: flex }".to_string()));
    assert_eq!(cache.get("a.tsx", Some(7)).unwrap().len(), 2);

    let out = process_file_change(
        &mut cache, &mut registry, &mut e, "b.tsx", &set(&["flex"]), Some(8), false,
    )
    .unwrap();
    assert_eq!(out.delta, Delta { added_in_file: 1, removed_in_file: 0, added_global: 0, removed_global: 0 });
    assert_eq!(out.stylesheet, None);

    let out = process_file_change(
        &mut cache, &mut registry, &mut e, "b.tsx", &set(&["flex", "text-red"]), None, false,
    )
    .unwrap();
    assert_eq!(
        out.stylesheet,
        Some(".flex { display: flex }\n\n.text-red { color: red }".to_string())
    );
    // Without a modification time the cache keeps the earlier record.
    assert_eq!(cache.get("b.tsx", Some(8)).unwrap().len(), 1);
}

#[test]
fn remove_regenerates_only_when_a_class_goes_out_of_use() {
    let mut cache = ClassnameCache::new(&vec![]);
    let mut registry = GlobalRegistry::new();
    let mut e = engine();
    process_file_change(&mut cache, &mut registry, &mut e, "a.tsx", &set(&["flex"]), Some(1), false)
        .unwrap();
    process_file_change(&mut cache, &mut registry, &mut e, "b.tsx", &set(&["flex"]), Some(2), false)
        .unwrap();

    let out = process_file_remove(&mut cache, &mut registry, &mut e, "a.tsx", false).unwrap();
    assert_eq!(out.delta, Delta { added_in_file: 0, removed_in_file: 1, added_global: 0, removed_global: 0 });
    assert_eq!(out.stylesheet, None);
    assert!(cache.get("a.tsx", Some(1)).is_none());
    assert!(registry.active_classes().contains(&"flex".to_string()));

    let out = process_file_remove(&mut cache, &mut registry, &mut e, "b.tsx", false).unwrap();
    assert_eq!(out.delta, Delta { added_in_file: 0, removed_in_file: 1, added_global: 0, removed_global: 1 });
    // The last class is gone: the stylesheet is written again, and is empty.
    assert_eq!(out.stylesheet, Some(String::new()));
    assert!(registry.active_classes().is_empty());
}

#[test]
fn change_in_production_reports_invalid_css() {
    let mut cache = ClassnameCache::new(&vec![]);
    let mut registry = GlobalRegistry::new();
    let mut e = engine();
    let r = process_file_change(
        &mut cache, &mut registry, &mut e, "a.tsx", &set(&["broken("]), Some(1), true,
    );
    assert_eq!(r.err(), Some(GenerateError::InvalidCss));
    assert!(registry.active_classes().contains(&"broken(".to_string()));
    assert!(cache.get("a.tsx", Some(1)).is_none());
}

#[test]
fn scan_reconciles_every_file_and_regenerates_once() {
    let mut registry = GlobalRegistry::new();
    let mut e = engine();
    let files = vec![
        ScannedFile { path: "a.tsx".to_string(), classnames: set(&["flex", "nope"]) },
        ScannedFile { path: "b.tsx".to_string(), classnames: set(&["flex", "mt-4"]) },
        ScannedFile { path: "c.tsx".to_string(), classnames: set(&[]) },
    ];
    let css = apply_scan(&mut registry, &mut e, &files, false).unwrap();
    assert_eq!(css, Some(".flex { display: flex }\n\n.mt-4 { margin-top: 1rem }".to_string()));
    assert_eq!(registry.count("flex"), 2);
    assert_eq!(registry.count("mt-4"), 1);
    assert_eq!(registry.active_classes().len(), 3);
    // The same scan again changes nothing, so nothing is regenerated.
    assert_eq!(apply_scan(&mut registry, &mut e, &files, false).unwrap(), None);
    assert_eq!(apply_scan(&mut registry, &mut e, &vec![], false).unwrap(), None);
}

#[test]
fn scan_that_changes_and_restores_still_regenerates() {
    let mut registry = GlobalRegistry::new();
    let mut e = engine();
    let files = vec![
        ScannedFile { path: "a.tsx".to_string(), classnames: set(&["flex"]) },
        ScannedFile { path: "a.tsx".to_string(), classnames: set(&[]) },
    ];
    assert_eq!(apply_scan(&mut registry, &mut e, &files, false).unwrap(), Some(String::new()));
    assert!(registry.active_classes().is_empty());
}

#[test]
fn scan_in_production_reports_invalid_css() {
    let mut registry = GlobalRegistry::new();
    let mut e = engine();
    let files = vec![ScannedFile { path: "a.tsx".to_string(), classnames: set(&["broken("]) }];
    assert_eq!(apply_scan(&mut registry, &mut e, &files, true), Err(GenerateError::InvalidCss));
}

#[test]
fn event_about_the_stylesheet_is_passed_over() {
    let mut cache = ClassnameCache::new(&vec![]);
    let mut registry = GlobalRegistry::new();
    let mut e = engine();
    let event = FileEvent::Changed {
        path: "out/styles.css".to_string(),
        classnames: set(&["flex"]),
        modified: Some(3),
    };
    let r = process_event(&mut cache, &mut registry, &mut e, &event, "out/styles.css", false);
    assert!(r.unwrap().is_none());
    assert!(registry.active_classes().is_empty());
    assert!(cache.get("out/styles.css", Some(3)).is_none());
    let event = FileEvent::Removed { path: "out/styles.css".to_string() };
    let r = process_event(&mut cache, &mut registry, &mut e, &event, "out/styles.css", false);
    assert!(r.unwrap().is_none());
}

#[test]
fn events_are_applied_in_order() {
    let mut cache = ClassnameCache::new(&vec![]);
    let mut registry = GlobalRegistry::new();
    let mut e = engine();
    let batch = vec![
        FileEvent::Changed { path: "a.tsx".to_string(), classnames: set(&["flex"]), modified: Some(1) },
        FileEvent::Changed { path: "b.tsx".to_string(), classnames: set(&["flex", "text-red"]), modified: Some(2) },
        FileEvent::Removed { path: "a.tsx".to_string() },
        FileEvent::Removed { path: "b.tsx".to_string() },
    ];
    let mut sheets = Vec::new();
    for event in &batch {
        let out = process_event(&mut cache, &mut registry, &mut e, event, "styles.css", false)
            .unwrap()
            .unwrap();
        sheets.push(out.stylesheet);
    }
    assert_eq!(
        sheets,
        vec![
            Some(".flex { display: flex }".to_string()),
            Some(".flex { display: flex }\n\n.text-red { color: red }".to_string()),
            None,
            Some(String::new()),
        ]
    );
    assert!(cache.records().is_empty());
}

#[test]
fn many_classes_resolve_in_order_with_and_without_the_cache() {
    let mut e = engine();
    let names: Vec<String> = (0..3000).map(|n| format!("mt-{}", n % 1200)).collect();
    let first = e.generate_css_for_classes(&names);
    let second = e.generate_css_for_classes(&names);
    assert_eq!(first, second);
    assert_eq!(first.len(), 3000);
    assert_eq!(first[4], Some(".mt-4 { margin-top: 1rem }".to_string()));
    assert_eq!(first[1204], Some(".mt-4 { margin-top: 1rem }".to_string()));
    assert_eq!(first[2999], Some(".mt-599 { margin-top: 149.75rem }".to_string()));
    let mixed: Vec<String> = ["nope", "flex", "nope", "mt-4"].iter().map(|s| s.to_string()).collect();
    assert_eq!(
        e.generate_css_for_classes(&mixed),
        vec![
            None,
            Some(".flex { display: flex }".to_string()),
            None,
            Some(".mt-4 { margin-top: 1rem }".to_string()),
        ]
    );
}
