use utility_css::string_map::StringMap;
use utility_css::text::push_escaped;
use utility_css::vocabulary::{dynamic_table, kept_table, DynamicRule, Entry, Table};

fn entry(name: &str, value: &str) -> Entry {
    Entry { name: name.to_string(), value: value.to_string() }
}

#[test]
fn table_keeps_the_later_of_two_entries() {
    let mut t = Table::new();
    assert_eq!(t.get(&"a".to_string()), None);
    t.insert("a".to_string(), "1".to_string());
    t.insert("b".to_string(), "2".to_string());
    t.insert("a".to_string(), "3".to_string());
    assert_eq!(t.get(&"a".to_string()), Some(&"3".to_string()));
    assert_eq!(t.get(&"b".to_string()), Some(&"2".to_string()));
    assert_eq!(t.get(&"c".to_string()), None);
}

#[test]
fn kept_table_leaves_out_empty_names_and_texts() {
    let t = kept_table(&vec![entry("a", "1"), entry("", "2"), entry("b", ""), entry("c", "3")]);
    assert_eq!(t.get(&"a".to_string()), Some(&"1".to_string()));
    assert_eq!(t.get(&"".to_string()), None);
    assert_eq!(t.get(&"b".to_string()), None);
    assert_eq!(t.get(&"c".to_string()), Some(&"3".to_string()));
}

#[test]
fn dynamic_table_names_classes_by_key_and_suffix() {
    let t = dynamic_table(&vec![
        DynamicRule {
            key: "bg".to_string(),
            property: "background".to_string(),
            values: vec![entry("red", "#f00"), entry("", "none"), entry("x", "")],
        },
        DynamicRule { key: "".to_string(), property: "p".to_string(), values: vec![entry("", "v")] },
        DynamicRule { key: "bg".to_string(), property: "fill".to_string(), values: vec![entry("red", "red")] },
    ]);
    assert_eq!(t.get(&"bg-red".to_string()), Some(&"fill: red".to_string()));
    assert_eq!(t.get(&"bg".to_string()), Some(&"background: none".to_string()));
    assert_eq!(t.get(&"bg-x".to_string()), Some(&"background: ".to_string()));
    assert_eq!(t.get(&"".to_string()), None);
}

#[test]
fn string_map_inserts_replaces_and_removes() {
    let mut m: StringMap<u32> = StringMap::new();
    assert_eq!(m.len(), 0);
    m.insert("a".to_string(), 1);
    m.insert("b".to_string(), 2);
    m.insert("a".to_string(), 3);
    assert_eq!(m.len(), 2);
    assert_eq!(m.get(&"a".to_string()), Some(&3));
    assert_eq!(m.position(&"b".to_string()), Some(1));
    assert_eq!(m.key(0), "a");
    assert_eq!(m.value(1), &2);
    m.remove(&"a".to_string());
    m.remove(&"zzz".to_string());
    assert_eq!(m.len(), 1);
    assert_eq!(m.get(&"a".to_string()), None);
    assert_eq!(m.get(&"b".to_string()), Some(&2));
}

#[test]
fn push_escaped_puts_a_backslash_before_each_colon() {
    let mut out = ".".to_string();
    push_escaped(&mut out, "md:hover:flex");
    assert_eq!(out, ".md\\:hover\\:flex");
    let mut out = String::new();
    push_escaped(&mut out, "::a:");
    assert_eq!(out, "\\:\\:a\\:");
    let mut out = String::new();
    push_escaped(&mut out, "plain");
    assert_eq!(out, "plain");
    let mut out = "x".to_string();
    push_escaped(&mut out, "");
    assert_eq!(out, "x");
}
