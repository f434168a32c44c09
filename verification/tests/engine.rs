use utility_css::decimal::Decimal;
use utility_css::engine::StyleEngine;
use utility_css::resolve::StyleVocabulary;
use utility_css::vocabulary::{DynamicRule, Entry, Generator, VocabularySource};

fn entry(name: &str, value: &str) -> Entry {
    Entry { name: name.to_string(), value: value.to_string() }
}

fn generator(prefix: &str, property: &str, mantissa: u64, scale: u8, unit: &str) -> Generator {
    Generator {
        prefix: prefix.to_string(),
        property: property.to_string(),
        multiplier: Decimal::new(false, mantissa, scale).unwrap(),
        unit: unit.to_string(),
    }
}

fn source() -> VocabularySource {
    VocabularySource {
        styles: vec![
            entry("text-red", "color: red"),
            entry("flex", "display: flex"),
            entry("", "color: blue"),
            entry("hollow", ""),
        ],
        dynamics: vec![DynamicRule {
            key: "bg".to_string(),
            property: "background-color".to_string(),
            values: vec![entry("blue", "#00f"), entry("", "transparent")],
        }],
        generators: vec![
            generator("m", "margin", 1, 0, "px"),
            generator("mt", "margin-top", 25, 2, "rem"),
            generator("z", "z-index", 1, 0, ""),
            generator("op", "opacity", 1, 1, ""),
        ],
        screens: vec![entry("md", "768px"), entry("lg", "1024px")],
        states: vec![entry("hover", ":hover"), entry("focus", ":focus")],
        container_queries: vec![entry("cq", "400px"), entry("md", "1px")],
    }
}

fn engine() -> StyleEngine {
    StyleEngine::new(source())
}

fn rule(token: &str) -> Option<String> {
    engine().generate_css_for_class(token)
}

#[test]
fn generator_multiplies_the_suffix() {
    assert_eq!(rule("mt-4"), Some(".mt-4 { margin-top: 1rem }".to_string()));
}

#[test]
fn generator_negates_after_a_second_dash() {
    assert_eq!(rule("mt--4"), Some(".mt--4 { margin-top: -1rem }".to_string()));
}

#[test]
fn generator_takes_an_empty_suffix_as_one() {
    assert_eq!(rule("mt-"), Some(".mt- { margin-top: 0.25rem }".to_string()));
    assert_eq!(rule("mt--"), Some(".mt-- { margin-top: -0.25rem }".to_string()));
}

#[test]
fn generator_needs_the_dash_after_its_prefix() {
    assert_eq!(rule("mt"), None);
    assert_eq!(rule("mtx-4"), None);
}

#[test]
fn generator_reads_fractions() {
    assert_eq!(rule("mt-1.5"), Some(".mt-1.5 { margin-top: 0.375rem }".to_string()));
    assert_eq!(rule("mt-.5"), Some(".mt-.5 { margin-top: 0.125rem }".to_string()));
    assert_eq!(rule("mt-2."), Some(".mt-2. { margin-top: 0.5rem }".to_string()));
    assert_eq!(rule("op-5"), Some(".op-5 { opacity: 0.5 }".to_string()));
    assert_eq!(rule("op-10"), Some(".op-10 { opacity: 1 }".to_string()));
}

#[test]
fn generator_without_unit_writes_a_bare_number() {
    assert_eq!(rule("z-10"), Some(".z-10 { z-index: 10 }".to_string()));
    assert_eq!(rule("z--1"), Some(".z--1 { z-index: -1 }".to_string()));
}

#[test]
fn generator_writes_zero_without_sign() {
    assert_eq!(rule("z-0"), Some(".z-0 { z-index: 0 }".to_string()));
    assert_eq!(rule("z--0"), Some(".z--0 { z-index: 0 }".to_string()));
    assert_eq!(rule("mt-0.0"), Some(".mt-0.0 { margin-top: 0rem }".to_string()));
}

#[test]
fn first_matching_generator_wins() {
    // `m` stands before `mt`; for `mt-4` the generator `m` does not match,
    // because `t` and not `-` follows its prefix.
    assert_eq!(rule("m-4"), Some(".m-4 { margin: 4px }".to_string()));
    assert_eq!(rule("mt-4"), Some(".mt-4 { margin-top: 1rem }".to_string()));
    let mut both = source();
    both.generators = vec![
        generator("p", "padding", 1, 0, "px"),
        generator("p", "padding", 2, 0, "em"),
    ];
    let mut e = StyleEngine::new(both);
    assert_eq!(e.generate_css_for_class("p-3"), Some(".p-3 { padding: 3px }".to_string()));
}

#[test]
fn a_suffix_that_is_no_number_falls_through_to_later_generators() {
    let mut s = source();
    s.generators = vec![
        generator("a", "top", 1, 0, "px"),
        generator("a-b", "left", 2, 0, "px"),
    ];
    let mut e = StyleEngine::new(s);
    assert_eq!(e.generate_css_for_class("a-b-3"), Some(".a-b-3 { left: 6px }".to_string()));
    assert_eq!(e.generate_css_for_class("a-x"), None);
    assert_eq!(e.generate_css_for_class("a-1e3"), None);
    assert_eq!(e.generate_css_for_class("a-1.2.3"), None);
    assert_eq!(e.generate_css_for_class("a-+1"), None);
}

#[test]
fn a_number_of_more_than_nine_digits_is_no_number() {
    assert_eq!(rule("z-999999999"), Some(".z-999999999 { z-index: 999999999 }".to_string()));
    assert_eq!(rule("z-1000000000"), None);
    assert_eq!(rule("z-0.1234567891"), None);
    assert_eq!(rule("z-0.123456789"), Some(".z-0.123456789 { z-index: 0.123456789 }".to_string()));
}

#[test]
fn negative_multiplier_flips_the_sign() {
    let mut s = source();
    s.generators = vec![Generator {
        prefix: "up".to_string(),
        property: "top".to_string(),
        multiplier: Decimal::new(true, 5, 1).unwrap(),
        unit: "em".to_string(),
    }];
    let mut e = StyleEngine::new(s);
    assert_eq!(e.generate_css_for_class("up-3"), Some(".up-3 { top: -1.5em }".to_string()));
    assert_eq!(e.generate_css_for_class("up--3"), Some(".up--3 { top: 1.5em }".to_string()));
}

#[test]
fn variants_wrap_and_extend_the_selector() {
    assert_eq!(
        rule("md:hover:text-red"),
        Some("@media (min-width: 768px) { .md\\:hover\\:text-red:hover { color: red } }".to_string())
    );
}

#[test]
fn first_listed_wrapper_is_outermost() {
    assert_eq!(
        rule("md:cq:flex"),
        Some(
            "@media (min-width: 768px) { @container (min-width: 400px) { .md\\:cq\\:flex { display: flex } } }"
                .to_string()
        )
    );
    assert_eq!(
        rule("cq:lg:flex"),
        Some(
            "@container (min-width: 400px) { @media (min-width: 1024px) { .cq\\:lg\\:flex { display: flex } } }"
                .to_string()
        )
    );
}

#[test]
fn states_concatenate_in_order() {
    assert_eq!(
        rule("hover:focus:flex"),
        Some(".hover\\:focus\\:flex:hover:focus { display: flex }".to_string())
    );
    assert_eq!(
        rule("focus:hover:flex"),
        Some(".focus\\:hover\\:flex:focus:hover { display: flex }".to_string())
    );
}

#[test]
fn breakpoint_comes_before_container_for_one_name() {
    // `md` is both a screen and a container query: the screen decides.
    assert_eq!(rule("md:flex"), Some("@media (min-width: 768px) { .md\\:flex { display: flex } }".to_string()));
}

#[test]
fn unknown_prefix_is_ignored() {
    assert_eq!(rule("nope:flex"), Some(".nope\\:flex { display: flex }".to_string()));
    assert_eq!(rule(":flex"), Some(".\\:flex { display: flex }".to_string()));
}

#[test]
fn variants_apply_to_generated_rules() {
    assert_eq!(
        rule("lg:mt-2"),
        Some("@media (min-width: 1024px) { .lg\\:mt-2 { margin-top: 0.5rem } }".to_string())
    );
}

#[test]
fn unknown_token_has_no_rule() {
    assert_eq!(rule("nothing"), None);
    assert_eq!(rule(""), None);
    assert_eq!(rule("md:"), None);
    assert_eq!(rule("md:nothing"), None);
}

#[test]
fn static_rule_wins_over_dynamic_rule_and_generator() {
    let mut s = source();
    s.styles.push(entry("bg-blue", "background: navy"));
    s.styles.push(entry("m-4", "margin: auto"));
    let mut e = StyleEngine::new(s);
    assert_eq!(e.generate_css_for_class("bg-blue"), Some(".bg-blue { background: navy }".to_string()));
    assert_eq!(e.generate_css_for_class("m-4"), Some(".m-4 { margin: auto }".to_string()));
}

#[test]
fn dynamic_rules_expand_by_suffix() {
    assert_eq!(rule("bg-blue"), Some(".bg-blue { background-color: #00f }".to_string()));
    assert_eq!(rule("bg"), Some(".bg { background-color: transparent }".to_string()));
}

#[test]
fn entries_with_empty_name_or_text_are_left_out() {
    assert_eq!(rule("hollow"), None);
    let mut s = source();
    s.screens.push(entry("xl", ""));
    let mut e = StyleEngine::new(s);
    assert_eq!(e.generate_css_for_class("xl:flex"), Some(".xl\\:flex { display: flex }".to_string()));
}

#[test]
fn later_entry_replaces_earlier_one() {
    let mut s = source();
    s.styles.push(entry("flex", "display: inline-flex"));
    let mut e = StyleEngine::new(s);
    assert_eq!(e.generate_css_for_class("flex"), Some(".flex { display: inline-flex }".to_string()));
}

#[test]
fn cached_rule_is_the_resolved_rule() {
    let mut e = engine();
    let first = e.generate_css_for_class("md:hover:text-red");
    let second = e.generate_css_for_class("md:hover:text-red");
    assert_eq!(first, second);
    assert_eq!(e.generate_css_for_class("mt-4"), Some(".mt-4 { margin-top: 1rem }".to_string()));
    assert_eq!(e.generate_css_for_class("md:hover:text-red"), first);
    assert_eq!(e.generate_css_for_class("nothing"), None);
    assert_eq!(e.generate_css_for_class("nothing"), None);
}

#[test]
fn cache_overflow_keeps_results_right() {
    let mut e = engine();
    for round in 0..2 {
        for n in 0..1500u32 {
            let token = format!("z-{}", n);
            let expected = format!(".z-{} {{ z-index: {} }}", n, n);
            assert_eq!(e.generate_css_for_class(&token), Some(expected), "round {}", round);
        }
    }
}

#[test]
fn vocabulary_resolves_without_a_cache() {
    let v = StyleVocabulary::new(source());
    assert_eq!(v.resolve("mt-4"), Some(".mt-4 { margin-top: 1rem }".to_string()));
    assert_eq!(v.resolve("nothing"), None);
    assert_eq!(v.fragment(&"text-red".to_string()), Some("color: red".to_string()));
    assert_eq!(v.fragment(&"md:text-red".to_string()), None);
}
