//! The stylesheet: the rules of the classes in use, in the order of their
//! names.

use crate::classes::{name_views, ClassSet};
use crate::engine::{is_rule_of, StyleEngine};
use crate::resolve::{rule_of, VocabularyView};
use lightningcss::stylesheet::{ParserOptions, PrinterOptions, StyleSheet};
use vstd::prelude::*;
use vstd::relations::{sorted_by, total_ordering};
use vstd::seq_lib::lemma_sorted_unique;

verus! {

/// Why no stylesheet could be made.
#[derive(Clone, Copy, Debug, PartialEq, Eq)]
pub enum GenerateError {
    /// The rules put together are no CSS that can be parsed and printed
    /// again.
    InvalidCss,
}

/// The order of texts: character by character, a text before each of its
/// extensions.
pub open spec fn text_le(a: Seq<char>, b: Seq<char>) -> bool
    decreases a.len(),
{
    if a.len() == 0 {
        true
    } else if b.len() == 0 {
        false
    } else if a[0] != b[0] {
        a[0] < b[0]
    } else {
        text_le(a.drop_first(), b.drop_first())
    }
}

/// Whether `names` are in ascending order.
pub open spec fn ascending(names: Seq<Seq<char>>) -> bool {
    forall|i: int, j: int| 0 <= i < j < names.len() ==> text_le(names[i], names[j])
}

/// Whether `names` list the members of `set`, each once, in ascending order.
pub open spec fn sorted_listing(names: Seq<Seq<char>>, set: Set<Seq<char>>) -> bool {
    names.no_duplicates() && names.to_set() == set && ascending(names)
}

/// The rules of those of `names` that have one, in the order of `names`.
pub open spec fn rules_of(v: VocabularyView, names: Seq<Seq<char>>) -> Seq<Seq<char>>
    decreases names.len(),
{
    if names.len() == 0 {
        Seq::empty()
    } else {
        let rest = rules_of(v, names.drop_last());
        match rule_of(v, names.last()) {
            Some(rule) => rest.push(rule),
            None => rest,
        }
    }
}

/// `rules` one after another with a blank line between two of them.
pub open spec fn joined(rules: Seq<Seq<char>>) -> Seq<char>
    decreases rules.len(),
{
    if rules.len() == 0 {
        Seq::empty()
    } else if rules.len() == 1 {
        rules[0]
    } else {
        joined(rules.drop_last()) + "\n\n"@ + rules.last()
    }
}

/// The minified form of a stylesheet: what `lightningcss` prints, with
/// `minify` set, of what it parsed from `css`; `None` where it cannot parse
/// or print it.
pub uninterp spec fn minified(css: Seq<char>) -> Option<Seq<char>>;

/// The stylesheet for the classes `names`: empty where none of them has a
/// rule; else their rules joined, and in production that text minified,
/// which fails where the text is no valid CSS.
pub open spec fn stylesheet_of(v: VocabularyView, names: Seq<Seq<char>>, production: bool) -> Result<
    Seq<char>,
    GenerateError,
> {
    let rules = rules_of(v, names);
    if rules.len() == 0 {
        Ok(Seq::empty())
    } else if !production {
        Ok(joined(rules))
    } else {
        match minified(joined(rules)) {
            Some(m) => Ok(m),
            None => Err(GenerateError::InvalidCss),
        }
    }
}

/// Whether `r` is the stylesheet for the classes of `set`: what
/// [`stylesheet_of`] gives for their names in ascending order.
pub open spec fn is_stylesheet(
    v: VocabularyView,
    set: Set<Seq<char>>,
    production: bool,
    r: Result<String, GenerateError>,
) -> bool {
    exists|names: Seq<Seq<char>>| #[trigger]
        sorted_listing(names, set) && match stylesheet_of(v, names, production) {
            Ok(text) => r is Ok && r->Ok_0@ == text,
            Err(e) => r == Err::<String, GenerateError>(e),
        }
}

/// Every text stands at or before itself.
proof fn lemma_text_le_reflexive(a: Seq<char>)
    ensures
        text_le(a, a),
    decreases a.len(),
{
    if a.len() > 0 {
        lemma_text_le_reflexive(a.drop_first());
    }
}

/// Two texts that each stand at or before the other are the same text.
proof fn lemma_text_le_antisymmetric(a: Seq<char>, b: Seq<char>)
    requires
        text_le(a, b),
        text_le(b, a),
    ensures
        a == b,
    decreases a.len(),
{
    if a.len() > 0 {
        lemma_text_le_antisymmetric(a.drop_first(), b.drop_first());
        assert(a =~= seq![a[0]] + a.drop_first());
        assert(b =~= seq![b[0]] + b.drop_first());
    } else {
        assert(a =~= b);
    }
}

/// The order of texts passes on from a text to those after a later text.
proof fn lemma_text_le_transitive(a: Seq<char>, b: Seq<char>, c: Seq<char>)
    requires
        text_le(a, b),
        text_le(b, c),
    ensures
        text_le(a, c),
    decreases a.len(),
{
    if a.len() > 0 && a[0] == b[0] && b[0] == c[0] {
        lemma_text_le_transitive(a.drop_first(), b.drop_first(), c.drop_first());
    }
}

/// Of two texts one stands at or before the other.
proof fn lemma_text_le_connected(a: Seq<char>, b: Seq<char>)
    ensures
        text_le(a, b) || text_le(b, a),
    decreases a.len(),
{
    if a.len() > 0 && b.len() > 0 && a[0] == b[0] {
        lemma_text_le_connected(a.drop_first(), b.drop_first());
    }
}

/// A set of class names has one listing in ascending order and no other, so
/// the stylesheet for a set of classes is determined by the set.
pub proof fn lemma_sorted_listing_unique(a: Seq<Seq<char>>, b: Seq<Seq<char>>, set: Set<Seq<char>>)
    requires
        sorted_listing(a, set),
        sorted_listing(b, set),
    ensures
        a == b,
{
    let leq = |x: Seq<char>, y: Seq<char>| text_le(x, y);
    assert(total_ordering(leq)) by {
        assert forall|x: Seq<char>| #[trigger] leq(x, x) by {
            lemma_text_le_reflexive(x);
        }
        assert forall|x: Seq<char>, y: Seq<char>| #[trigger] leq(x, y) && #[trigger] leq(
            y,
            x,
        ) implies x == y by {
            lemma_text_le_antisymmetric(x, y);
        }
        assert forall|x: Seq<char>, y: Seq<char>, z: Seq<char>| #[trigger] leq(x, y)
            && #[trigger] leq(y, z) implies leq(x, z) by {
            lemma_text_le_transitive(x, y, z);
        }
        assert forall|x: Seq<char>, y: Seq<char>| #[trigger] leq(x, y) || #[trigger] leq(
            y,
            x,
        ) by {
            lemma_text_le_connected(x, y);
        }
    }
    assert(sorted_by(a, leq));
    assert(sorted_by(b, leq));
    assert(a.to_multiset() =~= b.to_multiset()) by {
        a.lemma_multiset_has_no_duplicates();
        b.lemma_multiset_has_no_duplicates();
        a.to_multiset_ensures();
        b.to_multiset_ensures();
        assert forall|x: Seq<char>| a.to_multiset().count(x) == b.to_multiset().count(x) by {
            assert(a.contains(x) <==> a.to_set().contains(x));
            assert(b.contains(x) <==> b.to_set().contains(x));
            assert(a.contains(x) <==> a.to_multiset().count(x) > 0);
            assert(b.contains(x) <==> b.to_multiset().count(x) > 0);
        }
    }
    lemma_sorted_unique(a, b, leq);
}

/// Two stylesheets for the same classes are the same.
pub proof fn lemma_stylesheet_unique(
    v: VocabularyView,
    set: Set<Seq<char>>,
    production: bool,
    one: Result<String, GenerateError>,
    other: Result<String, GenerateError>,
)
    requires
        is_stylesheet(v, set, production, one),
        is_stylesheet(v, set, production, other),
    ensures
        one is Ok <==> other is Ok,
        one is Ok ==> one->Ok_0@ == other->Ok_0@,
        one is Err ==> one->Err_0 == other->Err_0,
{
    let a = choose|names: Seq<Seq<char>>| #[trigger]
        sorted_listing(names, set) && match stylesheet_of(v, names, production) {
            Ok(text) => one is Ok && one->Ok_0@ == text,
            Err(e) => one == Err::<String, GenerateError>(e),
        };
    let b = choose|names: Seq<Seq<char>>| #[trigger]
        sorted_listing(names, set) && match stylesheet_of(v, names, production) {
            Ok(text) => other is Ok && other->Ok_0@ == text,
            Err(e) => other == Err::<String, GenerateError>(e),
        };
    lemma_sorted_listing_unique(a, b, set);
}

/// A class without a rule leaves no trace in the stylesheet, wherever it
/// stands among the names.
pub proof fn lemma_unknown_dropped(
    v: VocabularyView,
    before: Seq<Seq<char>>,
    token: Seq<char>,
    after: Seq<Seq<char>>,
)
    requires
        rule_of(v, token) is None,
    ensures
        rules_of(v, before.push(token) + after) == rules_of(v, before + after),
    decreases after.len(),
{
    if after.len() == 0 {
        assert(before.push(token) + after =~= before.push(token));
        assert(before + after =~= before);
        assert(before.push(token).drop_last() =~= before);
    } else {
        lemma_unknown_dropped(v, before, token, after.drop_last());
        assert((before.push(token) + after).drop_last() =~= before.push(token)
            + after.drop_last());
        assert((before + after).drop_last() =~= before + after.drop_last());
    }
}

/// `sort_unstable` on a vector of strings: the same strings, in ascending
/// order of their texts.
#[verifier::external_body]
fn sort_names(names: &mut Vec<String>)
    ensures
        name_views(final(names)@).to_multiset() == name_views(old(names)@).to_multiset(),
        ascending(name_views(final(names)@)),
{
    names.sort_unstable();
}

/// `StyleSheet::parse` with default options, then `StyleSheet::to_css` with
/// `minify` set and all else default: the text printed, or `None` where
/// either fails.
#[verifier::external_body]
fn minify(css: &str) -> (r: Option<String>)
    ensures
        r is Some <==> minified(css@) is Some,
        r is Some ==> Some(r->0@) == minified(css@),
{
    let sheet = StyleSheet::parse(css, ParserOptions::default()).ok()?;
    let options = PrinterOptions { minify: true, ..PrinterOptions::default() };
    sheet.to_css(options).ok().map(|printed| printed.code)
}

/// The names of `set` in ascending order.
pub fn sorted_names(set: &ClassSet) -> (names: Vec<String>)
    requires
        set.wf(),
    ensures
        sorted_listing(name_views(names@), set@),
{
    let mut names = set.to_names();
    let ghost before = name_views(names@);
    sort_names(&mut names);
    proof {
        let after = name_views(names@);
        before.lemma_multiset_has_no_duplicates();
        after.lemma_multiset_has_no_duplicates_conv();
        before.to_multiset_ensures();
        after.to_multiset_ensures();
        assert forall|a: Seq<char>| after.contains(a) <==> before.contains(a) by {
            assert(after.contains(a) <==> after.to_multiset().count(a) > 0);
            assert(before.contains(a) <==> before.to_multiset().count(a) > 0);
        }
        assert(after.to_set() =~= before.to_set());
    }
    names
}

/// The rules of those of `names` that have one.
pub fn resolve_all(engine: &mut StyleEngine, names: &Vec<String>) -> (rules: Vec<String>)
    requires
        old(engine).wf(),
    ensures
        final(engine).wf(),
        final(engine).vocabulary() == old(engine).vocabulary(),
        name_views(rules@) == rules_of(old(engine).vocabulary(), name_views(names@)),
{
    let ghost v = engine.vocabulary();
    let ghost all = name_views(names@);
    let found = engine.generate_css_for_classes(names);
    let mut rules: Vec<String> = Vec::new();
    let mut i: usize = 0;
    assert(name_views(rules@) =~= rules_of(v, all.subrange(0, 0)));
    while i < found.len()
        invariant
            all == name_views(names@),
            found@.len() == names@.len(),
            forall|k: int|
                0 <= k < names@.len() ==> is_rule_of(v, names@[k]@, #[trigger] found@[k]),
            i <= found.len(),
            name_views(rules@) == rules_of(v, all.subrange(0, i as int)),
        decreases found.len() - i,
    {
        assert(all.subrange(0, i + 1).drop_last() =~= all.subrange(0, i as int));
        assert(all.subrange(0, i + 1).last() == names@[i as int]@);
        assert(is_rule_of(v, names@[i as int]@, found@[i as int]));
        let ghost before = name_views(rules@);
        match &found[i] {
            Some(rule) => {
                rules.push(rule.clone());
                assert(name_views(rules@) =~= before.push(rule@));
            },
            None => {},
        }
        i = i + 1;
    }
    assert(all.subrange(0, names.len() as int) =~= all);
    rules
}

/// `rules` one after another with a blank line between two of them.
pub fn join_rules(rules: &Vec<String>) -> (text: String)
    ensures
        text@ == joined(name_views(rules@)),
{
    let mut text = String::new();
    let ghost all = name_views(rules@);
    let mut i: usize = 0;
    assert(all.subrange(0, 0) =~= Seq::<Seq<char>>::empty());
    while i < rules.len()
        invariant
            all == name_views(rules@),
            i <= rules.len(),
            text@ == joined(all.subrange(0, i as int)),
        decreases rules.len() - i,
    {
        assert(all.subrange(0, i + 1).drop_last() =~= all.subrange(0, i as int));
        assert(all.subrange(0, i + 1).last() == rules@[i as int]@);
        if i > 0 {
            text.append("\n\n");
        } else {
            assert(all.subrange(0, 1)[0] == rules@[0]@);
            assert(text@ + rules@[0]@ =~= rules@[0]@);
        }
        text.append(rules[i].as_str());
        i = i + 1;
    }
    assert(all.subrange(0, rules.len() as int) =~= all);
    text
}

/// What becomes of the joined rules in production, given what minifying
/// them gave: the minified text, or the error where there is none.
pub fn minified_or_error(minified: Option<String>) -> (r: Result<String, GenerateError>)
    ensures
        r == match minified {
            Some(m) => Ok::<String, GenerateError>(m),
            None => Err::<String, GenerateError>(GenerateError::InvalidCss),
        },
{
    match minified {
        Some(m) => Ok(m),
        None => Err(GenerateError::InvalidCss),
    }
}

/// The stylesheet for the classes `class_names`: their rules in ascending
/// order of the class names, classes without a rule left out. For no class,
/// or for classes none of which has a rule, it is the empty text, not an
/// error.
pub fn generate_css(class_names: &ClassSet, engine: &mut StyleEngine, production: bool) -> (r:
    Result<String, GenerateError>)
    requires
        class_names.wf(),
        old(engine).wf(),
    ensures
        final(engine).wf(),
        final(engine).vocabulary() == old(engine).vocabulary(),
        is_stylesheet(old(engine).vocabulary(), class_names@, production, r),
        !production ==> r is Ok,
        class_names@ == Set::<Seq<char>>::empty() ==> r is Ok && r->Ok_0@ == Seq::<char>::empty(),
{
    let names = sorted_names(class_names);
    let ghost v = engine.vocabulary();
    let ghost listing = name_views(names@);
    proof {
        if class_names@ == Set::<Seq<char>>::empty() {
            if listing.len() > 0 {
                assert(listing.to_set().contains(listing[0]));
            }
        }
    }
    let rules = resolve_all(engine, &names);
    let r = if rules.len() == 0 {
        Ok(String::new())
    } else {
        let text = join_rules(&rules);
        if production {
            minified_or_error(minify(text.as_str()))
        } else {
            Ok(text)
        }
    };
    proof {
        assert(rules_of(v, listing).len() == rules@.len());
        assert(sorted_listing(listing, class_names@));
    }
    r
}

} // verus!
