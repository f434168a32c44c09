//! The style vocabulary: named rules, generators, and the three tables of
//! variant prefixes.

use crate::decimal::Decimal;
use vstd::prelude::*;

verus! {

/// A name and the text that belongs to it.
#[derive(Debug)]
pub struct Entry {
    pub name: String,
    pub value: String,
}

/// The map that `entries` build when they are inserted one after another: of
/// two entries with one name the later stays.
pub open spec fn table_map(entries: Seq<Entry>) -> Map<Seq<char>, Seq<char>>
    decreases entries.len(),
{
    if entries.len() == 0 {
        Map::empty()
    } else {
        table_map(entries.drop_last()).insert(entries.last().name@, entries.last().value@)
    }
}

/// A map from names to texts.
#[derive(Debug)]
pub struct Table {
    entries: Vec<Entry>,
}

impl View for Table {
    type V = Map<Seq<char>, Seq<char>>;

    closed spec fn view(&self) -> Map<Seq<char>, Seq<char>> {
        table_map(self.entries@)
    }
}

impl Table {
    /// The empty table.
    pub fn new() -> (t: Table)
        ensures
            t@ == Map::<Seq<char>, Seq<char>>::empty(),
    {
        Table { entries: Vec::new() }
    }

    /// Puts `value` under `name`, in place of what stood there.
    pub fn insert(&mut self, name: String, value: String)
        ensures
            final(self)@ == old(self)@.insert(name@, value@),
    {
        let ghost before = self.entries@;
        self.entries.push(Entry { name, value });
        assert(self.entries@.drop_last() =~= before);
    }

    /// The text under `name`, if there is one.
    pub fn get(&self, name: &String) -> (r: Option<&String>)
        ensures
            r is Some <==> self@.contains_key(name@),
            r is Some ==> r->0@ == self@[name@],
    {
        let mut i: usize = self.entries.len();
        assert(self.entries@.subrange(0, i as int) =~= self.entries@);
        while i > 0
            invariant
                i <= self.entries.len(),
                self@.contains_key(name@) <==> table_map(
                    self.entries@.subrange(0, i as int),
                ).contains_key(name@),
                self@.contains_key(name@) ==> self@[name@] == table_map(
                    self.entries@.subrange(0, i as int),
                )[name@],
            decreases i,
        {
            i = i - 1;
            assert(self.entries@.subrange(0, i + 1).drop_last() =~= self.entries@.subrange(
                0,
                i as int,
            ));
            assert(self.entries@.subrange(0, i + 1).last() == self.entries@[i as int]);
            if self.entries[i].name == *name {
                return Some(&self.entries[i].value);
            }
        }
        None
    }
}

/// A parametric rule: a class `prefix-N` sets `property` to `N * multiplier`
/// followed by `unit`.
#[derive(Debug)]
pub struct Generator {
    pub prefix: String,
    pub property: String,
    pub multiplier: Decimal,
    pub unit: String,
}

/// A property with its values by suffix: the class `key-suffix`, or `key`
/// alone for the empty suffix, sets `property` to the suffix's value.
#[derive(Debug)]
pub struct DynamicRule {
    pub key: String,
    pub property: String,
    pub values: Vec<Entry>,
}

/// A vocabulary as it is read from its store, before any entry is checked.
#[derive(Debug)]
pub struct VocabularySource {
    pub styles: Vec<Entry>,
    pub dynamics: Vec<DynamicRule>,
    pub generators: Vec<Generator>,
    pub screens: Vec<Entry>,
    pub states: Vec<Entry>,
    pub container_queries: Vec<Entry>,
}

/// The map of those of `entries` whose name and text are both non-empty.
pub open spec fn kept_map(entries: Seq<Entry>) -> Map<Seq<char>, Seq<char>>
    decreases entries.len(),
{
    if entries.len() == 0 {
        Map::empty()
    } else {
        let rest = kept_map(entries.drop_last());
        let e = entries.last();
        if e.name@.len() > 0 && e.value@.len() > 0 {
            rest.insert(e.name@, e.value@)
        } else {
            rest
        }
    }
}

/// The class name that a dynamic rule's `key` and one `suffix` make.
pub open spec fn dynamic_name(key: Seq<char>, suffix: Seq<char>) -> Seq<char> {
    if suffix.len() == 0 {
        key
    } else {
        key + "-"@ + suffix
    }
}

/// The declaration that sets `property` to `value`.
pub open spec fn declaration(property: Seq<char>, value: Seq<char>) -> Seq<char> {
    property + ": "@ + value
}

/// `base` with the classes of one dynamic rule added: one for each of
/// `values`, but for a class whose name would be empty.
pub open spec fn expanded_map(
    base: Map<Seq<char>, Seq<char>>,
    key: Seq<char>,
    property: Seq<char>,
    values: Seq<Entry>,
) -> Map<Seq<char>, Seq<char>>
    decreases values.len(),
{
    if values.len() == 0 {
        base
    } else {
        let rest = expanded_map(base, key, property, values.drop_last());
        let name = dynamic_name(key, values.last().name@);
        if name.len() > 0 {
            rest.insert(name, declaration(property, values.last().value@))
        } else {
            rest
        }
    }
}

/// The classes of all of `dynamics`, a later rule over an earlier one.
pub open spec fn dynamic_map(dynamics: Seq<DynamicRule>) -> Map<Seq<char>, Seq<char>>
    decreases dynamics.len(),
{
    if dynamics.len() == 0 {
        Map::empty()
    } else {
        let d = dynamics.last();
        expanded_map(dynamic_map(dynamics.drop_last()), d.key@, d.property@, d.values@)
    }
}

/// The table of those of `entries` whose name and text are both non-empty.
pub fn kept_table(entries: &Vec<Entry>) -> (t: Table)
    ensures
        t@ == kept_map(entries@),
{
    let mut t = Table::new();
    let mut i: usize = 0;
    assert(entries@.subrange(0, 0) =~= Seq::<Entry>::empty());
    while i < entries.len()
        invariant
            i <= entries.len(),
            t@ == kept_map(entries@.subrange(0, i as int)),
        decreases entries.len() - i,
    {
        assert(entries@.subrange(0, i + 1).drop_last() =~= entries@.subrange(0, i as int));
        let e = &entries[i];
        if !e.name.as_str().is_empty() && !e.value.as_str().is_empty() {
            t.insert(e.name.clone(), e.value.clone());
        }
        i = i + 1;
    }
    assert(entries@.subrange(0, entries.len() as int) =~= entries@);
    t
}

/// Adds the classes of one dynamic rule to `table`.
fn expand_into(table: &mut Table, rule: &DynamicRule)
    ensures
        final(table)@ == expanded_map(old(table)@, rule.key@, rule.property@, rule.values@),
{
    let mut i: usize = 0;
    assert(rule.values@.subrange(0, 0) =~= Seq::<Entry>::empty());
    while i < rule.values.len()
        invariant
            i <= rule.values.len(),
            table@ == expanded_map(
                old(table)@,
                rule.key@,
                rule.property@,
                rule.values@.subrange(0, i as int),
            ),
        decreases rule.values.len() - i,
    {
        assert(rule.values@.subrange(0, i + 1).drop_last() =~= rule.values@.subrange(
            0,
            i as int,
        ));
        let v = &rule.values[i];
        let mut name = rule.key.clone();
        if !v.name.as_str().is_empty() {
            name.append("-");
            name.append(v.name.as_str());
        }
        if !name.as_str().is_empty() {
            let mut css = rule.property.clone();
            css.append(": ");
            css.append(v.value.as_str());
            table.insert(name, css);
        }
        i = i + 1;
    }
    assert(rule.values@.subrange(0, rule.values.len() as int) =~= rule.values@);
}

/// The table of the classes of all of `dynamics`.
pub fn dynamic_table(dynamics: &Vec<DynamicRule>) -> (t: Table)
    ensures
        t@ == dynamic_map(dynamics@),
{
    let mut t = Table::new();
    let mut i: usize = 0;
    assert(dynamics@.subrange(0, 0) =~= Seq::<DynamicRule>::empty());
    while i < dynamics.len()
        invariant
            i <= dynamics.len(),
            t@ == dynamic_map(dynamics@.subrange(0, i as int)),
        decreases dynamics.len() - i,
    {
        assert(dynamics@.subrange(0, i + 1).drop_last() =~= dynamics@.subrange(0, i as int));
        expand_into(&mut t, &dynamics[i]);
        i = i + 1;
    }
    assert(dynamics@.subrange(0, dynamics.len() as int) =~= dynamics@);
    t
}

} // verus!
