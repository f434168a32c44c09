//! The style engine: a vocabulary with a bounded cache of the rules it has
//! resolved.

use crate::resolve::{rule_of, vocabulary_of, StyleVocabulary, VocabularyView};
use crate::vocabulary::VocabularySource;
use lru::LruCache;
use rayon::iter::{IntoParallelRefIterator, ParallelIterator};
use vstd::prelude::*;

verus! {

/// How many resolved rules an engine keeps.
pub const RULE_CACHE_CAPACITY: usize = 1000;

/// The bounded cache of the `lru` crate. Nothing inside it is visible here;
/// what it holds goes by [`cached_rules`].
#[verifier::external_type_specification]
#[verifier::external_body]
#[verifier::reject_recursive_types(K)]
#[verifier::reject_recursive_types(V)]
#[verifier::reject_recursive_types(S)]
pub struct ExLruCache<K, V, S>(LruCache<K, V, S>);

/// The hasher that an `LruCache` has where none is chosen for it.
#[verifier::external_type_specification]
#[verifier::external_body]
pub struct ExDefaultHasher(lru::DefaultHasher);

/// The entries that a cache holds: each key with its value.
pub uninterp spec fn cached_rules(cache: LruCache<String, String>) -> Map<Seq<char>, Seq<char>>;

/// The number of entries that a cache was made to hold at most.
pub uninterp spec fn cache_limit(cache: LruCache<String, String>) -> nat;

/// `LruCache::new` with a capacity that is not zero: the new cache holds
/// nothing and has that capacity as its limit.
#[verifier::external_body]
fn cache_new(capacity: usize) -> (cache: LruCache<String, String>)
    requires
        capacity > 0,
    ensures
        forall|k: Seq<char>| !cached_rules(cache).contains_key(k),
        cache_limit(cache) == capacity,
{
    LruCache::new(std::num::NonZeroUsize::new(capacity).unwrap())
}

/// `LruCache::get`: the value under `key`, if the cache holds the key. The
/// call moves the entry to the front and leaves what the cache holds, and
/// its limit, as they were.
#[verifier::external_body]
fn cache_get(cache: &mut LruCache<String, String>, key: &str) -> (r: Option<String>)
    ensures
        cached_rules(*final(cache)) == cached_rules(*old(cache)),
        cache_limit(*final(cache)) == cache_limit(*old(cache)),
        r is Some <==> cached_rules(*old(cache)).contains_key(key@),
        r is Some ==> r->0@ == cached_rules(*old(cache))[key@],
{
    cache.get(key).cloned()
}

/// `LruCache::put`: afterwards the cache holds `value` under `key`. Every
/// other entry it holds was there before with the same value; the entry
/// used least recently has left where there was no room. The cache never
/// holds more entries than its limit, which stays as it was.
#[verifier::external_body]
fn cache_put(cache: &mut LruCache<String, String>, key: String, value: String)
    ensures
        cache_limit(*final(cache)) == cache_limit(*old(cache)),
        cached_rules(*final(cache)).dom().finite(),
        cached_rules(*final(cache)).dom().len() <= cache_limit(*final(cache)),
        cached_rules(*final(cache)).contains_key(key@),
        cached_rules(*final(cache))[key@] == value@,
        forall|k: Seq<char>|
            k != key@ && #[trigger] cached_rules(*final(cache)).contains_key(k) ==> cached_rules(
                *old(cache),
            ).contains_key(k) && cached_rules(*final(cache))[k] == cached_rules(*old(cache))[k],
{
    cache.put(key, value);
}

/// Whether `rule` is the rule of `token`, or `None` where it has none.
pub open spec fn is_rule_of(v: VocabularyView, token: Seq<char>, rule: Option<String>) -> bool {
    match rule {
        Some(text) => rule_of(v, token) == Some(text@),
        None => rule_of(v, token) is None,
    }
}

/// `par_iter`, `map` and `collect` of `rayon` over `names`, each name
/// resolved by [`StyleVocabulary::resolve`] on some thread: the results
/// stand in the order of the names.
#[verifier::external_body]
fn resolve_in_parallel(vocabulary: &StyleVocabulary, names: &Vec<String>) -> (rules: Vec<
    Option<String>,
>)
    ensures
        rules@.len() == names@.len(),
        forall|i: int|
            0 <= i < names@.len() ==> is_rule_of(vocabulary@, names@[i]@, #[trigger] rules@[i]),
{
    names.par_iter().map(|name| vocabulary.resolve(name.as_str())).collect()
}

/// What the cache said of one token: its rule, or where the token stands
/// among those still to resolve.
enum Slot {
    Hit(String),
    Miss(usize),
}

/// A vocabulary together with the rules resolved most recently.
pub struct StyleEngine {
    vocabulary: StyleVocabulary,
    css_cache: LruCache<String, String>,
}

impl StyleEngine {
    /// The vocabulary that the engine resolves against.
    pub closed spec fn vocabulary(&self) -> VocabularyView {
        self.vocabulary@
    }

    /// The rules that the engine has in its cache, by token.
    pub closed spec fn cached(&self) -> Map<Seq<char>, Seq<char>> {
        cached_rules(self.css_cache)
    }

    /// Every cached rule is the rule of its token, and the cache is within
    /// its bound.
    pub closed spec fn wf(&self) -> bool {
        &&& forall|k: Seq<char>| #[trigger]
            cached_rules(self.css_cache).contains_key(k) ==> rule_of(self.vocabulary@, k) == Some(
                cached_rules(self.css_cache)[k],
            )
        &&& cache_limit(self.css_cache) == RULE_CACHE_CAPACITY
        &&& cached_rules(self.css_cache).dom().finite()
        &&& cached_rules(self.css_cache).dom().len() <= RULE_CACHE_CAPACITY
    }

    /// The cache of a well-formed engine holds at most
    /// [`RULE_CACHE_CAPACITY`] rules, each the rule of its token.
    pub proof fn lemma_cache(&self)
        requires
            self.wf(),
        ensures
            self.cached().dom().finite(),
            self.cached().dom().len() <= RULE_CACHE_CAPACITY,
            forall|k: Seq<char>| #[trigger]
                self.cached().contains_key(k) ==> rule_of(self.vocabulary(), k) == Some(
                    self.cached()[k],
                ),
    {
    }

    /// An engine for the vocabulary that `source` describes, with nothing
    /// cached yet.
    pub fn new(source: VocabularySource) -> (r: StyleEngine)
        ensures
            r.wf(),
            r.vocabulary() == vocabulary_of(source),
            r.cached() == Map::<Seq<char>, Seq<char>>::empty(),
    {
        let css_cache = cache_new(RULE_CACHE_CAPACITY);
        assert(cached_rules(css_cache) =~= Map::<Seq<char>, Seq<char>>::empty());
        StyleEngine { vocabulary: StyleVocabulary::new(source), css_cache }
    }

    /// The CSS rule of the class token `class_name`, from the cache where it
    /// is there; `None` for a token that the vocabulary does not know. The
    /// result is the same whatever the cache holds.
    pub fn generate_css_for_class(&mut self, class_name: &str) -> (r: Option<String>)
        requires
            old(self).wf(),
        ensures
            final(self).wf(),
            final(self).vocabulary() == old(self).vocabulary(),
            r is Some <==> rule_of(old(self).vocabulary(), class_name@) is Some,
            r is Some ==> Some(r->0@) == rule_of(old(self).vocabulary(), class_name@),
            r is Some ==> final(self).cached().contains_key(class_name@),
    {
        match cache_get(&mut self.css_cache, class_name) {
            Some(css) => {
                return Some(css);
            },
            None => {},
        }
        match self.vocabulary.resolve(class_name) {
            Some(css) => {
                cache_put(&mut self.css_cache, String::from_str(class_name), css.clone());
                Some(css)
            },
            None => None,
        }
    }

    /// The CSS rule of each of `names`, in their order. Rules in the cache
    /// are taken from it; the other tokens are resolved in parallel, and
    /// what was found for them is cached.
    pub fn generate_css_for_classes(&mut self, names: &Vec<String>) -> (rules: Vec<Option<String>>)
        requires
            old(self).wf(),
        ensures
            final(self).wf(),
            final(self).vocabulary() == old(self).vocabulary(),
            rules@.len() == names@.len(),
            forall|i: int|
                0 <= i < names@.len() ==> is_rule_of(
                    old(self).vocabulary(),
                    names@[i]@,
                    #[trigger] rules@[i],
                ),
    {
        let ghost v = self.vocabulary@;
        let mut slots: Vec<Slot> = Vec::new();
        let mut missing: Vec<String> = Vec::new();
        let mut i: usize = 0;
        while i < names.len()
            invariant
                self.wf(),
                self.vocabulary@ == v,
                i <= names.len(),
                slots@.len() == i,
                forall|k: int|
                    0 <= k < i ==> match #[trigger] slots@[k] {
                        Slot::Hit(rule) => rule_of(v, names@[k]@) == Some(rule@),
                        Slot::Miss(j) => j < missing@.len() && missing@[j as int]@ == names@[k]@,
                    },
            decreases names.len() - i,
        {
            match cache_get(&mut self.css_cache, names[i].as_str()) {
                Some(rule) => {
                    slots.push(Slot::Hit(rule));
                },
                None => {
                    slots.push(Slot::Miss(missing.len()));
                    missing.push(names[i].clone());
                },
            }
            i = i + 1;
        }
        let resolved = resolve_in_parallel(&self.vocabulary, &missing);
        let mut rules: Vec<Option<String>> = Vec::new();
        let mut k: usize = 0;
        while k < names.len()
            invariant
                self.wf(),
                self.vocabulary@ == v,
                k <= names.len(),
                slots@.len() == names@.len(),
                resolved@.len() == missing@.len(),
                rules@.len() == k,
                forall|n: int|
                    0 <= n < names@.len() ==> match #[trigger] slots@[n] {
                        Slot::Hit(rule) => rule_of(v, names@[n]@) == Some(rule@),
                        Slot::Miss(j) => j < missing@.len() && missing@[j as int]@ == names@[n]@,
                    },
                forall|j: int|
                    0 <= j < missing@.len() ==> is_rule_of(v, missing@[j]@, #[trigger] resolved@[j]),
                forall|n: int| 0 <= n < k ==> is_rule_of(v, names@[n]@, #[trigger] rules@[n]),
            decreases names.len() - k,
        {
            let ghost before = rules@;
            let rule: Option<String> = match &slots[k] {
                Slot::Hit(rule) => Some(rule.clone()),
                Slot::Miss(j) => {
                    assert(is_rule_of(v, missing@[*j as int]@, resolved@[*j as int]));
                    match &resolved[*j] {
                        Some(rule) => {
                            cache_put(&mut self.css_cache, names[k].clone(), rule.clone());
                            Some(rule.clone())
                        },
                        None => None,
                    }
                },
            };
            assert(is_rule_of(v, names@[k as int]@, rule));
            rules.push(rule);
            assert forall|n: int| 0 <= n < k + 1 implies is_rule_of(
                v,
                names@[n]@,
                #[trigger] rules@[n],
            ) by {
                if n < k {
                    assert(rules@[n] == before[n]);
                }
            }
            k = k + 1;
        }
        rules
    }
}

} // verus!
