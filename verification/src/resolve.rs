//! From one class token to its CSS rule.

use crate::decimal::{
    decimal_text, has_minus, is_number, number_mantissa, number_scale, push_decimal,
    unsigned_part, Decimal,
};
use crate::text::{base_of, escaped, prefixes_of, push_escaped, segments};
use crate::vocabulary::{
    declaration, dynamic_map, dynamic_table, kept_map, kept_table, Generator, Table,
    VocabularySource,
};
use vstd::prelude::*;

verus! {

/// What a [`StyleVocabulary`] holds.
pub struct VocabularyView {
    pub static_rules: Map<Seq<char>, Seq<char>>,
    pub dynamic_rules: Map<Seq<char>, Seq<char>>,
    pub generators: Seq<Generator>,
    pub breakpoints: Map<Seq<char>, Seq<char>>,
    pub container_breakpoints: Map<Seq<char>, Seq<char>>,
    pub state_selectors: Map<Seq<char>, Seq<char>>,
}

/// The tables that class tokens are resolved against. It does not change
/// once it is built.
#[derive(Debug)]
pub struct StyleVocabulary {
    static_rules: Table,
    dynamic_rules: Table,
    generators: Vec<Generator>,
    breakpoints: Table,
    container_breakpoints: Table,
    state_selectors: Table,
}

impl View for StyleVocabulary {
    type V = VocabularyView;

    closed spec fn view(&self) -> VocabularyView {
        VocabularyView {
            static_rules: self.static_rules@,
            dynamic_rules: self.dynamic_rules@,
            generators: self.generators@,
            breakpoints: self.breakpoints@,
            container_breakpoints: self.container_breakpoints@,
            state_selectors: self.state_selectors@,
        }
    }
}

/// The vocabulary that `source` describes: static rules, screens, states and
/// container queries without their entries that have an empty name or text,
/// the dynamic rules expanded, and the generators in their order.
pub open spec fn vocabulary_of(source: VocabularySource) -> VocabularyView {
    VocabularyView {
        static_rules: kept_map(source.styles@),
        dynamic_rules: dynamic_map(source.dynamics@),
        generators: source.generators@,
        breakpoints: kept_map(source.screens@),
        container_breakpoints: kept_map(source.container_queries@),
        state_selectors: kept_map(source.states@),
    }
}

/// Whether `base` is `g`'s prefix, a `-`, and then anything.
pub open spec fn generator_matches(g: Generator, base: Seq<char>) -> bool {
    let p = g.prefix@.len() as int;
    base.len() > p && base.subrange(0, p) == g.prefix@ && base[p] == '-'
}

/// What follows the prefix and its `-` in `base`.
pub open spec fn generator_rest(g: Generator, base: Seq<char>) -> Seq<char> {
    base.subrange(g.prefix@.len() as int + 1, base.len() as int)
}

/// The declaration that generator `g` makes of the class `base`, if it makes
/// one: `g` must match, and what follows must be empty (the number one), or
/// a number, each with an optional `-` before it. The value is that number
/// times the multiplier, negated for a `-`.
pub open spec fn generated(g: Generator, base: Seq<char>) -> Option<Seq<char>> {
    let rest = generator_rest(g, base);
    let digits = unsigned_part(rest);
    let negative = has_minus(rest) != g.multiplier.spec_negative();
    if !generator_matches(g, base) {
        None
    } else if digits.len() == 0 {
        Some(
            declaration(
                g.property@,
                decimal_text(
                    negative,
                    g.multiplier.spec_mantissa() as nat,
                    g.multiplier.spec_scale() as nat,
                ) + g.unit@,
            ),
        )
    } else if is_number(digits) {
        Some(
            declaration(
                g.property@,
                decimal_text(
                    negative,
                    number_mantissa(digits) * (g.multiplier.spec_mantissa() as nat),
                    number_scale(digits) + (g.multiplier.spec_scale() as nat),
                ) + g.unit@,
            ),
        )
    } else {
        None
    }
}

/// The declaration of the first of `generators` that makes one of `base`.
pub open spec fn first_generated(generators: Seq<Generator>, base: Seq<char>) -> Option<
    Seq<char>,
>
    decreases generators.len(),
{
    if generators.len() == 0 {
        None
    } else if generated(generators[0], base) is Some {
        generated(generators[0], base)
    } else {
        first_generated(generators.drop_first(), base)
    }
}

/// The declaration for the class `base`: its static rule, else its dynamic
/// rule, else what the first generator that applies makes of it.
pub open spec fn fragment_of(v: VocabularyView, base: Seq<char>) -> Option<Seq<char>> {
    if v.static_rules.contains_key(base) {
        Some(v.static_rules[base])
    } else if v.dynamic_rules.contains_key(base) {
        Some(v.dynamic_rules[base])
    } else {
        first_generated(v.generators, base)
    }
}

/// The heads of the blocks that the variant `prefixes` wrap a rule in, in the
/// order of the prefixes: a media query for a breakpoint, else a container
/// query for a container breakpoint. Other prefixes add none.
pub open spec fn wrapper_heads(v: VocabularyView, prefixes: Seq<Seq<char>>) -> Seq<Seq<char>>
    decreases prefixes.len(),
{
    if prefixes.len() == 0 {
        Seq::empty()
    } else {
        let rest = wrapper_heads(v, prefixes.drop_last());
        let p = prefixes.last();
        if v.breakpoints.contains_key(p) {
            rest.push("@media (min-width: "@ + v.breakpoints[p] + ")"@)
        } else if v.container_breakpoints.contains_key(p) {
            rest.push("@container (min-width: "@ + v.container_breakpoints[p] + ")"@)
        } else {
            rest
        }
    }
}

/// The pseudo-selectors of those of `prefixes` that name a state and neither
/// a breakpoint nor a container breakpoint, one after another.
pub open spec fn state_suffix(v: VocabularyView, prefixes: Seq<Seq<char>>) -> Seq<char>
    decreases prefixes.len(),
{
    if prefixes.len() == 0 {
        Seq::empty()
    } else {
        let rest = state_suffix(v, prefixes.drop_last());
        let p = prefixes.last();
        if !v.breakpoints.contains_key(p) && !v.container_breakpoints.contains_key(p)
            && v.state_selectors.contains_key(p) {
            rest + v.state_selectors[p]
        } else {
            rest
        }
    }
}

/// A block: `head { body }`.
pub open spec fn block(head: Seq<char>, body: Seq<char>) -> Seq<char> {
    head + " { "@ + body + " }"@
}

/// `inner` inside one block for each of `heads`, the first of them outermost.
pub open spec fn wrapped(heads: Seq<Seq<char>>, inner: Seq<char>) -> Seq<char>
    decreases heads.len(),
{
    if heads.len() == 0 {
        inner
    } else {
        wrapped(heads.drop_last(), block(heads.last(), inner))
    }
}

/// The selector of a token: a dot, the token with its colons escaped, and the
/// pseudo-selectors of its state prefixes.
pub open spec fn selector_of(v: VocabularyView, token: Seq<char>) -> Seq<char> {
    "."@ + escaped(token) + state_suffix(v, prefixes_of(token))
}

/// The CSS rule of a class token, or `None` where nothing in the vocabulary
/// gives its base class a declaration.
pub open spec fn rule_of(v: VocabularyView, token: Seq<char>) -> Option<Seq<char>> {
    match fragment_of(v, base_of(token)) {
        Some(fragment) => Some(
            wrapped(
                wrapper_heads(v, prefixes_of(token)),
                block(selector_of(v, token), fragment),
            ),
        ),
        None => None,
    }
}

/// The declaration that `g` makes of `base`, if it makes one.
pub fn apply_generator(g: &Generator, base: &str) -> (r: Option<String>)
    ensures
        r is Some <==> generated(*g, base@) is Some,
        r is Some ==> Some(r->0@) == generated(*g, base@),
{
    let n: usize = base.unicode_len();
    let p: usize = g.prefix.as_str().unicode_len();
    if n <= p {
        return None;
    }
    let head = String::from_str(base.substring_char(0, p));
    if !(head == g.prefix) || base.get_char(p) != '-' {
        return None;
    }
    let negative: bool = n > p + 1 && base.get_char(p + 1) == '-';
    let start: usize = if negative {
        p + 2
    } else {
        p + 1
    };
    let ghost rest = generator_rest(*g, base@);
    assert(has_minus(rest) == negative);
    assert(unsigned_part(rest) =~= base@.subrange(start as int, n as int));
    let number: Decimal = if start == n {
        Decimal::one()
    } else {
        match Decimal::parse_unsigned(base.substring_char(start, n)) {
            Some(d) => d,
            None => {
                return None;
            },
        }
    };
    let multiplier: Decimal = g.multiplier;
    proof {
        use_type_invariant(&number);
        use_type_invariant(&multiplier);
    }
    let a: u64 = number.mantissa();
    let b: u64 = multiplier.mantissa();
    assert(a * b < 1_000_000_000 * 1_000_000_000) by (nonlinear_arith)
        requires
            a < 1_000_000_000,
            b < 1_000_000_000,
    ;
    let mantissa: u64 = a * b;
    let scale: u8 = number.scale() + multiplier.scale();
    let mut out = g.property.clone();
    out.append(": ");
    push_decimal(&mut out, negative != multiplier.negative(), mantissa, scale);
    out.append(g.unit.as_str());
    assert(Some(out@) =~= generated(*g, base@));
    Some(out)
}

/// The declaration of the first of `generators` that makes one of `base`.
pub fn apply_generators(generators: &Vec<Generator>, base: &str) -> (r: Option<String>)
    ensures
        r is Some <==> first_generated(generators@, base@) is Some,
        r is Some ==> Some(r->0@) == first_generated(generators@, base@),
{
    let mut i: usize = 0;
    assert(generators@.subrange(0, generators.len() as int) =~= generators@);
    while i < generators.len()
        invariant
            i <= generators.len(),
            first_generated(generators@, base@) == first_generated(
                generators@.subrange(i as int, generators.len() as int),
                base@,
            ),
        decreases generators.len() - i,
    {
        let ghost here = generators@.subrange(i as int, generators.len() as int);
        assert(here[0] == generators@[i as int]);
        assert(here.drop_first() =~= generators@.subrange(i + 1, generators.len() as int));
        match apply_generator(&generators[i], base) {
            Some(css) => {
                return Some(css);
            },
            None => {},
        }
        i = i + 1;
    }
    None
}

/// Puts `body` into the blocks of `heads`, the first of them outermost.
fn wrap(heads: &Vec<String>, body: String) -> (r: String)
    ensures
        r@ == wrapped(Seq::new(heads@.len(), |k: int| heads@[k]@), body@),
{
    let ghost all = Seq::new(heads@.len(), |k: int| heads@[k]@);
    let mut text = body;
    let mut i: usize = heads.len();
    assert(all.subrange(0, i as int) =~= all);
    while i > 0
        invariant
            i <= heads.len(),
            all == Seq::new(heads@.len(), |k: int| heads@[k]@),
            wrapped(all, body@) == wrapped(all.subrange(0, i as int), text@),
        decreases i,
    {
        i = i - 1;
        let ghost upto = all.subrange(0, i + 1);
        assert(upto.drop_last() =~= all.subrange(0, i as int));
        assert(upto.last() == heads@[i as int]@);
        let mut outer = heads[i].clone();
        outer.append(" { ");
        outer.append(text.as_str());
        outer.append(" }");
        text = outer;
    }
    text
}

impl StyleVocabulary {
    /// Builds the vocabulary that `source` describes.
    pub fn new(source: VocabularySource) -> (r: StyleVocabulary)
        ensures
            r@ == vocabulary_of(source),
    {
        let static_rules = kept_table(&source.styles);
        let dynamic_rules = dynamic_table(&source.dynamics);
        let breakpoints = kept_table(&source.screens);
        let container_breakpoints = kept_table(&source.container_queries);
        let state_selectors = kept_table(&source.states);
        StyleVocabulary {
            static_rules,
            dynamic_rules,
            generators: source.generators,
            breakpoints,
            container_breakpoints,
            state_selectors,
        }
    }

    /// The declaration for the class `base`.
    pub fn fragment(&self, base: &String) -> (r: Option<String>)
        ensures
            r is Some <==> fragment_of(self@, base@) is Some,
            r is Some ==> Some(r->0@) == fragment_of(self@, base@),
    {
        match self.static_rules.get(base) {
            Some(css) => {
                return Some(css.clone());
            },
            None => {},
        }
        match self.dynamic_rules.get(base) {
            Some(css) => {
                return Some(css.clone());
            },
            None => {},
        }
        apply_generators(&self.generators, base.as_str())
    }

    /// The CSS rule of the class token `token`: the declaration of its base
    /// class under the token's selector, inside the blocks of its variant
    /// prefixes. `None` where the base class has no declaration.
    pub fn resolve(&self, token: &str) -> (r: Option<String>)
        ensures
            r is Some <==> rule_of(self@, token@) is Some,
            r is Some ==> Some(r->0@) == rule_of(self@, token@),
    {
        let n: usize = token.unicode_len();
        let mut heads: Vec<String> = Vec::new();
        let mut suffix = String::new();
        let mut start: usize = 0;
        let mut i: usize = 0;
        let ghost mut done: Seq<Seq<char>> = Seq::empty();
        assert(token@.subrange(0, 0) =~= Seq::<char>::empty());
        assert(segments(token@.subrange(0, 0)) =~= done.push(token@.subrange(0, 0)));
        while i < n
            invariant
                n == token@.len(),
                start <= i <= n,
                segments(token@.subrange(0, i as int)) == done.push(
                    token@.subrange(start as int, i as int),
                ),
                Seq::new(heads@.len(), |k: int| heads@[k]@) == wrapper_heads(self@, done),
                suffix@ == state_suffix(self@, done),
            decreases n - i,
        {
            let c: char = token.get_char(i);
            let ghost upto = token@.subrange(0, i + 1);
            let ghost current = token@.subrange(start as int, i as int);
            assert(upto.drop_last() =~= token@.subrange(0, i as int));
            assert(upto.last() == c);
            assert(done.push(current).drop_last() =~= done);
            if c == ':' {
                let prefix = String::from_str(token.substring_char(start, i));
                let ghost before = Seq::new(heads@.len(), |k: int| heads@[k]@);
                match self.breakpoints.get(&prefix) {
                    Some(width) => {
                        let mut head = String::from_str("@media (min-width: ");
                        head.append(width.as_str());
                        head.append(")");
                        heads.push(head);
                        assert(Seq::new(heads@.len(), |k: int| heads@[k]@) =~= before.push(
                            head@,
                        ));
                    },
                    None => {
                        match self.container_breakpoints.get(&prefix) {
                            Some(width) => {
                                let mut head = String::from_str("@container (min-width: ");
                                head.append(width.as_str());
                                head.append(")");
                                heads.push(head);
                                assert(Seq::new(heads@.len(), |k: int| heads@[k]@)
                                    =~= before.push(head@));
                            },
                            None => {
                                match self.state_selectors.get(&prefix) {
                                    Some(pseudo) => {
                                        suffix.append(pseudo.as_str());
                                    },
                                    None => {},
                                }
                            },
                        }
                    },
                }
                proof {
                    assert(done.push(current).drop_last() =~= done);
                    done = done.push(current);
                    assert(token@.subrange(i + 1, i + 1) =~= Seq::<char>::empty());
                }
                start = i + 1;
            } else {
                assert(current.push(c) =~= token@.subrange(start as int, i + 1));
                assert(done.push(current).drop_last().push(current.push(c)) =~= done.push(
                    token@.subrange(start as int, i + 1),
                ));
            }
            i = i + 1;
        }
        assert(token@.subrange(0, n as int) =~= token@);
        assert(done.push(token@.subrange(start as int, n as int)).drop_last() =~= done);
        let base = String::from_str(token.substring_char(start, n));
        let fragment = match self.fragment(&base) {
            Some(f) => f,
            None => {
                return None;
            },
        };
        let mut body = String::from_str(".");
        push_escaped(&mut body, token);
        body.append(suffix.as_str());
        body.append(" { ");
        body.append(fragment.as_str());
        body.append(" }");
        assert(body@ =~= block(selector_of(self@, token@), fragment@));
        Some(wrap(&heads, body))
    }
}

} // verus!
