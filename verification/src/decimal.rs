//! Exact decimal numbers: the scale factors of generators and the numeric
//! suffixes of class names, and how their product is written in CSS.

use vstd::prelude::*;

verus! {

/// One more than the largest mantissa a [`Decimal`] can hold.
pub const MANTISSA_LIMIT: u64 = 1_000_000_000;

/// The largest number of fraction digits a [`Decimal`] can hold.
pub const SCALE_LIMIT: u8 = 9;

/// Whether `c` is one of the ten decimal digits.
pub open spec fn is_digit(c: char) -> bool {
    '0' <= c && c <= '9'
}

/// The value of a decimal digit; zero for any other character.
pub open spec fn digit_value(c: char) -> nat {
    if is_digit(c) {
        (c as u32 - '0' as u32) as nat
    } else {
        0
    }
}

/// The character that writes the digit `d`.
pub open spec fn digit_char(d: nat) -> char {
    if d == 0 {
        '0'
    } else if d == 1 {
        '1'
    } else if d == 2 {
        '2'
    } else if d == 3 {
        '3'
    } else if d == 4 {
        '4'
    } else if d == 5 {
        '5'
    } else if d == 6 {
        '6'
    } else if d == 7 {
        '7'
    } else if d == 8 {
        '8'
    } else {
        '9'
    }
}

/// Whether every character of `s` is a decimal digit.
pub open spec fn all_digits(s: Seq<char>) -> bool {
    forall|i: int| 0 <= i < s.len() ==> is_digit(#[trigger] s[i])
}

/// The number that the digits of `s` write in base ten.
pub open spec fn digits_value(s: Seq<char>) -> nat
    decreases s.len(),
{
    if s.len() == 0 {
        0
    } else {
        digits_value(s.drop_last()) * 10 + digit_value(s.last())
    }
}

/// The position of the first `.` in `s`, or the length of `s` if it has none.
pub open spec fn point_position(s: Seq<char>) -> int
    decreases s.len(),
{
    if s.len() == 0 || s[0] == '.' {
        0
    } else {
        1 + point_position(s.drop_first())
    }
}

/// The digits of `s` before its first `.`.
pub open spec fn integer_part(s: Seq<char>) -> Seq<char> {
    s.subrange(0, point_position(s))
}

/// The digits of `s` after its first `.`; empty if it has none.
pub open spec fn fraction_part(s: Seq<char>) -> Seq<char> {
    if point_position(s) < s.len() {
        s.subrange(point_position(s) + 1, s.len() as int)
    } else {
        Seq::empty()
    }
}

/// Whether `s` writes an unsigned number that a [`Decimal`] can hold: digits,
/// at most one `.` among them, at least one digit, no more than nine digits
/// after the point, and a value below one thousand million once the point is
/// taken out.
pub open spec fn is_number(s: Seq<char>) -> bool {
    &&& all_digits(integer_part(s))
    &&& all_digits(fraction_part(s))
    &&& integer_part(s).len() + fraction_part(s).len() > 0
    &&& fraction_part(s).len() <= SCALE_LIMIT
    &&& digits_value(integer_part(s) + fraction_part(s)) < MANTISSA_LIMIT
}

/// Whether `s` begins with a `-`.
pub open spec fn has_minus(s: Seq<char>) -> bool {
    s.len() > 0 && s[0] == '-'
}

/// `s` without the `-` it begins with, if it begins with one.
pub open spec fn unsigned_part(s: Seq<char>) -> Seq<char> {
    if has_minus(s) {
        s.subrange(1, s.len() as int)
    } else {
        s
    }
}

/// The mantissa of the number that `s` writes: its digits read as one integer.
pub open spec fn number_mantissa(s: Seq<char>) -> nat {
    digits_value(integer_part(s) + fraction_part(s))
}

/// The scale of the number that `s` writes: how many digits follow the point.
pub open spec fn number_scale(s: Seq<char>) -> nat {
    fraction_part(s).len()
}

/// The digits of `n` in base ten, without leading zeros.
pub open spec fn nat_digits(n: nat) -> Seq<char>
    decreases n,
{
    if n < 10 {
        seq![digit_char(n)]
    } else {
        nat_digits(n / 10).push(digit_char(n % 10))
    }
}

/// `mantissa / 10^scale` with the zeros at the end of its fraction removed,
/// as a mantissa and a scale again.
pub open spec fn trimmed(mantissa: nat, scale: nat) -> (nat, nat)
    decreases scale,
{
    if scale > 0 && mantissa % 10 == 0 {
        trimmed(mantissa / 10, (scale - 1) as nat)
    } else {
        (mantissa, scale)
    }
}

/// The digits of `mantissa / 10^scale`, with a point before the last `scale`
/// of them where `scale` is positive.
pub open spec fn point_digits(mantissa: nat, scale: nat) -> Seq<char>
    decreases scale,
{
    if scale == 0 {
        nat_digits(mantissa)
    } else if scale == 1 {
        nat_digits(mantissa / 10).push('.').push(digit_char(mantissa % 10))
    } else {
        point_digits(mantissa / 10, (scale - 1) as nat).push(digit_char(mantissa % 10))
    }
}

/// How the number `mantissa / 10^scale`, negated if `negative`, is written:
/// a `-` only before a number other than zero, no zeros at the end of the
/// fraction, and no point where no fraction is left.
pub open spec fn decimal_text(negative: bool, mantissa: nat, scale: nat) -> Seq<char> {
    let t = trimmed(mantissa, scale);
    if negative && mantissa != 0 {
        seq!['-'] + point_digits(t.0, t.1)
    } else {
        point_digits(t.0, t.1)
    }
}

/// Ten to the power `k`.
pub open spec fn pow10(k: nat) -> nat
    decreases k,
{
    if k == 0 {
        1
    } else {
        10 * pow10((k - 1) as nat)
    }
}

/// Before `point_position` no `.` stands, and at it one does, unless it is
/// the end.
proof fn lemma_first_point(s: Seq<char>)
    ensures
        0 <= point_position(s) <= s.len(),
        forall|j: int| 0 <= j < point_position(s) ==> s[j] != '.',
        point_position(s) < s.len() ==> s[point_position(s)] == '.',
    decreases s.len(),
{
    if s.len() > 0 && s[0] != '.' {
        let t = s.drop_first();
        lemma_first_point(t);
        assert forall|j: int| 0 <= j < point_position(s) implies s[j] != '.' by {
            if j > 0 {
                assert(s[j] == t[j - 1]);
            }
        }
    }
}

/// The digits of a number are digits, and read back they give the number.
pub proof fn lemma_nat_digits(n: nat)
    ensures
        nat_digits(n).len() >= 1,
        all_digits(nat_digits(n)),
        digits_value(nat_digits(n)) == n,
    decreases n,
{
    let d = digit_char(n % 10);
    assert(is_digit(d) && digit_value(d) == n % 10);
    assert(nat_digits(n).last() == d);
    if n < 10 {
        assert(nat_digits(n).drop_last() =~= Seq::<char>::empty());
        assert(digits_value(Seq::<char>::empty()) == 0);
    } else {
        lemma_nat_digits(n / 10);
        assert(nat_digits(n).drop_last() =~= nat_digits(n / 10));
    }
}

/// What [`point_digits`] writes reads back as the same number: its digits
/// are digits, `scale` of them stand after the point, and read as one
/// integer they give `mantissa`.
pub proof fn lemma_point_digits(mantissa: nat, scale: nat)
    ensures
        all_digits(integer_part(point_digits(mantissa, scale))),
        all_digits(fraction_part(point_digits(mantissa, scale))),
        integer_part(point_digits(mantissa, scale)).len() >= 1,
        number_scale(point_digits(mantissa, scale)) == scale,
        number_mantissa(point_digits(mantissa, scale)) == mantissa,
    decreases scale,
{
    let t = point_digits(mantissa, scale);
    let d = digit_char(mantissa % 10);
    assert(is_digit(d) && digit_value(d) == mantissa % 10);
    if scale == 0 {
        lemma_nat_digits(mantissa);
        assert forall|j: int| 0 <= j < t.len() implies t[j] != '.' by {
            assert(is_digit(t[j]));
        }
        lemma_point_position(t, t.len() as int);
        assert(integer_part(t) =~= t);
        assert(integer_part(t) + fraction_part(t) =~= t);
    } else if scale == 1 {
        let whole = nat_digits(mantissa / 10);
        lemma_nat_digits(mantissa / 10);
        assert forall|j: int| 0 <= j < whole.len() implies t[j] != '.' by {
            assert(is_digit(whole[j]));
        }
        lemma_point_position(t, whole.len() as int);
        assert(integer_part(t) =~= whole);
        assert(fraction_part(t) =~= seq![d]);
        assert((integer_part(t) + fraction_part(t)).drop_last() =~= whole);
    } else {
        let inner = point_digits(mantissa / 10, (scale - 1) as nat);
        lemma_point_digits(mantissa / 10, (scale - 1) as nat);
        lemma_first_point(inner);
        let p = point_position(inner);
        assert(p < inner.len()) by {
            if p >= inner.len() {
                assert(fraction_part(inner).len() == 0);
            }
        }
        assert forall|j: int| 0 <= j < p implies t[j] != '.' by {
            assert(t[j] == inner[j]);
        }
        lemma_point_position(t, p);
        assert(integer_part(t) =~= integer_part(inner));
        assert(fraction_part(t) =~= fraction_part(inner).push(d));
        assert((integer_part(t) + fraction_part(t)).drop_last() =~= integer_part(inner)
            + fraction_part(inner));
        assert forall|j: int| 0 <= j < fraction_part(t).len() implies is_digit(
            #[trigger] fraction_part(t)[j],
        ) by {
            if j < fraction_part(inner).len() {
                assert(fraction_part(t)[j] == fraction_part(inner)[j]);
            }
        }
    }
}

/// Trimming keeps the number: the trimmed mantissa, scaled up by the places
/// that were cut, is the mantissa; and nothing is left to trim.
pub proof fn lemma_trimmed(mantissa: nat, scale: nat)
    ensures
        trimmed(mantissa, scale).1 <= scale,
        trimmed(mantissa, scale).0 * pow10((scale - trimmed(mantissa, scale).1) as nat)
            == mantissa,
        trimmed(mantissa, scale).1 == 0 || trimmed(mantissa, scale).0 % 10 != 0,
    decreases scale,
{
    if scale > 0 && mantissa % 10 == 0 {
        let t = trimmed(mantissa / 10, (scale - 1) as nat);
        lemma_trimmed(mantissa / 10, (scale - 1) as nat);
        let k = (scale - 1 - t.1) as nat;
        let p = pow10(k);
        let q = pow10((scale - t.1) as nat);
        assert(trimmed(mantissa, scale) == t);
        assert(q == 10 * p);
        assert(t.0 * p == mantissa / 10);
        assert(t.0 * q == mantissa) by (nonlinear_arith)
            requires
                q == 10 * p,
                t.0 * p == mantissa / 10,
                mantissa % 10 == 0,
        ;
    } else {
        let q = pow10((scale - scale) as nat);
        assert(trimmed(mantissa, scale) == (mantissa, scale));
        assert(q == 1);
        assert(mantissa * q == mantissa) by (nonlinear_arith)
            requires
                q == 1,
        ;
    }
}

/// The text of a number reads back as that number: without its sign it is a
/// sequence of digits with `number_scale` of them after the point, and these
/// digits, scaled up by the places that trimming cut, give the mantissa.
pub proof fn lemma_decimal_text(negative: bool, mantissa: nat, scale: nat)
    ensures
        has_minus(decimal_text(negative, mantissa, scale)) == (negative && mantissa != 0),
        all_digits(integer_part(unsigned_part(decimal_text(negative, mantissa, scale)))),
        all_digits(fraction_part(unsigned_part(decimal_text(negative, mantissa, scale)))),
        number_scale(unsigned_part(decimal_text(negative, mantissa, scale))) <= scale,
        number_mantissa(unsigned_part(decimal_text(negative, mantissa, scale))) * pow10(
            (scale - number_scale(unsigned_part(decimal_text(negative, mantissa, scale)))) as nat,
        ) == mantissa,
{
    let t = trimmed(mantissa, scale);
    let body = point_digits(t.0, t.1);
    let text = decimal_text(negative, mantissa, scale);
    lemma_trimmed(mantissa, scale);
    lemma_point_digits(t.0, t.1);
    lemma_first_point(body);
    assert(body.len() >= 1 && body[0] != '-') by {
        assert(integer_part(body)[0] == body[0]);
        assert(is_digit(integer_part(body)[0]));
    }
    if negative && mantissa != 0 {
        assert(text[0] == '-');
        assert(unsigned_part(text) =~= body);
    } else {
        assert(unsigned_part(text) =~= body);
    }
}

/// A decimal number `mantissa / 10^scale`, negated if `negative`.
#[derive(Clone, Copy, Debug)]
pub struct Decimal {
    negative: bool,
    mantissa: u64,
    scale: u8,
}

impl Decimal {
    /// The bounds that every value of this type keeps.
    #[verifier::type_invariant]
    pub open spec fn wf(&self) -> bool {
        self.spec_mantissa() < MANTISSA_LIMIT && self.spec_scale() <= SCALE_LIMIT
    }

    /// Whether the number is negated.
    pub closed spec fn spec_negative(&self) -> bool {
        self.negative
    }

    /// The digits of the number, read as one integer.
    pub closed spec fn spec_mantissa(&self) -> u64 {
        self.mantissa
    }

    /// How many of the digits stand after the point.
    pub closed spec fn spec_scale(&self) -> u8 {
        self.scale
    }

    /// The number `mantissa / 10^scale`, negated if `negative`; `None` where the
    /// mantissa or the scale is over its limit.
    pub fn new(negative: bool, mantissa: u64, scale: u8) -> (r: Option<Decimal>)
        ensures
            r is Some <==> mantissa < MANTISSA_LIMIT && scale <= SCALE_LIMIT,
            r is Some ==> r->0.wf() && r->0.spec_negative() == negative && r->0.spec_mantissa()
                == mantissa && r->0.spec_scale() == scale,
    {
        if mantissa < MANTISSA_LIMIT && scale <= SCALE_LIMIT {
            Some(Decimal { negative, mantissa, scale })
        } else {
            None
        }
    }

    /// Reads an unsigned number: digits with at most one `.` among them.
    pub fn parse_unsigned(text: &str) -> (r: Option<Decimal>)
        ensures
            r is Some <==> is_number(text@),
            r is Some ==> r->0.wf() && !r->0.spec_negative() && r->0.spec_mantissa()
                == number_mantissa(text@) && r->0.spec_scale() == number_scale(text@),
    {
        let n: usize = text.unicode_len();
        let p: usize = find_point(text);
        let whole: u64 = match read_digits(text, 0, p, 0, Ghost(Seq::empty())) {
            Some(v) => v,
            None => {
                return None;
            },
        };
        assert(Seq::<char>::empty() + integer_part(text@) =~= integer_part(text@));
        if p == n {
            assert(integer_part(text@) + fraction_part(text@) =~= integer_part(text@));
            if p > 0 && whole < MANTISSA_LIMIT {
                return Some(Decimal { negative: false, mantissa: whole, scale: 0 });
            }
            return None;
        }
        let all: u64 = match read_digits(text, p + 1, n, whole, Ghost(integer_part(text@))) {
            Some(v) => v,
            None => {
                return None;
            },
        };
        let places: usize = n - p - 1;
        if n > 1 && places <= SCALE_LIMIT as usize && all < MANTISSA_LIMIT {
            Some(Decimal { negative: false, mantissa: all, scale: places as u8 })
        } else {
            None
        }
    }

    /// Reads a number with an optional `-` before it.
    pub fn parse(text: &str) -> (r: Option<Decimal>)
        ensures
            r is Some <==> is_number(unsigned_part(text@)),
            r is Some ==> r->0.wf() && r->0.spec_negative() == has_minus(text@)
                && r->0.spec_mantissa() == number_mantissa(unsigned_part(text@))
                && r->0.spec_scale() == number_scale(unsigned_part(text@)),
    {
        let n: usize = text.unicode_len();
        let negative: bool = n > 0 && text.get_char(0) == '-';
        let start: usize = if negative {
            1
        } else {
            0
        };
        assert(text@.subrange(0, n as int) =~= text@);
        match Decimal::parse_unsigned(text.substring_char(start, n)) {
            Some(d) => Some(Decimal { negative, mantissa: d.mantissa, scale: d.scale }),
            None => None,
        }
    }

    /// The number one.
    pub fn one() -> (r: Decimal)
        ensures
            r.wf(),
            !r.spec_negative(),
            r.spec_mantissa() == 1,
            r.spec_scale() == 0,
    {
        Decimal { negative: false, mantissa: 1, scale: 0 }
    }

    /// Whether the number is negated.
    #[verifier::when_used_as_spec(spec_negative)]
    pub fn negative(&self) -> (r: bool)
        ensures
            r == self.spec_negative(),
    {
        self.negative
    }

    /// The digits of the number, read as one integer.
    #[verifier::when_used_as_spec(spec_mantissa)]
    pub fn mantissa(&self) -> (r: u64)
        ensures
            r == self.spec_mantissa(),
    {
        self.mantissa
    }

    /// How many of the digits stand after the point.
    #[verifier::when_used_as_spec(spec_scale)]
    pub fn scale(&self) -> (r: u8)
        ensures
            r == self.spec_scale(),
    {
        self.scale
    }
}

/// `point_position` is the first place that holds a `.`.
proof fn lemma_point_position(s: Seq<char>, p: int)
    requires
        0 <= p <= s.len(),
        forall|j: int| 0 <= j < p ==> s[j] != '.',
        p == s.len() || s[p] == '.',
    ensures
        point_position(s) == p,
    decreases p,
{
    if p > 0 {
        let t = s.drop_first();
        assert forall|j: int| 0 <= j < p - 1 implies t[j] != '.' by {
            assert(t[j] == s[j + 1]);
        }
        lemma_point_position(t, p - 1);
    }
}

/// The position of the first `.` in `text`, or its length.
fn find_point(text: &str) -> (p: usize)
    ensures
        p == point_position(text@),
        p <= text@.len(),
{
    let n: usize = text.unicode_len();
    let mut i: usize = 0;
    while i < n && text.get_char(i) != '.'
        invariant
            n == text@.len(),
            i <= n,
            forall|j: int| 0 <= j < i ==> text@[j] != '.',
        decreases n - i,
    {
        i = i + 1;
    }
    proof {
        lemma_point_position(text@, i as int);
    }
    i
}

/// `v`, or the mantissa limit where `v` is not below it.
spec fn capped(v: nat) -> nat {
    if v < MANTISSA_LIMIT {
        v
    } else {
        MANTISSA_LIMIT as nat
    }
}

/// Reads the characters of `text` from `from` up to `to` as further digits
/// of a number whose digits so far are `done`; `None` if one is no digit.
fn read_digits(text: &str, from: usize, to: usize, start: u64, Ghost(done): Ghost<Seq<char>>) -> (r:
    Option<u64>)
    requires
        from <= to <= text@.len(),
        start == capped(digits_value(done)),
    ensures
        r is Some <==> all_digits(text@.subrange(from as int, to as int)),
        r is Some ==> r->0 == capped(
            digits_value(done + text@.subrange(from as int, to as int)),
        ),
{
    let mut acc: u64 = start;
    let mut i: usize = from;
    assert(done + text@.subrange(from as int, from as int) =~= done);
    while i < to
        invariant
            from <= i <= to <= text@.len(),
            all_digits(text@.subrange(from as int, i as int)),
            acc == capped(digits_value(done + text@.subrange(from as int, i as int))),
        decreases to - i,
    {
        let c: char = text.get_char(i);
        let ghost before = done + text@.subrange(from as int, i as int);
        let ghost after = done + text@.subrange(from as int, i + 1);
        assert(after.drop_last() =~= before);
        assert(after.last() == c);
        if !(c >= '0' && c <= '9') {
            assert(text@.subrange(from as int, to as int)[i - from] == c);
            return None;
        }
        let d: u64 = (c as u32 - 48) as u64;
        assert(d == digit_value(c));
        if acc < MANTISSA_LIMIT {
            let next: u64 = acc * 10 + d;
            acc = if next < MANTISSA_LIMIT {
                next
            } else {
                MANTISSA_LIMIT
            };
        }
        assert forall|j: int| 0 <= j < i + 1 - from implies is_digit(
            #[trigger] text@.subrange(from as int, i + 1)[j],
        ) by {
            if j < i - from {
                assert(text@.subrange(from as int, i as int)[j] == text@.subrange(
                    from as int,
                    i + 1,
                )[j]);
            }
        }
        i = i + 1;
    }
    Some(acc)
}

/// The text of one decimal digit.
fn digit_str(d: u64) -> (r: &'static str)
    requires
        d < 10,
    ensures
        r@ == seq![digit_char(d as nat)],
{
    proof {
        reveal_strlit("0");
        reveal_strlit("1");
        reveal_strlit("2");
        reveal_strlit("3");
        reveal_strlit("4");
        reveal_strlit("5");
        reveal_strlit("6");
        reveal_strlit("7");
        reveal_strlit("8");
        reveal_strlit("9");
    }
    let r = if d == 0 {
        "0"
    } else if d == 1 {
        "1"
    } else if d == 2 {
        "2"
    } else if d == 3 {
        "3"
    } else if d == 4 {
        "4"
    } else if d == 5 {
        "5"
    } else if d == 6 {
        "6"
    } else if d == 7 {
        "7"
    } else if d == 8 {
        "8"
    } else {
        "9"
    };
    assert(r@ =~= seq![digit_char(d as nat)]);
    r
}

/// Appends the digits of `n` to `out`.
fn push_nat(out: &mut String, n: u64)
    ensures
        final(out)@ == old(out)@ + nat_digits(n as nat),
    decreases n,
{
    if n >= 10 {
        push_nat(out, n / 10);
    }
    out.append(digit_str(n % 10));
    assert(final(out)@ =~= old(out)@ + nat_digits(n as nat));
}

/// Appends the digits of `mantissa / 10^scale` to `out`.
fn push_point_digits(out: &mut String, mantissa: u64, scale: u8)
    ensures
        final(out)@ == old(out)@ + point_digits(mantissa as nat, scale as nat),
    decreases scale,
{
    if scale == 0 {
        push_nat(out, mantissa);
    } else if scale == 1 {
        push_nat(out, mantissa / 10);
        proof {
            reveal_strlit(".");
        }
        out.append(".");
        out.append(digit_str(mantissa % 10));
    } else {
        push_point_digits(out, mantissa / 10, scale - 1);
        out.append(digit_str(mantissa % 10));
    }
    assert(final(out)@ =~= old(out)@ + point_digits(mantissa as nat, scale as nat));
}

/// Appends to `out` the number `mantissa / 10^scale`, negated if `negative`,
/// as [`decimal_text`] writes it.
pub fn push_decimal(out: &mut String, negative: bool, mantissa: u64, scale: u8)
    ensures
        final(out)@ == old(out)@ + decimal_text(negative, mantissa as nat, scale as nat),
{
    let mut m: u64 = mantissa;
    let mut s: u8 = scale;
    while s > 0 && m % 10 == 0
        invariant
            trimmed(m as nat, s as nat) == trimmed(mantissa as nat, scale as nat),
        decreases s,
    {
        m = m / 10;
        s = s - 1;
    }
    if negative && mantissa != 0 {
        proof {
            reveal_strlit("-");
        }
        out.append("-");
    }
    push_point_digits(out, m, s);
    assert(final(out)@ =~= old(out)@ + decimal_text(negative, mantissa as nat, scale as nat));
}

} // verus!
