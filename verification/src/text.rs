//! Class tokens as text: their segments and their escaped form.

use vstd::prelude::*;

verus! {

/// The parts of `s` between its colons, in order. A text without a colon is
/// its own single segment; a colon at either end leaves an empty segment
/// there.
pub open spec fn segments(s: Seq<char>) -> Seq<Seq<char>>
    decreases s.len(),
{
    if s.len() == 0 {
        seq![Seq::empty()]
    } else {
        let rest = segments(s.drop_last());
        if s.last() == ':' {
            rest.push(Seq::empty())
        } else {
            rest.drop_last().push(rest.last().push(s.last()))
        }
    }
}

/// The last segment of a token: the class that the vocabulary resolves.
pub open spec fn base_of(token: Seq<char>) -> Seq<char> {
    segments(token).last()
}

/// The segments of a token before its last: its variant prefixes, in order.
pub open spec fn prefixes_of(token: Seq<char>) -> Seq<Seq<char>> {
    segments(token).drop_last()
}

/// `s` with a backslash put before each colon.
pub open spec fn escaped(s: Seq<char>) -> Seq<char>
    decreases s.len(),
{
    if s.len() == 0 {
        Seq::empty()
    } else if s.last() == ':' {
        escaped(s.drop_last()).push('\\').push(':')
    } else {
        escaped(s.drop_last()).push(s.last())
    }
}

/// `parts` one after another with a colon between two of them.
pub open spec fn colon_joined(parts: Seq<Seq<char>>) -> Seq<char>
    decreases parts.len(),
{
    if parts.len() == 0 {
        Seq::empty()
    } else if parts.len() == 1 {
        parts[0]
    } else {
        colon_joined(parts.drop_last()) + seq![':'] + parts.last()
    }
}

/// The segments of a text are what splitting at its colons leaves: there is
/// at least one, none holds a colon, and put together again with colons
/// between them they give the text.
pub proof fn lemma_segments(s: Seq<char>)
    ensures
        segments(s).len() >= 1,
        forall|i: int, j: int|
            0 <= i < segments(s).len() && 0 <= j < segments(s)[i].len() ==> segments(s)[i][j]
                != ':',
        colon_joined(segments(s)) == s,
    decreases s.len(),
{
    if s.len() == 0 {
        assert(colon_joined(segments(s)) =~= s);
    } else {
        let t = s.drop_last();
        let c = s.last();
        let rest = segments(t);
        lemma_segments(t);
        assert(s =~= t.push(c));
        if c == ':' {
            let now = rest.push(Seq::empty());
            assert(now.drop_last() =~= rest);
            assert(colon_joined(now) =~= s);
        } else {
            let now = rest.drop_last().push(rest.last().push(c));
            assert(now.drop_last() =~= rest.drop_last());
            if rest.len() == 1 {
                assert(colon_joined(now) =~= s);
            } else {
                assert(colon_joined(now) =~= colon_joined(rest).push(c));
            }
            assert forall|i: int, j: int|
                0 <= i < now.len() && 0 <= j < now[i].len() implies now[i][j] != ':' by {
                if i < now.len() - 1 {
                    assert(now[i] == rest[i]);
                } else if j < rest.last().len() {
                    assert(now[i][j] == rest.last()[j]);
                }
            }
        }
    }
}

/// Escaping leaves a stretch without colons as it is.
proof fn lemma_escaped_plain(a: Seq<char>, b: Seq<char>)
    requires
        forall|j: int| 0 <= j < b.len() ==> b[j] != ':',
    ensures
        escaped(a + b) == escaped(a) + b,
    decreases b.len(),
{
    if b.len() == 0 {
        assert(a + b =~= a);
        assert(escaped(a) + b =~= escaped(a));
    } else {
        let b0 = b.drop_last();
        lemma_escaped_plain(a, b0);
        assert((a + b).drop_last() =~= a + b0);
        assert((a + b).last() == b.last());
        assert(escaped(a + b0).push(b.last()) =~= escaped(a) + b);
    }
}

/// `text` with a backslash put before each colon, appended to `out`.
pub fn push_escaped(out: &mut String, text: &str)
    ensures
        final(out)@ == old(out)@ + escaped(text@),
{
    let n: usize = text.unicode_len();
    let mut start: usize = 0;
    let mut i: usize = 0;
    assert(text@.subrange(0, 0) =~= Seq::<char>::empty());
    assert(old(out)@ + escaped(Seq::<char>::empty()) =~= old(out)@);
    while i < n
        invariant
            n == text@.len(),
            start <= i <= n,
            out@ == old(out)@ + escaped(text@.subrange(0, start as int)),
            forall|j: int| start <= j < i ==> text@[j] != ':',
        decreases n - i,
    {
        if text.get_char(i) == ':' {
            let ghost a = text@.subrange(0, start as int);
            let ghost b = text@.subrange(start as int, i as int);
            let ghost upto = text@.subrange(0, i + 1);
            proof {
                lemma_escaped_plain(a, b);
                assert(a + b =~= text@.subrange(0, i as int));
                assert(upto.drop_last() =~= text@.subrange(0, i as int));
                assert(upto.last() == ':');
                reveal_strlit("\\:");
            }
            out.append(text.substring_char(start, i));
            out.append("\\:");
            assert(out@ =~= old(out)@ + escaped(upto));
            start = i + 1;
        }
        i = i + 1;
    }
    proof {
        let a = text@.subrange(0, start as int);
        let b = text@.subrange(start as int, n as int);
        lemma_escaped_plain(a, b);
        assert(a + b =~= text@);
    }
    out.append(text.substring_char(start, n));
    assert(out@ =~= old(out)@ + escaped(text@));
}

} // verus!
