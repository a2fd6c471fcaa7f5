//! What the escaping of text for XML keeps and what it rules out.

use crate::digest::{escaped, escaped_char};
use vstd::prelude::*;

verus! {

/// The character has a meaning of its own in XML.
pub open spec fn is_special(c: char) -> bool {
    c == '&' || c == '"' || c == '\'' || c == '<' || c == '>'
}

/// One of the five predefined entities stands at place `i` of a text.
pub open spec fn entity_at(t: Seq<char>, i: int) -> bool {
    ||| starts_at(t, i, "&amp;"@)
    ||| starts_at(t, i, "&quot;"@)
    ||| starts_at(t, i, "&apos;"@)
    ||| starts_at(t, i, "&lt;"@)
    ||| starts_at(t, i, "&gt;"@)
}

/// The word stands at place `i` of a text.
pub open spec fn starts_at(t: Seq<char>, i: int, word: Seq<char>) -> bool {
    0 <= i && i + word.len() <= t.len() && t.subrange(i, i + word.len()) == word
}

/// What the escaped form of a character is made of.
proof fn lemma_char(c: char)
    ensures
        escaped_char(c).len() > 0,
        !is_special(c) ==> escaped_char(c) == seq![c],
        is_special(c) ==> {
            &&& escaped_char(c).len() >= 4
            &&& escaped_char(c)[0] == '&'
            &&& entity_at(escaped_char(c), 0)
        },
        c == '&' ==> escaped_char(c)[1] == 'a' && escaped_char(c)[2] == 'm',
        c == '"' ==> escaped_char(c)[1] == 'q',
        c == '\'' ==> escaped_char(c)[1] == 'a' && escaped_char(c)[2] == 'p',
        c == '<' ==> escaped_char(c)[1] == 'l',
        c == '>' ==> escaped_char(c)[1] == 'g',
        forall|i: int|
            0 <= i < escaped_char(c).len() ==> (is_special(#[trigger] escaped_char(c)[i]) ==> i == 0
                && escaped_char(c)[i] == '&'),
{
    reveal_strlit("&amp;");
    reveal_strlit("&quot;");
    reveal_strlit("&apos;");
    reveal_strlit("&lt;");
    reveal_strlit("&gt;");
    if is_special(c) {
        let t = escaped_char(c);
        assert(t.subrange(0, t.len() as int) =~= t);
    }
}

proof fn lemma_same_prefix(a: Seq<char>, b: Seq<char>, n: nat)
    requires
        n <= a.len(),
        n <= b.len(),
        forall|k: int| 0 <= k < n ==> #[trigger] a[k] == b[k],
    ensures
        escaped(a, n) == escaped(b, n),
    decreases n,
{
    if n > 0 {
        lemma_same_prefix(a, b, (n - 1) as nat);
        assert(a[n - 1] == b[n - 1]);
    }
}

/// The escaped form of a text is that of its first part followed by that of the
/// rest.
pub proof fn law_escaping_goes_part_by_part(a: Seq<char>, b: Seq<char>)
    ensures
        escaped(a + b, (a + b).len()) == escaped(a, a.len()) + escaped(b, b.len()),
    decreases b.len(),
{
    if b.len() == 0 {
        assert(a + b =~= a);
        assert(escaped(a, a.len()) + escaped(b, b.len()) =~= escaped(a, a.len()));
    } else {
        let rest = b.drop_last();
        law_escaping_goes_part_by_part(a, rest);
        lemma_same_prefix(a + b, a + rest, (a + rest).len());
        lemma_same_prefix(b, rest, rest.len());
        assert(escaped(a, a.len()) + escaped(b, b.len()) =~= escaped(a, a.len()) + escaped(
            rest,
            rest.len(),
        ) + escaped_char(b.last()));
    }
}

/// A text without special characters is its own escaped form.
pub proof fn law_plain_text_stays(s: Seq<char>)
    requires
        forall|i: int| 0 <= i < s.len() ==> !is_special(#[trigger] s[i]),
    ensures
        escaped(s, s.len()) == s,
    decreases s.len(),
{
    if s.len() > 0 {
        let rest = s.drop_last();
        assert forall|i: int| 0 <= i < rest.len() implies !is_special(#[trigger] rest[i]) by {
            assert(rest[i] == s[i]);
        }
        law_plain_text_stays(rest);
        lemma_same_prefix(s, rest, rest.len());
        lemma_char(s.last());
        assert(rest + seq![s.last()] =~= s);
    } else {
        assert(escaped(s, 0) =~= s);
    }
}

/// No escaped text holds a character that is special in XML, but for the
/// ampersands that open one of the five entities.
pub proof fn law_escaped_text_has_entities_only(s: Seq<char>, i: int)
    requires
        0 <= i < escaped(s, s.len()).len(),
        is_special(escaped(s, s.len())[i]),
    ensures
        escaped(s, s.len())[i] == '&',
        entity_at(escaped(s, s.len()), i),
    decreases s.len(),
{
    let rest = s.drop_last();
    let (t, end) = (escaped(rest, rest.len()), escaped_char(s.last()));
    lemma_same_prefix(s, rest, rest.len());
    assert(escaped(s, s.len()) == t + end);
    if i < t.len() {
        law_escaped_text_has_entities_only(rest, i);
        lemma_entity_stays(Seq::empty(), t, end, i);
        assert(Seq::<char>::empty() + t + end =~= t + end);
    } else {
        lemma_char(s.last());
        assert((t + end)[i] == end[i - t.len()]);
        lemma_entity_stays(t, end, Seq::empty(), 0);
        assert(t + end + Seq::<char>::empty() =~= t + end);
    }
}

/// An entity stays one between other texts.
proof fn lemma_entity_stays(before: Seq<char>, t: Seq<char>, after: Seq<char>, i: int)
    requires
        entity_at(t, i),
    ensures
        entity_at(before + t + after, before.len() + i),
{
    lemma_start_stays(before, t, after, i, "&amp;"@);
    lemma_start_stays(before, t, after, i, "&quot;"@);
    lemma_start_stays(before, t, after, i, "&apos;"@);
    lemma_start_stays(before, t, after, i, "&lt;"@);
    lemma_start_stays(before, t, after, i, "&gt;"@);
}

proof fn lemma_start_stays(
    before: Seq<char>,
    t: Seq<char>,
    after: Seq<char>,
    i: int,
    word: Seq<char>,
)
    ensures
        starts_at(t, i, word) ==> starts_at(before + t + after, before.len() + i, word),
{
    if starts_at(t, i, word) {
        let at = before.len() + i;
        assert((before + t + after).subrange(at, at + word.len()) =~= t.subrange(
            i,
            i + word.len(),
        ));
    }
}

/// Two texts with the same escaped form are the same.
pub proof fn law_escaping_loses_nothing(a: Seq<char>, b: Seq<char>)
    requires
        escaped(a, a.len()) == escaped(b, b.len()),
    ensures
        a == b,
    decreases a.len(),
{
    if a.len() == 0 {
        if b.len() > 0 {
            lemma_char(b.last());
        }
        assert(a =~= b);
    } else if b.len() == 0 {
        lemma_char(a.last());
    } else {
        let (c, d) = (a[0], b[0]);
        let (x, y) = (a.skip(1), b.skip(1));
        assert(a =~= seq![c] + x);
        assert(b =~= seq![d] + y);
        law_escaping_goes_part_by_part(seq![c], x);
        law_escaping_goes_part_by_part(seq![d], y);
        lemma_first(c);
        lemma_first(d);
        lemma_char(c);
        lemma_char(d);
        let (u, v) = (escaped(x, x.len()), escaped(y, y.len()));
        let (f, g) = (escaped_char(c), escaped_char(d));
        assert(f + u == g + v);
        assert((f + u)[0] == f[0]);
        assert((g + v)[0] == g[0]);
        if is_special(c) && is_special(d) {
            assert((f + u)[1] == f[1]);
            assert((g + v)[1] == g[1]);
            assert((f + u)[2] == f[2]);
            assert((g + v)[2] == g[2]);
        }
        assert(c == d);
        assert(u =~= (f + u).skip(f.len() as int));
        assert(v =~= (g + v).skip(g.len() as int));
        law_escaping_loses_nothing(x, y);
    }
}

proof fn lemma_first(c: char)
    ensures
        escaped(seq![c], 1) == escaped_char(c),
        seq![c].len() == 1,
{
    assert(escaped(seq![c], 0) + escaped_char(c) =~= escaped_char(c));
}

} // verus!
