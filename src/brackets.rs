//! Bracketed spans: spaces inside `[...]` become underscores, so that a
//! bracketed field reads as one column.

use vstd::prelude::*;
use crate::text::{chars_of, push_char};

verus! {

/// `s` with every space replaced by an underscore.
pub open spec fn underscored(s: Seq<char>) -> Seq<char> {
    s.map_values(|c: char| if c == ' ' { '_' } else { c })
}

/// How many characters of `t` come before its first `]` (all of them if none).
pub open spec fn inside_len(t: Seq<char>) -> nat
    decreases t.len(),
{
    if t.len() == 0 || t[0] == ']' {
        0
    } else {
        1 + inside_len(t.drop_first())
    }
}

pub open spec fn has_no(s: Seq<char>, c: char) -> bool {
    forall|i: int| 0 <= i < s.len() ==> s[i] != c
}

/// `s` with each span from a `[` to the first `]` after it, taken leftmost
/// first and without overlap, rewritten with underscores for its spaces.
pub open spec fn normalized(s: Seq<char>) -> Seq<char>
    decreases s.len(),
{
    if s.len() == 0 {
        seq![]
    } else if s[0] == '[' && inside_len(s.drop_first()) < s.len() - 1 {
        let k = inside_len(s.drop_first()) as int;
        seq!['['] + underscored(s.subrange(1, k + 1)) + seq![']'] + normalized(
            s.subrange(k + 2, s.len() as int),
        )
    } else {
        seq![s[0]] + normalized(s.drop_first())
    }
}

/// `[`, the inside of a span with underscores for its spaces, then `]`.
pub fn bracket_span(inside: &str) -> (r: String)
    ensures
        r@ == seq!['['] + underscored(inside@) + seq![']'],
{
    let cs = chars_of(inside);
    let mut r = String::new();
    push_char(&mut r, '[');
    let mut i: usize = 0;
    while i < cs.len()
        invariant
            cs@ == inside@,
            0 <= i <= cs.len(),
            r@ == seq!['['] + underscored(cs@.take(i as int)),
        decreases cs.len() - i,
    {
        let c = cs[i];
        if c == ' ' {
            push_char(&mut r, '_');
        } else {
            push_char(&mut r, c);
        }
        assert(underscored(cs@.take(i + 1)) =~= underscored(cs@.take(i as int)).push(
            if c == ' ' { '_' } else { c },
        ));
        i = i + 1;
    }
    assert(cs@.take(cs.len() as int) =~= cs@);
    push_char(&mut r, ']');
    r
}

/// Relies on `regex::Regex::replace_all` with the pattern `\[([^\]]*)\]`:
/// the matches are taken leftmost first and do not overlap, each runs from a
/// `[` to the first `]` after it, and each is replaced by `bracket_span` of
/// its inside (capture group 1); the text between matches is kept.
#[verifier::external_body]
fn replace_bracket_spans(s: &str) -> (r: String)
    ensures
        r@ == normalized(s@),
{
    let re = regex::Regex::new(r"\[([^\]]*)\]").unwrap();
    re.replace_all(s, |caps: &regex::Captures| bracket_span(&caps[1])).into_owned()
}

/// Replaces the spaces inside each bracketed span of `s` with underscores.
pub fn replace_spaces_in_brackets(s: &str) -> (r: String)
    ensures
        r@ == normalized(s@),
{
    replace_bracket_spans(s)
}

proof fn lemma_inside_len(t: Seq<char>)
    ensures
        inside_len(t) <= t.len(),
        forall|i: int| 0 <= i < inside_len(t) ==> t[i] != ']',
        inside_len(t) < t.len() ==> t[inside_len(t) as int] == ']',
    decreases t.len(),
{
    if t.len() > 0 && t[0] != ']' {
        lemma_inside_len(t.drop_first());
        assert forall|i: int| 0 <= i < inside_len(t) implies t[i] != ']' by {
            if i > 0 {
                assert(t[i] == t.drop_first()[i - 1]);
            }
        }
    }
}

pub proof fn lemma_inside_len_prefix(u: Seq<char>, w: Seq<char>)
    requires
        has_no(u, ']'),
    ensures
        inside_len(u + w) == u.len() + inside_len(w),
    decreases u.len(),
{
    if u.len() > 0 {
        assert((u + w).drop_first() =~= u.drop_first() + w);
        assert((u + w)[0] == u[0]);
        lemma_inside_len_prefix(u.drop_first(), w);
    } else {
        assert(u + w =~= w);
    }
}

/// Text without a `]` holds no span.
pub proof fn lemma_normalized_no_close(s: Seq<char>)
    requires
        has_no(s, ']'),
    ensures
        normalized(s) == s,
    decreases s.len(),
{
    if s.len() > 0 {
        lemma_inside_len(s.drop_first());
        if s[0] == '[' && inside_len(s.drop_first()) < s.len() - 1 {
            let k = inside_len(s.drop_first()) as int;
            assert(s.drop_first()[k] == s[k + 1]);
        }
        lemma_normalized_no_close(s.drop_first());
        assert(seq![s[0]] + s.drop_first() =~= s);
    }
}

/// Text without a `[` in front is left as it stands.
pub proof fn lemma_normalized_prefix(x: Seq<char>, y: Seq<char>)
    requires
        has_no(x, '['),
    ensures
        normalized(x + y) == x + normalized(y),
    decreases x.len(),
{
    if x.len() > 0 {
        assert((x + y)[0] == x[0]);
        assert((x + y).drop_first() =~= x.drop_first() + y);
        lemma_normalized_prefix(x.drop_first(), y);
        assert(seq![x[0]] + (x.drop_first() + normalized(y)) =~= x + normalized(y));
    } else {
        assert(x + y =~= y);
        assert(x + normalized(y) =~= normalized(y));
    }
}

/// Normalizing twice gives what normalizing once gives.
pub proof fn lemma_normalized_idempotent(s: Seq<char>)
    ensures
        normalized(normalized(s)) == normalized(s),
    decreases s.len(),
{
    if s.len() == 0 {
        return;
    }
    let d = s.drop_first();
    lemma_inside_len(d);
    if s[0] == '[' && inside_len(d) < s.len() - 1 {
        let k = inside_len(d) as int;
        let inner = s.subrange(1, k + 1);
        let u = underscored(inner);
        let rest = s.subrange(k + 2, s.len() as int);
        let n = normalized(s);
        assert(has_no(u, ']')) by {
            assert forall|i: int| 0 <= i < u.len() implies u[i] != ']' by {
                assert(inner[i] == d[i]);
            }
        }
        assert(n =~= seq!['['] + (u + seq![']'] + normalized(rest)));
        let nd = n.drop_first();
        assert(nd =~= u + (seq![']'] + normalized(rest)));
        lemma_inside_len_prefix(u, seq![']'] + normalized(rest));
        assert(inside_len(nd) == k);
        assert(n.subrange(1, k + 1) =~= u);
        assert(underscored(u) =~= u);
        assert(n.subrange(k + 2, n.len() as int) =~= normalized(rest));
        lemma_normalized_idempotent(rest);
    } else if s[0] == '[' {
        assert(has_no(d, ']'));
        lemma_normalized_no_close(d);
        assert(seq![s[0]] + d =~= s);
        assert(normalized(s) == s);
    } else {
        let n = normalized(s);
        assert(n[0] == s[0]);
        assert(n.drop_first() =~= normalized(d));
        lemma_normalized_idempotent(d);
    }
}

} // verus!
