//! Characters, whitespace-delimited columns and their rejoining.

use vstd::prelude::*;

verus! {

/// Unicode `White_Space`, the set that `char::is_whitespace` tests.
pub open spec fn is_ws(c: char) -> bool {
    ('\u{9}' <= c && c <= '\u{d}') || c == ' ' || c == '\u{85}' || c == '\u{a0}' || c
        == '\u{1680}' || ('\u{2000}' <= c && c <= '\u{200a}') || c == '\u{2028}' || c == '\u{2029}'
        || c == '\u{202f}' || c == '\u{205f}' || c == '\u{3000}'
}

/// The text of each string of a sequence.
pub open spec fn views(v: Seq<String>) -> Seq<Seq<char>> {
    v.map_values(|t: String| t@)
}

/// The maximal runs of non-whitespace characters of `s`, in order.
pub open spec fn tokens(s: Seq<char>) -> Seq<Seq<char>>
    decreases s.len(),
{
    if s.len() == 0 {
        seq![]
    } else {
        let prev = tokens(s.drop_last());
        let c = s.last();
        if is_ws(c) {
            prev
        } else if s.len() >= 2 && !is_ws(s[s.len() - 2]) {
            prev.drop_last().push(prev.last().push(c))
        } else {
            prev.push(seq![c])
        }
    }
}

/// The columns of `t` separated by single spaces.
pub open spec fn join(t: Seq<Seq<char>>) -> Seq<char>
    decreases t.len(),
{
    if t.len() == 0 {
        seq![]
    } else if t.len() == 1 {
        t[0]
    } else {
        join(t.drop_last()) + seq![' '] + t.last()
    }
}

/// A column: not empty, and free of whitespace.
pub open spec fn is_column(t: Seq<char>) -> bool {
    t.len() > 0 && forall|i: int| 0 <= i < t.len() ==> !is_ws(#[trigger] t[i])
}

pub open spec fn all_columns(t: Seq<Seq<char>>) -> bool {
    forall|k: int| 0 <= k < t.len() ==> is_column(#[trigger] t[k])
}

/// Whether `c` is a Unicode whitespace character.
pub fn is_whitespace(c: char) -> (r: bool)
    ensures
        r == is_ws(c),
{
    ('\u{9}' <= c && c <= '\u{d}') || c == ' ' || c == '\u{85}' || c == '\u{a0}' || c
        == '\u{1680}' || ('\u{2000}' <= c && c <= '\u{200a}') || c == '\u{2028}' || c == '\u{2029}'
        || c == '\u{202f}' || c == '\u{205f}' || c == '\u{3000}'
}

/// Relies on `str::chars`: the characters of the string, in order.
#[verifier::external_body]
pub(crate) fn chars_of(s: &str) -> (r: Vec<char>)
    ensures
        r@ == s@,
{
    s.chars().collect()
}

/// Relies on `String::push`: appends one character.
#[verifier::external_body]
pub(crate) fn push_char(s: &mut String, c: char)
    ensures
        final(s)@ == old(s)@.push(c),
{
    s.push(c)
}

/// A string holding the characters of `cs`.
pub fn string_of(cs: &Vec<char>) -> (r: String)
    ensures
        r@ == cs@,
{
    let mut r = String::new();
    let mut i: usize = 0;
    while i < cs.len()
        invariant
            0 <= i <= cs.len(),
            r@ == cs@.take(i as int),
        decreases cs.len() - i,
    {
        push_char(&mut r, cs[i]);
        assert(cs@.take(i + 1) =~= cs@.take(i as int).push(cs@[i as int]));
        i = i + 1;
    }
    assert(cs@.take(cs.len() as int) =~= cs@);
    r
}

proof fn lemma_tokens_end(s: Seq<char>)
    requires
        s.len() > 0,
        !is_ws(s.last()),
    ensures
        tokens(s).len() > 0,
    decreases s.len(),
{
    if s.len() >= 2 && !is_ws(s[s.len() - 2]) {
        lemma_tokens_end(s.drop_last());
    }
}

/// Splits `s` into its whitespace-delimited columns.
pub fn split_columns(s: &str) -> (r: Vec<String>)
    ensures
        views(r@) == tokens(s@),
{
    let cs = chars_of(s);
    let mut toks: Vec<String> = Vec::new();
    let mut i: usize = 0;
    while i < cs.len()
        invariant
            cs@ == s@,
            0 <= i <= cs.len(),
            views(toks@) == tokens(cs@.take(i as int)),
        decreases cs.len() - i,
    {
        let c = cs[i];
        let ghost pre = cs@.take(i as int);
        let ghost cur = cs@.take(i + 1);
        assert(cur.drop_last() =~= pre);
        if !is_whitespace(c) {
            if i > 0 && !is_whitespace(cs[i - 1]) {
                proof {
                    lemma_tokens_end(pre);
                }
                let mut last = toks.pop().unwrap();
                push_char(&mut last, c);
                toks.push(last);
                assert(views(toks@) =~= tokens(cur));
            } else {
                let mut t = String::new();
                push_char(&mut t, c);
                toks.push(t);
                assert(views(toks@) =~= tokens(cur));
            }
        } else {
            assert(views(toks@) =~= tokens(cur));
        }
        i = i + 1;
    }
    assert(cs@.take(cs.len() as int) =~= cs@);
    toks
}

/// Joins `cols` with single spaces.
pub fn join_columns(cols: &Vec<String>) -> (r: String)
    ensures
        r@ == join(views(cols@)),
{
    let mut out = String::new();
    let mut i: usize = 0;
    while i < cols.len()
        invariant
            0 <= i <= cols.len(),
            out@ == join(views(cols@).take(i as int)),
        decreases cols.len() - i,
    {
        let ghost pre = views(cols@).take(i as int);
        let ghost cur = views(cols@).take(i + 1);
        assert(cur.drop_last() =~= pre);
        if i > 0 {
            push_char(&mut out, ' ');
        }
        out.append(cols[i].as_str());
        i = i + 1;
    }
    assert(views(cols@).take(cols.len() as int) =~= views(cols@));
    out
}

/// A space between two texts separates their columns.
pub proof fn lemma_tokens_sep(a: Seq<char>, b: Seq<char>)
    ensures
        tokens(a + seq![' '] + b) == tokens(a) + tokens(b),
    decreases b.len(),
{
    let s = a + seq![' '] + b;
    assert(is_ws(' '));
    if b.len() == 0 {
        assert(s.drop_last() =~= a);
        assert(tokens(a) + tokens(b) =~= tokens(a));
    } else {
        let bd = b.drop_last();
        assert(s.drop_last() =~= a + seq![' '] + bd);
        lemma_tokens_sep(a, bd);
        let c = b.last();
        assert(s.last() == c);
        if is_ws(c) {
        } else if b.len() >= 2 && !is_ws(b[b.len() - 2]) {
            assert(s[s.len() - 2] == b[b.len() - 2]);
            lemma_tokens_end(bd);
            assert(tokens(s) =~= tokens(a) + tokens(b));
        } else {
            if b.len() >= 2 {
                assert(s[s.len() - 2] == b[b.len() - 2]);
            } else {
                assert(s[s.len() - 2] == ' ');
            }
            assert(tokens(s) =~= tokens(a) + tokens(b));
        }
    }
}

/// A column is its own only column.
pub proof fn lemma_tokens_column(t: Seq<char>)
    requires
        is_column(t),
    ensures
        tokens(t) == seq![t],
    decreases t.len(),
{
    if t.len() == 1 {
        assert(t.drop_last() =~= seq![]);
        assert(tokens(t.drop_last()) =~= seq![]);
        assert(seq![t[0]] =~= t);
        assert(tokens(t) =~= seq![t]);
    } else {
        let td = t.drop_last();
        assert(is_column(td)) by {
            assert forall|i: int| 0 <= i < td.len() implies !is_ws(#[trigger] td[i]) by {
                assert(td[i] == t[i]);
            }
        }
        lemma_tokens_column(td);
        assert(!is_ws(t[t.len() - 2]));
        assert(td.push(t.last()) =~= t);
        assert(tokens(t) =~= seq![t]);
    }
}

/// Every column found in a text is a column.
pub proof fn lemma_tokens_are_columns(s: Seq<char>)
    ensures
        all_columns(tokens(s)),
    decreases s.len(),
{
    if s.len() > 0 {
        let prev = tokens(s.drop_last());
        lemma_tokens_are_columns(s.drop_last());
        let c = s.last();
        if is_ws(c) {
        } else if s.len() >= 2 && !is_ws(s[s.len() - 2]) {
            lemma_tokens_end(s.drop_last());
            let l = prev.last().push(c);
            assert(is_column(prev[prev.len() - 1]));
            assert(is_column(l)) by {
                assert forall|i: int| 0 <= i < l.len() implies !is_ws(#[trigger] l[i]) by {
                    if i < l.len() - 1 {
                        assert(l[i] == prev.last()[i]);
                    }
                }
            }
            let r = prev.drop_last().push(l);
            assert forall|k: int| 0 <= k < r.len() implies is_column(#[trigger] r[k]) by {
                if k < r.len() - 1 {
                    assert(r[k] == prev[k]);
                }
            }
        } else {
            let r = prev.push(seq![c]);
            assert(is_column(seq![c]));
            assert forall|k: int| 0 <= k < r.len() implies is_column(#[trigger] r[k]) by {
                if k < r.len() - 1 {
                    assert(r[k] == prev[k]);
                }
            }
        }
    }
}

/// Joining two or more columns puts the first one, a space, then the rest.
pub proof fn lemma_join_front(t: Seq<Seq<char>>)
    requires
        t.len() >= 2,
    ensures
        join(t) == t[0] + seq![' '] + join(t.drop_first()),
    decreases t.len(),
{
    let tf = t.drop_first();
    if t.len() == 2 {
        assert(t.drop_last() =~= seq![t[0]]);
        assert(tf =~= seq![t[1]]);
        assert(join(t.drop_last()) == t[0]);
        assert(join(tf) == t[1]);
    } else {
        lemma_join_front(t.drop_last());
        assert(t.drop_last().drop_first() =~= tf.drop_last());
        assert(t.drop_last()[0] == t[0]);
        assert(tf.last() == t.last());
        assert(join(t) =~= t[0] + seq![' '] + join(tf));
    }
}

} // verus!
