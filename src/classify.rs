//! Candidate lines, their canonical column layout, and the entries made
//! from them.

use vstd::prelude::*;
use crate::text::{
    tokens, join, views, is_column, split_columns, join_columns, chars_of, push_char,
    lemma_tokens_sep, lemma_tokens_column, lemma_tokens_are_columns, lemma_join_front,
};
use crate::brackets::{
    normalized, underscored, inside_len, has_no, replace_spaces_in_brackets,
    lemma_inside_len_prefix, lemma_normalized_prefix,
};
use crate::node::{identity_of, node_identity};

verus! {

/// A candidate line begins with `ERROR` or `WARN`.
pub open spec fn is_candidate(line: Seq<char>) -> bool {
    seq!['E', 'R', 'R', 'O', 'R'].is_prefix_of(line) || seq!['W', 'A', 'R', 'N'].is_prefix_of(line)
}

/// The thread tag put in where a line has none.
pub open spec fn placeholder() -> Seq<char> {
    seq!['[', 'N', 'o', '_', 'T', 'h', 'r', 'e', 'a', 'd', ']']
}

/// The columns with the placeholder put second where the second column has
/// no `[`.
pub open spec fn canonical(t: Seq<Seq<char>>) -> Seq<Seq<char>> {
    if has_no(t[1], '[') {
        t.insert(1, placeholder())
    } else {
        t
    }
}

/// The line with its columns canonical and rejoined by single spaces; `None`
/// for a line of fewer than two columns.
pub open spec fn with_thread(line: Seq<char>) -> Option<Seq<char>> {
    if tokens(line).len() < 2 {
        None
    } else {
        Some(join(canonical(tokens(line))))
    }
}

/// The entry made of `line` from the node `node`: `None` where the line is no
/// candidate or has fewer than two columns.
pub open spec fn entry_of(node: Seq<char>, line: Seq<char>) -> Option<Seq<char>> {
    if is_candidate(line) && with_thread(line) is Some {
        Some(node + seq![' '] + normalized(with_thread(line)->0))
    } else {
        None
    }
}

/// The entries made of `lines`, in their order.
pub open spec fn file_entries(node: Seq<char>, lines: Seq<Seq<char>>) -> Seq<Seq<char>>
    decreases lines.len(),
{
    if lines.len() == 0 {
        seq![]
    } else {
        let prev = file_entries(node, lines.drop_last());
        match entry_of(node, lines.last()) {
            Some(e) => prev.push(e),
            None => prev,
        }
    }
}

/// Relies on `regex::Regex::is_match` with the pattern `(^ERROR|^WARN)`: true
/// exactly when the text begins with `ERROR` or `WARN`.
#[verifier::external_body]
fn begins_with_severity(line: &str) -> (r: bool)
    ensures
        r == is_candidate(line@),
{
    regex::Regex::new(r"(^ERROR|^WARN)").unwrap().is_match(line)
}

/// Whether `line` begins with `ERROR` or `WARN`.
pub fn is_candidate_line(line: &str) -> (r: bool)
    ensures
        r == is_candidate(line@),
{
    begins_with_severity(line)
}

/// Whether `c` occurs in `s`.
pub fn contains_char(s: &str, c: char) -> (r: bool)
    ensures
        r == !has_no(s@, c),
{
    let cs = chars_of(s);
    let mut i: usize = 0;
    while i < cs.len()
        invariant
            cs@ == s@,
            0 <= i <= cs.len(),
            forall|j: int| 0 <= j < i ==> cs@[j] != c,
        decreases cs.len() - i,
    {
        if cs[i] == c {
            return true;
        }
        i = i + 1;
    }
    false
}

/// The thread tag put in where a line has none.
pub fn placeholder_tag() -> (r: String)
    ensures
        r@ == placeholder(),
{
    let r = String::from_str("[No_Thread]");
    proof {
        reveal_strlit("[No_Thread]");
    }
    assert(r@ =~= placeholder());
    r
}

/// Puts the placeholder thread tag second where the second column of `line`
/// has no `[`, and rejoins the columns with single spaces. A line of fewer
/// than two columns gives `None`.
pub fn insert_thread_placeholder(line: &str) -> (r: Option<String>)
    ensures
        r is Some <==> with_thread(line@) is Some,
        r is Some ==> r->0@ == with_thread(line@)->0,
{
    let mut cols = split_columns(line);
    if cols.len() < 2 {
        return None;
    }
    let ghost t = views(cols@);
    if !contains_char(cols[1].as_str(), '[') {
        let tag = placeholder_tag();
        cols.insert(1, tag);
        assert(views(cols@) =~= t.insert(1, placeholder()));
    }
    Some(join_columns(&cols))
}

/// The entry made of `line` from the node `node`, or `None` where the line is
/// no candidate or has fewer than two columns.
pub fn process_line(node: &str, line: &str) -> (r: Option<String>)
    ensures
        r is Some <==> entry_of(node@, line@) is Some,
        r is Some ==> r->0@ == entry_of(node@, line@)->0,
{
    if !is_candidate_line(line) {
        return None;
    }
    match insert_thread_placeholder(line) {
        None => None,
        Some(joined) => {
            let cleaned = replace_spaces_in_brackets(joined.as_str());
            let mut out = String::from_str(node);
            push_char(&mut out, ' ');
            out.append(cleaned.as_str());
            Some(out)
        },
    }
}

/// Appends to `entries` the entry of each line of the file at `path` that
/// makes one, in the order of the lines.
pub fn process_log_file(path: &str, lines: &Vec<String>, entries: &mut Vec<String>)
    ensures
        views(final(entries)@) == views(old(entries)@) + file_entries(
            identity_of(path@),
            views(lines@),
        ),
{
    let node = node_identity(path);
    let mut i: usize = 0;
    while i < lines.len()
        invariant
            node@ == identity_of(path@),
            0 <= i <= lines.len(),
            views(entries@) == views(old(entries)@) + file_entries(
                node@,
                views(lines@).take(i as int),
            ),
        decreases lines.len() - i,
    {
        let ghost pre = views(lines@).take(i as int);
        let ghost cur = views(lines@).take(i + 1);
        assert(cur.drop_last() =~= pre);
        assert(cur.last() == lines@[i as int]@);
        let ghost before = views(entries@);
        match process_line(node.as_str(), lines[i].as_str()) {
            Some(e) => {
                entries.push(e);
                assert(views(entries@) =~= before.push(e@));
                assert(views(entries@) =~= views(old(entries)@) + file_entries(node@, cur));
            },
            None => {},
        }
        i = i + 1;
    }
    assert(views(lines@).take(lines.len() as int) =~= views(lines@));
}

/// Every entry made from a file comes from one of its candidate lines; a
/// line that does not begin with `ERROR` or `WARN` gives no entry.
pub proof fn lemma_entries_from_candidates(node: Seq<char>, lines: Seq<Seq<char>>)
    ensures
        forall|line: Seq<char>| !is_candidate(line) ==> entry_of(node, line) is None,
        forall|k: int|
            #![trigger file_entries(node, lines)[k]]
            0 <= k < file_entries(node, lines).len() ==> exists|j: int|
                0 <= j < lines.len() && is_candidate(#[trigger] lines[j]) && entry_of(node, lines[j])
                    == Some(file_entries(node, lines)[k]),
    decreases lines.len(),
{
    if lines.len() > 0 {
        let ld = lines.drop_last();
        lemma_entries_from_candidates(node, ld);
        let fe = file_entries(node, lines);
        let prev = file_entries(node, ld);
        assert forall|k: int| #![trigger fe[k]] 0 <= k < fe.len() implies exists|j: int|
            0 <= j < lines.len() && is_candidate(#[trigger] lines[j]) && entry_of(node, lines[j])
                == Some(fe[k]) by {
            if k < prev.len() {
                let j = choose|j: int|
                    0 <= j < ld.len() && is_candidate(#[trigger] ld[j]) && entry_of(node, ld[j])
                        == Some(prev[k]);
                assert(ld[j] == lines[j]);
                assert(fe[k] == prev[k]);
            } else {
                let j = lines.len() - 1;
                assert(lines[j] == lines.last());
            }
        }
    }
}

proof fn lemma_normalized_placeholder(y: Seq<char>)
    ensures
        normalized(placeholder() + y) == placeholder() + normalized(y),
{
    let p = placeholder();
    let s = p + y;
    let inner = p.subrange(1, 10);
    assert(has_no(inner, ']'));
    assert(s.drop_first() =~= inner + (seq![']'] + y));
    lemma_inside_len_prefix(inner, seq![']'] + y);
    assert(inside_len(seq![']'] + y) == 0);
    assert(s.subrange(1, 10) =~= inner);
    assert(underscored(inner) =~= inner);
    assert(s.subrange(11, s.len() as int) =~= y);
    assert(normalized(s) =~= p + normalized(y));
}

/// Where neither of the first two columns of a candidate line holds a `[`,
/// and the node identity is a single column, the entry's third column is
/// the placeholder thread tag.
pub proof fn lemma_placeholder_column(node: Seq<char>, line: Seq<char>)
    requires
        is_column(node),
        is_candidate(line),
        tokens(line).len() >= 2,
        has_no(tokens(line)[0], '['),
        has_no(tokens(line)[1], '['),
    ensures
        entry_of(node, line) is Some,
        tokens(entry_of(node, line)->0).len() > 2,
        tokens(entry_of(node, line)->0)[2] == placeholder(),
{
    let p = placeholder();
    let t = tokens(line);
    lemma_tokens_are_columns(line);
    let cols = t.insert(1, p);
    assert(canonical(t) == cols);
    let c1 = cols.drop_first();
    lemma_join_front(cols);
    lemma_join_front(c1);
    let t0 = t[0];
    assert(cols[0] == t0 && c1[0] == p);
    let rest = join(c1.drop_first());
    let x = t0 + seq![' '];
    assert(has_no(x, '[')) by {
        assert forall|i: int| 0 <= i < x.len() implies x[i] != '[' by {
            if i < t0.len() {
                assert(x[i] == t0[i]);
            }
        }
    }
    let j = join(cols);
    assert(j =~= x + (p + (seq![' '] + rest)));
    lemma_normalized_prefix(x, p + (seq![' '] + rest));
    lemma_normalized_placeholder(seq![' '] + rest);
    lemma_normalized_prefix(seq![' '], rest);
    let nr = normalized(rest);
    let nj = normalized(j);
    assert(nj =~= t0 + seq![' '] + (p + seq![' '] + nr));
    let e = node + seq![' '] + nj;
    assert(entry_of(node, line) == Some(e));
    assert(is_column(t0));
    assert(is_column(p));
    lemma_tokens_column(node);
    lemma_tokens_column(t0);
    lemma_tokens_column(p);
    lemma_tokens_sep(node, nj);
    lemma_tokens_sep(t0, p + seq![' '] + nr);
    lemma_tokens_sep(p, nr);
    assert(tokens(e) =~= seq![node, t0, p] + tokens(nr));
}

} // verus!
