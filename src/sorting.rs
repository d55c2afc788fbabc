//! Ordering of entries by their date column, then their time column.

use vstd::prelude::*;
use crate::text::{tokens, views, split_columns, chars_of};

verus! {

/// Column `k` of `e`, or the empty text where `e` has no such column.
pub open spec fn column(e: Seq<char>, k: int) -> Seq<char> {
    if 0 <= k < tokens(e).len() {
        tokens(e)[k]
    } else {
        seq![]
    }
}

/// Lexicographic comparison by code point: negative, zero or positive as `a`
/// comes before, equals or comes after `b`.
pub open spec fn lex_cmp(a: Seq<char>, b: Seq<char>) -> int
    decreases a.len(),
{
    if a.len() == 0 && b.len() == 0 {
        0
    } else if a.len() == 0 {
        -1
    } else if b.len() == 0 {
        1
    } else if a[0] != b[0] {
        if (a[0] as int) < (b[0] as int) {
            -1
        } else {
            1
        }
    } else {
        lex_cmp(a.drop_first(), b.drop_first())
    }
}

/// Entry `a` may stand before entry `b`: its date column comes first, or the
/// dates are equal and its time column does not come after.
pub open spec fn key_le(a: Seq<char>, b: Seq<char>) -> bool {
    let c = lex_cmp(column(a, 3), column(b, 3));
    c < 0 || (c == 0 && lex_cmp(column(a, 4), column(b, 4)) <= 0)
}

/// `x` put into `s` after every entry that may stand before it, counted from
/// the end.
pub open spec fn insert_by_key(s: Seq<Seq<char>>, x: Seq<char>) -> Seq<Seq<char>>
    decreases s.len(),
{
    if s.len() == 0 {
        seq![x]
    } else if key_le(s.last(), x) {
        s.push(x)
    } else {
        insert_by_key(s.drop_last(), x).push(s.last())
    }
}

/// The stable ordering of `s` by date, then time.
pub open spec fn sorted_by_time(s: Seq<Seq<char>>) -> Seq<Seq<char>>
    decreases s.len(),
{
    if s.len() == 0 {
        seq![]
    } else {
        insert_by_key(sorted_by_time(s.drop_last()), s.last())
    }
}

/// Column `k` of `entry`, or the empty string where it has no such column.
pub fn entry_column(entry: &str, k: usize) -> (r: String)
    ensures
        r@ == column(entry@, k as int),
{
    let mut cols = split_columns(entry);
    if k < cols.len() {
        let ghost t = views(cols@);
        let c = cols.swap_remove(k);
        assert(c@ == t[k as int]);
        c
    } else {
        String::new()
    }
}

/// Lexicographic comparison of `a` and `b` by code point: -1, 0 or 1.
pub fn compare_text(a: &Vec<char>, b: &Vec<char>) -> (r: i8)
    ensures
        r as int == lex_cmp(a@, b@),
{
    let mut i: usize = 0;
    assert(a@.skip(0) =~= a@ && b@.skip(0) =~= b@);
    while i < a.len() && i < b.len()
        invariant
            0 <= i <= a.len(),
            i <= b.len(),
            lex_cmp(a@, b@) == lex_cmp(a@.skip(i as int), b@.skip(i as int)),
        decreases a.len() - i,
    {
        let ghost sa = a@.skip(i as int);
        let ghost sb = b@.skip(i as int);
        assert(sa[0] == a@[i as int] && sb[0] == b@[i as int]);
        if a[i] != b[i] {
            if a[i] < b[i] {
                return -1;
            } else {
                return 1;
            }
        }
        assert(sa.drop_first() =~= a@.skip(i + 1));
        assert(sb.drop_first() =~= b@.skip(i + 1));
        i = i + 1;
    }
    if i == a.len() && i == b.len() {
        0
    } else if i == a.len() {
        -1
    } else {
        1
    }
}

fn key_chars(entry: &str, k: usize) -> (r: Vec<char>)
    ensures
        r@ == column(entry@, k as int),
{
    let c = entry_column(entry, k);
    chars_of(c.as_str())
}

fn key_le_exec(ad: &Vec<char>, at: &Vec<char>, bd: &Vec<char>, bt: &Vec<char>) -> (r: bool)
    ensures
        r == ({
            let c = lex_cmp(ad@, bd@);
            c < 0 || (c == 0 && lex_cmp(at@, bt@) <= 0)
        }),
{
    let c = compare_text(ad, bd);
    c < 0 || (c == 0 && compare_text(at, bt) <= 0)
}

/// Whether entry `a` may stand before entry `b` in the report.
pub fn entry_le(a: &str, b: &str) -> (r: bool)
    ensures
        r == key_le(a@, b@),
{
    key_le_exec(&key_chars(a, 3), &key_chars(a, 4), &key_chars(b, 3), &key_chars(b, 4))
}

proof fn lemma_insert_at(s: Seq<Seq<char>>, x: Seq<char>, k: int)
    requires
        0 <= k <= s.len(),
        forall|j: int| k <= j < s.len() ==> !key_le(#[trigger] s[j], x),
        k > 0 ==> key_le(s[k - 1], x),
    ensures
        insert_by_key(s, x) == s.insert(k, x),
    decreases s.len(),
{
    if s.len() == 0 {
        assert(s.insert(k, x) =~= seq![x]);
    } else if k == s.len() {
        assert(s.insert(k, x) =~= s.push(x));
    } else {
        assert(!key_le(s[s.len() - 1], x));
        lemma_insert_at(s.drop_last(), x, k);
        assert(s.drop_last().insert(k, x).push(s.last()) =~= s.insert(k, x));
    }
}

/// The entries ordered by date, then time, keeping the order of entries
/// whose date and time are equal. An absent column counts as empty text.
pub fn sort_entries(entries: Vec<String>) -> (r: Vec<String>)
    ensures
        views(r@) == sorted_by_time(views(entries@)),
{
    let mut out: Vec<String> = Vec::new();
    let mut dates: Vec<Vec<char>> = Vec::new();
    let mut times: Vec<Vec<char>> = Vec::new();
    let mut i: usize = 0;
    while i < entries.len()
        invariant
            0 <= i <= entries.len(),
            out.len() == dates.len(),
            out.len() == times.len(),
            views(out@) == sorted_by_time(views(entries@).take(i as int)),
            forall|j: int| 0 <= j < out.len() ==> (#[trigger] dates@[j])@ == column(out@[j]@, 3),
            forall|j: int| 0 <= j < out.len() ==> (#[trigger] times@[j])@ == column(out@[j]@, 4),
        decreases entries.len() - i,
    {
        let ghost pre = views(entries@).take(i as int);
        let ghost cur = views(entries@).take(i + 1);
        assert(cur.drop_last() =~= pre);
        let e = entries[i].clone();
        let xd = key_chars(e.as_str(), 3);
        let xt = key_chars(e.as_str(), 4);
        let ghost s = views(out@);
        let mut k: usize = out.len();
        while k > 0 && !key_le_exec(&dates[k - 1], &times[k - 1], &xd, &xt)
            invariant
                0 <= k <= out.len(),
                out.len() == dates.len(),
                out.len() == times.len(),
                s == views(out@),
                forall|j: int| 0 <= j < out.len() ==> (#[trigger] dates@[j])@ == column(out@[j]@, 3),
                forall|j: int| 0 <= j < out.len() ==> (#[trigger] times@[j])@ == column(out@[j]@, 4),
                forall|j: int| k <= j < s.len() ==> !key_le(#[trigger] s[j], e@),
                xd@ == column(e@, 3),
                xt@ == column(e@, 4),
            decreases k,
        {
            assert(s[k - 1] == out@[k - 1]@);
            assert(dates@[k - 1]@ == column(out@[k - 1]@, 3));
            assert(times@[k - 1]@ == column(out@[k - 1]@, 4));
            k = k - 1;
        }
        proof {
            if k > 0 {
                assert(key_le(s[k - 1], e@));
            }
            lemma_insert_at(s, e@, k as int);
        }
        let ghost out0 = out@;
        let ghost d0 = dates@;
        let ghost t0 = times@;
        out.insert(k, e);
        dates.insert(k, xd);
        times.insert(k, xt);
        assert(views(out@) =~= s.insert(k as int, cur.last()));
        assert forall|j: int| 0 <= j < out.len() implies (#[trigger] dates@[j])@ == column(
            out@[j]@,
            3,
        ) && times@[j]@ == column(out@[j]@, 4) by {
            if j < k {
                assert(out@[j] == out0[j] && dates@[j] == d0[j] && times@[j] == t0[j]);
            } else if j > k {
                assert(out@[j] == out0[j - 1] && dates@[j] == d0[j - 1] && times@[j] == t0[j - 1]);
            }
        }
        i = i + 1;
    }
    assert(views(entries@).take(entries.len() as int) =~= views(entries@));
    out
}

/// Each entry may stand before every entry after it.
pub open spec fn ordered(s: Seq<Seq<char>>) -> bool {
    forall|i: int, j: int| 0 <= i < j < s.len() ==> key_le(#[trigger] s[i], #[trigger] s[j])
}

proof fn lemma_lex_antisym(a: Seq<char>, b: Seq<char>)
    ensures
        lex_cmp(a, b) == -lex_cmp(b, a),
    decreases a.len(),
{
    if a.len() > 0 && b.len() > 0 {
        if a[0] == b[0] {
            lemma_lex_antisym(a.drop_first(), b.drop_first());
        } else {
            assert(a[0] as int != b[0] as int);
        }
    }
}

proof fn lemma_lex_zero(a: Seq<char>, b: Seq<char>)
    requires
        lex_cmp(a, b) == 0,
    ensures
        a == b,
    decreases a.len(),
{
    if a.len() > 0 && b.len() > 0 {
        lemma_lex_zero(a.drop_first(), b.drop_first());
        assert(a =~= seq![a[0]] + a.drop_first());
        assert(b =~= seq![b[0]] + b.drop_first());
    } else {
        assert(a =~= b);
    }
}

proof fn lemma_lex_trans(a: Seq<char>, b: Seq<char>, c: Seq<char>)
    requires
        lex_cmp(a, b) < 0,
        lex_cmp(b, c) < 0,
    ensures
        lex_cmp(a, c) < 0,
    decreases a.len(),
{
    if a.len() > 0 && b.len() > 0 && c.len() > 0 && a[0] == b[0] && b[0] == c[0] {
        lemma_lex_trans(a.drop_first(), b.drop_first(), c.drop_first());
    }
}

proof fn lemma_lex_le_trans(a: Seq<char>, b: Seq<char>, c: Seq<char>)
    requires
        lex_cmp(a, b) <= 0,
        lex_cmp(b, c) <= 0,
    ensures
        lex_cmp(a, c) <= 0,
        lex_cmp(a, c) == 0 ==> lex_cmp(a, b) == 0 && lex_cmp(b, c) == 0,
{
    lemma_lex_antisym(a, a);
    if lex_cmp(a, b) == 0 {
        lemma_lex_zero(a, b);
    } else if lex_cmp(b, c) == 0 {
        lemma_lex_zero(b, c);
    } else {
        lemma_lex_trans(a, b, c);
    }
}

/// The order of entries is total.
pub proof fn lemma_key_total(a: Seq<char>, b: Seq<char>)
    ensures
        key_le(a, b) || key_le(b, a),
{
    lemma_lex_antisym(column(a, 3), column(b, 3));
    lemma_lex_antisym(column(a, 4), column(b, 4));
}

/// The order of entries is transitive.
pub proof fn lemma_key_trans(a: Seq<char>, b: Seq<char>, c: Seq<char>)
    requires
        key_le(a, b),
        key_le(b, c),
    ensures
        key_le(a, c),
{
    let (da, db, dc) = (column(a, 3), column(b, 3), column(c, 3));
    lemma_lex_le_trans(da, db, dc);
    if lex_cmp(da, dc) == 0 {
        lemma_lex_le_trans(column(a, 4), column(b, 4), column(c, 4));
    }
}

proof fn lemma_insert_bounded(s: Seq<Seq<char>>, x: Seq<char>, b: Seq<char>)
    requires
        forall|i: int| 0 <= i < s.len() ==> key_le(#[trigger] s[i], b),
        key_le(x, b),
    ensures
        forall|i: int|
            0 <= i < insert_by_key(s, x).len() ==> key_le(#[trigger] insert_by_key(s, x)[i], b),
        insert_by_key(s, x).len() == s.len() + 1,
    decreases s.len(),
{
    if s.len() > 0 && !key_le(s.last(), x) {
        lemma_insert_bounded(s.drop_last(), x, b);
        let r = insert_by_key(s, x);
        assert forall|i: int| 0 <= i < r.len() implies key_le(#[trigger] r[i], b) by {
            if i < r.len() - 1 {
                assert(r[i] == insert_by_key(s.drop_last(), x)[i]);
            }
        }
    }
}

proof fn lemma_insert_ordered(s: Seq<Seq<char>>, x: Seq<char>)
    requires
        ordered(s),
    ensures
        ordered(insert_by_key(s, x)),
        insert_by_key(s, x).to_multiset() == s.to_multiset().insert(x),
    decreases s.len(),
{
    broadcast use vstd::seq_lib::group_to_multiset_ensures, vstd::multiset::group_multiset_axioms;

    let r = insert_by_key(s, x);
    if s.len() == 0 {
        assert(seq![x] =~= Seq::<Seq<char>>::empty().push(x));
    } else if key_le(s.last(), x) {
        assert forall|i: int, j: int| 0 <= i < j < r.len() implies key_le(
            #[trigger] r[i],
            #[trigger] r[j],
        ) by {
            if j == r.len() - 1 && i < s.len() - 1 {
                lemma_key_trans(s[i], s.last(), x);
            }
        }
    } else {
        let sd = s.drop_last();
        let l = s.last();
        assert(ordered(sd));
        lemma_insert_ordered(sd, x);
        lemma_key_total(l, x);
        assert forall|i: int| 0 <= i < sd.len() implies key_le(#[trigger] sd[i], l) by {
            assert(sd[i] == s[i]);
        }
        lemma_insert_bounded(sd, x, l);
        let ri = insert_by_key(sd, x);
        assert forall|i: int, j: int| 0 <= i < j < r.len() implies key_le(
            #[trigger] r[i],
            #[trigger] r[j],
        ) by {
            assert(r[i] == ri[i]);
            if j < r.len() - 1 {
                assert(r[j] == ri[j]);
            }
        }
        assert(s =~= sd.push(l));
        assert(r.to_multiset() =~= s.to_multiset().insert(x));
    }
}

/// Ordering entries puts them in order of date, then time, and keeps each
/// entry as many times as it was given.
pub proof fn lemma_sorted_by_time(s: Seq<Seq<char>>)
    ensures
        ordered(sorted_by_time(s)),
        sorted_by_time(s).to_multiset() == s.to_multiset(),
    decreases s.len(),
{
    broadcast use vstd::seq_lib::group_to_multiset_ensures;

    if s.len() == 0 {
        assert(sorted_by_time(s) =~= s);
    } else {
        lemma_sorted_by_time(s.drop_last());
        lemma_insert_ordered(sorted_by_time(s.drop_last()), s.last());
        assert(s =~= s.drop_last().push(s.last()));
    }
}

} // verus!
