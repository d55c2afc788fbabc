//! The whole run on files already read: entries of every file, ordered by
//! date and time.

use vstd::prelude::*;
use crate::text::views;
use crate::node::identity_of;
use crate::classify::{file_entries, process_log_file};
use crate::sorting::{sorted_by_time, sort_entries, lemma_sorted_by_time};

verus! {

/// The entries of each file, given as its path and its lines, file after file.
pub open spec fn all_entries(files: Seq<(String, Vec<String>)>) -> Seq<Seq<char>>
    decreases files.len(),
{
    if files.len() == 0 {
        seq![]
    } else {
        all_entries(files.drop_last()) + file_entries(
            identity_of(files.last().0@),
            views(files.last().1@),
        )
    }
}

/// The entries of all `files`, each given as its path and its lines, ordered
/// by date, then time.
pub fn aggregate(files: &Vec<(String, Vec<String>)>) -> (r: Vec<String>)
    ensures
        views(r@) == sorted_by_time(all_entries(files@)),
{
    let mut entries: Vec<String> = Vec::new();
    let mut i: usize = 0;
    while i < files.len()
        invariant
            0 <= i <= files.len(),
            views(entries@) == all_entries(files@.take(i as int)),
        decreases files.len() - i,
    {
        assert(files@.take(i + 1).drop_last() =~= files@.take(i as int));
        assert(files@.take(i + 1).last() == files@[i as int]);
        let file = &files[i];
        process_log_file(file.0.as_str(), &file.1, &mut entries);
        i = i + 1;
    }
    assert(files@.take(files.len() as int) =~= files@);
    sort_entries(entries)
}

/// The report made of two files holds each entry of either file exactly as
/// many times as that file gave it.
pub proof fn lemma_two_files_merged(
    n1: Seq<char>,
    l1: Seq<Seq<char>>,
    n2: Seq<char>,
    l2: Seq<Seq<char>>,
)
    ensures
        sorted_by_time(file_entries(n1, l1) + file_entries(n2, l2)).to_multiset() == file_entries(
            n1,
            l1,
        ).to_multiset().add(file_entries(n2, l2).to_multiset()),
{
    let e = file_entries(n1, l1) + file_entries(n2, l2);
    lemma_sorted_by_time(e);
    vstd::seq_lib::lemma_multiset_commutative(file_entries(n1, l1), file_entries(n2, l2));
}

} // verus!
