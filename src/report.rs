//! The report text, and which files the scan takes.

use vstd::prelude::*;
use crate::text::{views, push_char};

verus! {

/// Each entry followed by a line feed, in order.
pub open spec fn report_text(s: Seq<Seq<char>>) -> Seq<char>
    decreases s.len(),
{
    if s.len() == 0 {
        seq![]
    } else {
        report_text(s.drop_last()) + s.last() + seq!['\n']
    }
}

/// The text of the report holding `entries`, one per line.
pub fn render_report(entries: &Vec<String>) -> (r: String)
    ensures
        r@ == report_text(views(entries@)),
{
    let mut out = String::new();
    let mut i: usize = 0;
    while i < entries.len()
        invariant
            0 <= i <= entries.len(),
            out@ == report_text(views(entries@).take(i as int)),
        decreases entries.len() - i,
    {
        let ghost cur = views(entries@).take(i + 1);
        assert(cur.drop_last() =~= views(entries@).take(i as int));
        out.append(entries[i].as_str());
        push_char(&mut out, '\n');
        i = i + 1;
    }
    assert(views(entries@).take(entries.len() as int) =~= views(entries@));
    out
}

/// Whether a file named `name` is one the scan takes: its name is exactly
/// `target`.
pub fn is_target_file(name: &str, target: &str) -> (r: bool)
    ensures
        r == (name@ == target@),
{
    String::from_str(name) == String::from_str(target)
}

} // verus!
