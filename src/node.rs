//! Node identity: the first dotted-quad-shaped piece of a file's path.

use vstd::prelude::*;

verus! {

/// The text of the leftmost-first match of `\d{1,3}.\d{1,3}.\d{1,3}.\d{1,3}`
/// in `s` (`.` there stands for any character but a line feed), if any.
pub uninterp spec fn first_dotted_quad(s: Seq<char>) -> Option<Seq<char>>;

/// The node identity of a file at path `p`: its first dotted quad, or else
/// the whole path.
pub open spec fn identity_of(p: Seq<char>) -> Seq<char> {
    match first_dotted_quad(p) {
        Some(m) => m,
        None => p,
    }
}

/// Relies on `regex::Regex::captures` with the pattern
/// `(\d{1,3}.\d{1,3}.\d{1,3}.\d{1,3})`: the text of group 1 of the
/// leftmost-first match, or `None` where nothing matches. The result depends
/// on the text alone.
#[verifier::external_body]
fn find_dotted_quad(text: &str) -> (r: Option<String>)
    ensures
        r is Some <==> first_dotted_quad(text@) is Some,
        r is Some ==> r->0@ == first_dotted_quad(text@)->0,
{
    let re = regex::Regex::new(r"(\d{1,3}.\d{1,3}.\d{1,3}.\d{1,3})").unwrap();
    let caps = re.captures(text)?;
    Some(caps.get(1)?.as_str().to_string())
}

/// The first dotted-quad-shaped piece of `text`, or `None`.
pub fn extract_ip_address(text: &str) -> (r: Option<String>)
    ensures
        r is Some <==> first_dotted_quad(text@) is Some,
        r is Some ==> r->0@ == first_dotted_quad(text@)->0,
{
    find_dotted_quad(text)
}

/// The node identity of the file at `path`, given what the search for a
/// dotted quad in `path` found.
pub fn identity_from(path: &str, found: Option<String>) -> (r: String)
    ensures
        r@ == match found {
            Some(m) => m@,
            None => path@,
        },
{
    match found {
        Some(m) => m,
        None => String::from_str(path),
    }
}

/// The node identity of the file at `path`.
pub fn node_identity(path: &str) -> (r: String)
    ensures
        r@ == identity_of(path@),
{
    let found = extract_ip_address(path);
    identity_from(path, found)
}

} // verus!
