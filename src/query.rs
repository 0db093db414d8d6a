//! The DNS name under which a domain publishes its `ESNIKeys` record.

use vstd::prelude::*;

verus! {

/// `p` is a prefix of `s`.
pub open spec fn has_prefix(s: Seq<char>, p: Seq<char>) -> bool {
    p.len() <= s.len() && s.subrange(0, p.len() as int) == p
}

/// Relies on `str::starts_with` with a `&str` pattern: whether `p` is a
/// prefix of `s`.
#[verifier::external_body]
fn starts_with(s: &str, p: &str) -> (r: bool)
    ensures
        r == has_prefix(s@, p@),
{
    s.starts_with(p)
}

/// The name to query for the record of `name`: `name` itself when it already
/// begins with the `_esni.` label, else `name` under that label.
pub fn prefix_esni(name: &str) -> (r: String)
    ensures
        r@ == if has_prefix(name@, "_esni."@) {
            name@
        } else {
            "_esni."@ + name@
        },
{
    if starts_with(name, "_esni.") {
        name.to_owned()
    } else {
        let mut r = "_esni.".to_owned();
        r.append(name);
        r
    }
}

} // verus!
