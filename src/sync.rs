//! Decisions taken while synchronising the host database with a WebDAV
//! server: when a folder counts as created, and how a failed request is
//! reported.
use vstd::prelude::*;
use crate::text::{chars_of, string_of_range, trim, trim_bounds};

verus! {

/// How much of a server's reply an error message quotes, in characters.
pub const BODY_EXCERPT_CHARS: usize = 180;

/// The first `n` characters of `s`, or all of it when it is shorter.
pub open spec fn prefix_upto(s: Seq<char>, n: nat) -> Seq<char> {
    if s.len() <= n {
        s
    } else {
        s.take(n as int)
    }
}

/// `head`, followed by the start of the reply `body` in parentheses when the
/// reply holds more than white space.
pub open spec fn with_excerpt_spec(head: Seq<char>, body: Seq<char>) -> Seq<char> {
    let b = trim(body);
    if b.len() == 0 {
        head
    } else {
        head + " ("@ + prefix_upto(b, BODY_EXCERPT_CHARS as nat) + ")"@
    }
}

/// The message for a failed request: `head` (what failed, and the status),
/// with an excerpt of the server's reply `body`.
pub fn with_body_excerpt(head: &str, body: &str) -> (r: String)
    ensures
        r@ == with_excerpt_spec(head@, body@),
{
    let cs = chars_of(body);
    assert(cs@.subrange(0, cs@.len() as int) =~= body@);
    let (a, b) = trim_bounds(cs.as_slice(), 0, cs.len());
    let mut m = String::from_str(head);
    if a == b {
        return m;
    }
    let end = if b - a <= BODY_EXCERPT_CHARS {
        b
    } else {
        a + BODY_EXCERPT_CHARS
    };
    let excerpt = string_of_range(cs.as_slice(), a, end);
    assert(excerpt@ =~= prefix_upto(cs@.subrange(a as int, b as int), BODY_EXCERPT_CHARS as nat));
    m.append(" (");
    m.append(excerpt.as_str());
    m.append(")");
    m
}

/// Whether a `MKCOL` answered with `status` leaves the collection in place:
/// it was created (a success status), or it already existed (405).
pub fn mkcol_succeeded(status: u16) -> (r: bool)
    ensures
        r == ((200 <= status && status < 300) || status == 405),
{
    (200 <= status && status < 300) || status == 405
}

/// Whether a download answered with `status` means that the file is not on
/// the server, so that the older file name is tried.
pub fn is_not_found(status: u16) -> (r: bool)
    ensures
        r == (status == 404),
{
    status == 404
}

} // verus!
