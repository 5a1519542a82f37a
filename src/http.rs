//! The decisions of the smart HTTP transport: request URLs and the
//! content type that marks a smart server.
use crate::bytes::SLASH;
use vstd::prelude::*;
use vstd::string::{StringExecFns, StringSliceAdditionalSpecFns};

verus! {

/// Whether the last byte of `s` is a slash.
pub open spec fn ends_with_slash(s: &str) -> bool {
    s.spec_bytes().len() > 0 && s.spec_bytes().last() == SLASH
}

/// Joins `suffix` to `base` with exactly the one slash that `base` lacks.
pub fn append_url(base: &str, suffix: &str) -> (r: String)
    ensures
        ends_with_slash(base) ==> r@ == base@ + suffix@,
        !ends_with_slash(base) ==> r@ == base@ + seq!['/'] + suffix@,
{
    let b = base.as_bytes();
    let mut out = String::from_str(base);
    if !(b.len() > 0 && b[b.len() - 1] == SLASH) {
        let slash = "/";
        proof {
            reveal_strlit("/");
        }
        out.append(slash);
    }
    out.append(suffix);
    out
}

/// The header line that a smart server sends for `service` and `kind`.
pub open spec fn content_type_line(service: Seq<char>, kind: Seq<char>) -> Seq<char> {
    "Content-Type: application/x-"@ + service + seq!['-'] + kind
}

/// Whether one of `header_lines` announces the smart protocol for `service`
/// and `kind` (`advertisement` or `result`); a server that does not speaks
/// the dumb protocol.
pub fn has_content_type(service: &str, kind: &str, header_lines: &Vec<String>) -> (r: bool)
    ensures
        r == exists|i: int|
            0 <= i < header_lines@.len() && (#[trigger] header_lines@[i])@ == content_type_line(service@, kind@),
{
    let prefix = "Content-Type: application/x-";
    let dash = "-";
    proof {
        reveal_strlit("-");
    }
    let mut wanted = String::from_str(prefix);
    wanted.append(service);
    wanted.append(dash);
    wanted.append(kind);
    assert(wanted@ == content_type_line(service@, kind@));
    let mut i: usize = 0;
    while i < header_lines.len()
        invariant
            i <= header_lines@.len(),
            wanted@ == content_type_line(service@, kind@),
            forall|j: int| 0 <= j < i ==> (#[trigger] header_lines@[j])@ != wanted@,
        decreases header_lines@.len() - i,
    {
        if header_lines[i] == wanted {
            return true;
        }
        i = i + 1;
    }
    false
}

} // verus!
