//! Which link targets the router navigates to itself.

use vstd::prelude::*;

verus! {

/// Whether a link target is an internal path: it starts with `/` but not
/// with `//`.
pub open spec fn internal_path(path: Seq<char>) -> bool {
    &&& path.len() >= 1 && path[0] == '/'
    &&& !(path.len() >= 2 && path[1] == '/')
}

/// Validates that a path is safe for internal navigation.
///
/// Returns `true` only if the path starts with `/` and is NOT protocol-relative (`//`).
pub fn is_internal_path(path: &str) -> (internal: bool)
    ensures
        internal == internal_path(path@),
{
    let n = path.unicode_len();
    if n >= 1 && path.get_char(0) == '/' {
        !(n >= 2 && path.get_char(1) == '/')
    } else {
        false
    }
}

/// Whether a link target is internal depends only on its first two
/// characters: whatever follows them (a query string, a fragment, any text)
/// does not change the answer.
pub proof fn lemma_internal_path_by_prefix(head: Seq<char>, rest1: Seq<char>, rest2: Seq<char>)
    requires
        head.len() == 2,
    ensures
        internal_path(head + rest1) == internal_path(head + rest2),
{
    assert((head + rest1)[0] == head[0] && (head + rest1)[1] == head[1]);
    assert((head + rest2)[0] == head[0] && (head + rest2)[1] == head[1]);
}

/// A target that starts with `/` followed by anything but a second `/` is
/// internal, whatever comes after; one that starts with `//`, or does not
/// start with `/`, is not.
pub proof fn lemma_internal_path_cases(second: char, rest: Seq<char>, other: Seq<char>)
    ensures
        internal_path(seq!['/']),
        second != '/' ==> internal_path(seq!['/', second] + rest),
        !internal_path(seq!['/', '/'] + rest),
        (other.len() == 0 || other[0] != '/') ==> !internal_path(other),
{
    assert((seq!['/', second] + rest)[0] == '/');
    assert((seq!['/', second] + rest)[1] == second);
    assert((seq!['/', '/'] + rest)[1] == '/');
}

} // verus!
