//! Paths as UTF-8 text, computed by `camino`.

use camino::Utf8Path;
use vstd::prelude::*;

verus! {

/// `path` adjoined to `base`, with `/` as the separator: a `path` that starts
/// at the root replaces `base`; otherwise a separator is put between the two
/// unless `base` is empty or already ends in one.
pub open spec fn joined(base: Seq<char>, path: Seq<char>) -> Seq<char> {
    if path.len() > 0 && path[0] == '/' {
        path
    } else if base.len() == 0 || base.last() == '/' {
        base + path
    } else {
        base + seq!['/'] + path
    }
}

/// What `camino::Utf8Path::parent` gives for `path` on the target that the
/// library is built for: the path without its final component, or `None`
/// where the path ends in a root or is empty.
pub uninterp spec fn path_parent(path: Seq<char>) -> Option<Seq<char>>;

/// `camino::Utf8Path::join`, on targets whose separator is `/`.
///
/// Trusted: the result is `path` adjoined to `base` as [`joined`] says, which
/// is what `std::path::PathBuf::push` does there.
#[verifier::external_body]
pub(crate) fn join(base: &str, path: &str) -> (r: String)
    ensures
        r@ == joined(base@, path@),
{
    Utf8Path::new(base).join(path).into_string()
}

/// `camino::Utf8Path::parent`.
///
/// Trusted: on one target the result is a function of the path's text
/// alone, named [`path_parent`]; nothing more is claimed of it.
#[verifier::external_body]
pub(crate) fn parent(path: &str) -> (r: Option<String>)
    ensures
        r is Some <==> path_parent(path@) is Some,
        r matches Some(p) ==> p@ == path_parent(path@)->0,
{
    match Utf8Path::new(path).parent() {
        Some(p) => Some(p.as_str().to_owned()),
        None => None,
    }
}

} // verus!
