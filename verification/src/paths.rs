use vstd::prelude::*;

use crate::order::string_views;
use crate::text::opt_chars;

verus! {

/// `std::path::Path::is_absolute` of the path `p`.
pub uninterp spec fn path_is_absolute(p: Seq<char>) -> bool;

/// `std::path::Path::parent` of the path `p`.
pub uninterp spec fn path_parent(p: Seq<char>) -> Option<Seq<char>>;

/// `std::path::Path::join` of `base` and `p`.
pub uninterp spec fn path_join(base: Seq<char>, p: Seq<char>) -> Seq<char>;

/// `std::path::Path::file_name` of `p`.
pub uninterp spec fn path_file_name(p: Seq<char>) -> Option<Seq<char>>;

/// `std::path::Path::with_file_name` of `p` and `name`.
pub uninterp spec fn path_with_file_name(p: Seq<char>, name: Seq<char>) -> Seq<char>;

/// `==` on `std::path::Path`: the two paths have the same components.
pub uninterp spec fn path_equivalent(a: Seq<char>, b: Seq<char>) -> bool;

/// `std::path::Path::is_absolute`: whether `p` is absolute. Stated through
/// `path_is_absolute`, whose value the std documentation gives by platform.
#[verifier::external_body]
pub fn is_absolute(p: &str) -> (b: bool)
    ensures
        b == path_is_absolute(p@),
{
    std::path::Path::new(p).is_absolute()
}

/// `std::path::Path::parent`: `p` without its last component, if it has
/// one. Stated through `path_parent`.
#[verifier::external_body]
pub fn parent(p: &str) -> (r: Option<String>)
    ensures
        opt_chars(r) == path_parent(p@),
{
    match std::path::Path::new(p).parent() {
        Some(q) => Some(q.to_string_lossy().into_owned()),
        None => None,
    }
}

/// `std::path::Path::join`: `p` appended to `base` (or `p` alone where it
/// is absolute). Stated through `path_join`.
#[verifier::external_body]
pub fn join(base: &str, p: &str) -> (r: String)
    ensures
        r@ == path_join(base@, p@),
{
    std::path::Path::new(base).join(p).to_string_lossy().into_owned()
}

/// `std::path::Path::file_name`: the last component of `p`, unless it is
/// `..` or there is none. Stated through `path_file_name`.
#[verifier::external_body]
pub fn file_name(p: &str) -> (r: Option<String>)
    ensures
        opt_chars(r) == path_file_name(p@),
{
    match std::path::Path::new(p).file_name() {
        Some(n) => Some(n.to_string_lossy().into_owned()),
        None => None,
    }
}

/// `std::path::Path::with_file_name`: `p` with its file name replaced by
/// `name`. Stated through `path_with_file_name`.
#[verifier::external_body]
pub fn with_file_name(p: &str, name: &str) -> (r: String)
    ensures
        r@ == path_with_file_name(p@, name@),
{
    std::path::Path::new(p).with_file_name(name).to_string_lossy().into_owned()
}

/// `==` on `std::path::Path`. Stated through `path_equivalent`, with the
/// reflexivity that `Eq` documents: a path equals itself.
#[verifier::external_body]
pub fn paths_equal(a: &str, b: &str) -> (r: bool)
    ensures
        r == path_equivalent(a@, b@),
        a@ == b@ ==> r,
{
    std::path::Path::new(a) == std::path::Path::new(b)
}


/// `std::path::Path::components` of `p`, each component as text.
pub uninterp spec fn path_component_list(p: Seq<char>) -> Seq<Seq<char>>;

/// `std::path::Path::ancestors` of `p`, each ancestor as text: `p` itself,
/// then its parent, and so on.
pub uninterp spec fn path_ancestor_list(p: Seq<char>) -> Seq<Seq<char>>;

/// `std::path::Path::extension` of `p`.
pub uninterp spec fn path_extension(p: Seq<char>) -> Option<Seq<char>>;

/// `std::path::Path::components`: the components of `p` in order, the root
/// as `/`. Stated through `path_component_list`.
#[verifier::external_body]
pub fn components(p: &str) -> (v: Vec<String>)
    ensures
        string_views(v@) == path_component_list(p@),
{
    let mut v = Vec::new();
    for c in std::path::Path::new(p).components() {
        v.push(c.as_os_str().to_string_lossy().into_owned());
    }
    v
}

/// `std::path::Path::ancestors`: `p`, then each of its parents in turn.
/// Stated through `path_ancestor_list`.
#[verifier::external_body]
pub fn ancestors(p: &str) -> (v: Vec<String>)
    ensures
        string_views(v@) == path_ancestor_list(p@),
{
    let mut v = Vec::new();
    for a in std::path::Path::new(p).ancestors() {
        v.push(a.to_string_lossy().into_owned());
    }
    v
}

/// `std::path::Path::extension`: the part of the file name after its last
/// dot, if any. Stated through `path_extension`.
#[verifier::external_body]
pub fn extension(p: &str) -> (r: Option<String>)
    ensures
        opt_chars(r) == path_extension(p@),
{
    match std::path::Path::new(p).extension() {
        Some(e) => Some(e.to_string_lossy().into_owned()),
        None => None,
    }
}

} // verus!

verus! {

/// `<` on `std::path::Path`: `a` comes before `b` in the order of their
/// components.
pub uninterp spec fn path_precedes(a: Seq<char>, b: Seq<char>) -> bool;

/// `<` on `std::path::Path`. Stated through `path_precedes`, with what the
/// `Ord` documentation promises of every implementation, for the pair
/// compared: exactly one of `a < b`, `a == b` and `b < a` holds, and `<` is
/// transitive through either side.
#[verifier::external_body]
pub fn path_less(a: &str, b: &str) -> (r: bool)
    ensures
        r == path_precedes(a@, b@),
        r ==> !path_precedes(b@, a@) && !path_equivalent(a@, b@),
        !r ==> path_precedes(b@, a@) || path_equivalent(a@, b@),
        r ==> forall|c: Seq<char>| #[trigger] path_precedes(b@, c) ==> path_precedes(a@, c),
        r ==> forall|c: Seq<char>| #[trigger] path_precedes(c, a@) ==> path_precedes(c, b@),
{
    std::path::Path::new(a) < std::path::Path::new(b)
}

} // verus!
