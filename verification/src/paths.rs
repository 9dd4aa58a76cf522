//! File paths: showing them relative to a directory, and finding the root a
//! path belongs to (`std::path` component semantics).
use vstd::prelude::*;
use crate::encoding::{opt_string_view, TextEncoding};

verus! {

/// What `Path::strip_prefix` leaves of `path` after the directory `base`
/// (component-wise, by the path syntax of the platform the program is built
/// for), if `base` is a prefix of it.
pub uninterp spec fn path_strip_prefix(path: Seq<char>, base: Seq<char>) -> Option<Seq<char>>;

/// Whether `Path::starts_with` holds: `base` is a component-wise prefix of
/// `path` (by the path syntax of the platform the program is built for).
pub uninterp spec fn path_starts_with(path: Seq<char>, base: Seq<char>) -> bool;

/// `std::path::Path::strip_prefix`, with the remainder as a string.
#[verifier::external_body]
fn strip_path_prefix(path: &str, base: &str) -> (r: Option<String>)
    ensures
        opt_string_view(r) == path_strip_prefix(path@, base@),
{
    std::path::Path::new(path).strip_prefix(base).ok().map(|p| p.to_string_lossy().into_owned())
}

/// `std::path::Path::starts_with`.
#[verifier::external_body]
fn path_has_prefix(path: &str, base: &str) -> (r: bool)
    ensures
        r == path_starts_with(path@, base@),
{
    std::path::Path::new(path).starts_with(base)
}

/// How a file path is shown relative to `dir`.
pub open spec fn relative_view(dir: Seq<char>, file: Seq<char>) -> Seq<char> {
    match path_strip_prefix(file, dir) {
        Some(rest) => rest,
        None => file,
    }
}

/// Shows `file` relative to the directory `cwd` when it lies under it; falls
/// back to the path as given.
pub fn relativize(cwd: &str, file: &str) -> (r: String)
    ensures
        r@ == relative_view(cwd@, file@),
{
    match strip_path_prefix(file, cwd) {
        Some(rest) => rest,
        None => crate::text::str_to_string(file),
    }
}

/// The index of the first `true` entry, if any.
pub open spec fn first_true(s: Seq<bool>) -> Option<int> {
    if exists|k: int| 0 <= k < s.len() && #[trigger] s[k] {
        Some(choose|k: int| 0 <= k < s.len() && #[trigger] s[k] && forall|j: int| 0 <= j < k ==> !#[trigger] s[j])
    } else {
        None
    }
}

/// Whether `path` lies under each root, in order.
pub open spec fn under_roots(roots: Seq<(String, TextEncoding)>, path: Seq<char>) -> Seq<bool> {
    Seq::new(roots.len(), |k: int| path_starts_with(path, roots[k].0@))
}

/// The index of the first root that `path` lies under.
pub open spec fn first_root(roots: Seq<(String, TextEncoding)>, path: Seq<char>) -> Option<int> {
    first_true(under_roots(roots, path))
}

/// Given, for each root in order, whether the path lies under it, the
/// encoding of the first root that it lies under (`None` when none).
pub fn first_root_encoding(roots: &[(String, TextEncoding)], under: &[bool]) -> (r: Option<TextEncoding>)
    requires
        under@.len() == roots@.len(),
    ensures
        r == (match first_true(under@) {
            Some(k) => Some(roots@[k].1),
            None => None::<TextEncoding>,
        }),
{
    let mut k: usize = 0;
    while k < under.len()
        invariant
            k <= under.len(),
            under@.len() == roots@.len(),
            forall|j: int| 0 <= j < k ==> !#[trigger] under@[j],
        decreases under.len() - k,
    {
        if under[k] {
            proof {
                let w = first_true(under@);
                assert(under@[k as int]);
                assert(w is Some);
                let c = w->0;
                if c < k {
                    assert(!under@[c]);
                } else if c > k {
                    assert(!under@[k as int]);
                }
            }
            return Some(roots[k].1);
        }
        k = k + 1;
    }
    None
}

/// The encoding of the first configured root that `path` lies under, or
/// `None` when it lies under none (such a path is not indexed).
pub fn root_encoding(roots: &[(String, TextEncoding)], path: &str) -> (r: Option<TextEncoding>)
    ensures
        r == (match first_root(roots@, path@) {
            Some(k) => Some(roots@[k].1),
            None => None::<TextEncoding>,
        }),
{
    let mut under: Vec<bool> = Vec::new();
    let mut k: usize = 0;
    while k < roots.len()
        invariant
            k <= roots.len(),
            under@.len() == k,
            forall|j: int| 0 <= j < k ==> #[trigger] under@[j] == path_starts_with(path@, roots@[j].0@),
        decreases roots.len() - k,
    {
        under.push(path_has_prefix(path, roots[k].0.as_str()));
        k = k + 1;
    }
    assert(under@ =~= under_roots(roots@, path@));
    first_root_encoding(roots, under.as_slice())
}

} // verus!
