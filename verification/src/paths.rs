//! Path handling: extension, relative path, test-target detection, and the
//! ordering of paths. The `std::path` operations are called, not rebuilt.
use vstd::prelude::*;
use vstd::string::{StringSliceAdditionalSpecFns, StringExecFns};
use crate::text::{contains_bytes, contains_slice};

verus! {

/// What `std::path::Path::extension` gives for `path`, as text.
pub uninterp spec fn path_extension(path: Seq<char>) -> Option<Seq<char>>;

/// What `std::path::Path::strip_prefix` gives for `path` and `base`, as text.
pub uninterp spec fn path_strip_prefix(path: Seq<char>, base: Seq<char>) -> Option<Seq<char>>;

/// `std::path::Path::cmp` of two paths: -1, 0 or 1 for less, equal, greater.
pub uninterp spec fn path_order(a: Seq<char>, b: Seq<char>) -> i8;

/// `std::path::Path` equality (component-wise) of two paths.
pub uninterp spec fn path_equal(a: Seq<char>, b: Seq<char>) -> bool;

/// What `str::to_lowercase` gives for `s`.
pub uninterp spec fn lowercase(s: Seq<char>) -> Seq<char>;

/// What `std::path::Path::join` gives for `base` and `part`, as text.
pub uninterp spec fn path_join(base: Seq<char>, part: Seq<char>) -> Seq<char>;

/// What `std::path::Path::with_extension` gives for `path` and `ext`, as text.
pub uninterp spec fn path_with_extension(path: Seq<char>, ext: Seq<char>) -> Seq<char>;

/// The extension of `p`, as `Path::extension` defines it. Claims only that
/// the result is the named result for `p`.
#[verifier::external_body]
pub(crate) fn ext_of(p: &str) -> (res: Option<&str>)
    ensures
        match res {
            Some(e) => path_extension(p@) == Some(e@),
            None => path_extension(p@) is None,
        },
{
    std::path::Path::new(p).extension().and_then(|e| e.to_str())
}

/// `Path::strip_prefix` of `path` by `base`, as text. Claims only that the
/// result is the named result for the two paths.
#[verifier::external_body]
fn strip_prefix(path: &str, base: &str) -> (res: Option<String>)
    ensures
        match res {
            Some(r) => path_strip_prefix(path@, base@) == Some(r@),
            None => path_strip_prefix(path@, base@) is None,
        },
{
    std::path::Path::new(path).strip_prefix(base).ok().map(|r| r.to_string_lossy().into_owned())
}

/// `Path::cmp` of two paths as -1, 0 or 1. Claims that the result is the
/// named result and one of those three values, that comparing the other way
/// round gives the opposite result (`Ord` is antisymmetric), and that it is
/// 0 exactly when the paths are equal (`Ord` agrees with `PartialEq`).
/// Transitivity, which relates three paths, is not a fact about one call.
#[verifier::external_body]
pub(crate) fn compare_paths(a: &str, b: &str) -> (res: i8)
    ensures
        res == path_order(a@, b@),
        -1 <= res <= 1,
        path_order(b@, a@) == -res,
        (res == 0) == path_equal(a@, b@),
{
    match std::path::Path::new(a).cmp(std::path::Path::new(b)) {
        core::cmp::Ordering::Less => -1,
        core::cmp::Ordering::Equal => 0,
        core::cmp::Ordering::Greater => 1,
    }
}

/// `Path` equality of two paths. Claims only that the result is the named
/// result.
#[verifier::external_body]
pub(crate) fn paths_equal(a: &str, b: &str) -> (res: bool)
    ensures
        res == path_equal(a@, b@),
{
    std::path::Path::new(a) == std::path::Path::new(b)
}

/// `Path::join` of `base` and `part`, as text. Claims only that the result
/// is the named result for the two paths.
#[verifier::external_body]
pub(crate) fn join_path(base: &str, part: &str) -> (res: String)
    ensures
        res@ == path_join(base@, part@),
{
    std::path::Path::new(base).join(part).to_string_lossy().into_owned()
}

/// `Path::with_extension` of `path` and `ext`, as text. Claims only that the
/// result is the named result for the path and the extension. `ext` holds
/// no path separator, on which the call panics.
#[verifier::external_body]
pub(crate) fn with_extension(path: &str, ext: &str) -> (res: String)
    requires
        !ext@.contains('/'),
        !ext@.contains('\\'),
    ensures
        res@ == path_with_extension(path@, ext@),
{
    std::path::Path::new(path).with_extension(ext).to_string_lossy().into_owned()
}

/// `str::to_lowercase` of `s`. Claims only that the result is the named
/// result.
#[verifier::external_body]
pub(crate) fn to_lowercase(s: &str) -> (res: String)
    ensures
        res@ == lowercase(s@),
{
    s.to_lowercase()
}

/// `path` relative to `root`: with the root stripped when it is a prefix,
/// unchanged otherwise.
pub open spec fn relative_path(root: Seq<char>, path: Seq<char>) -> Seq<char> {
    match path_strip_prefix(path, root) {
        Some(r) => r,
        None => path,
    }
}

pub fn relative_to(root: &str, file: &str) -> (res: String)
    ensures
        res@ == relative_path(root@, file@),
{
    match strip_prefix(file, root) {
        Some(r) => r,
        None => String::from_str(file),
    }
}

/// `suffix` ends `b`.
pub open spec fn ends_with_bytes(b: Seq<u8>, suffix: Seq<u8>) -> bool {
    suffix.len() <= b.len() && b.subrange(b.len() - suffix.len(), b.len() as int) == suffix
}

fn ends_with_slice(b: &[u8], suffix: &[u8]) -> (res: bool)
    ensures
        res == ends_with_bytes(b@, suffix@),
{
    if suffix.len() > b.len() {
        return false;
    }
    let off = b.len() - suffix.len();
    let mut i: usize = 0;
    while i < suffix.len()
        invariant
            off + suffix@.len() == b@.len(),
            b@.len() == b.len(),
            i <= suffix@.len(),
            forall|t: int| 0 <= t < i ==> b@[off + t] == suffix@[t],
        decreases suffix@.len() - i,
    {
        if b[off + i] != suffix[i] {
            assert(b@.subrange(off as int, b@.len() as int)[i as int] != suffix@[i as int]);
            return false;
        }
        i += 1;
    }
    assert(b@.subrange(off as int, b@.len() as int) =~= suffix@);
    true
}

/// The lowercased path text `b` names a test target.
pub open spec fn names_test_target(b: Seq<u8>) -> bool {
    ||| contains_bytes(b, "/test".spec_bytes())
    ||| contains_bytes(b, "tests/".spec_bytes())
    ||| contains_bytes(b, "androidtest".spec_bytes())
    ||| contains_bytes(b, "uitest".spec_bytes())
    ||| ends_with_bytes(b, "test.swift".spec_bytes())
    ||| ends_with_bytes(b, "tests.swift".spec_bytes())
    ||| ends_with_bytes(b, "test.kt".spec_bytes())
    ||| ends_with_bytes(b, "tests.kt".spec_bytes())
    ||| contains_bytes(b, "spec.kt".spec_bytes())
    ||| contains_bytes(b, "/mock".spec_bytes())
    ||| contains_bytes(b, "fixtures".spec_bytes())
}

/// True if the already lowercased path text looks like a test target.
pub fn is_test_path(lower: &str) -> (res: bool)
    ensures
        res == names_test_target(lower.spec_bytes()),
{
    let s = lower.as_bytes();
    contains_slice(s, "/test".as_bytes()) || contains_slice(s, "tests/".as_bytes())
        || contains_slice(s, "androidtest".as_bytes()) || contains_slice(s, "uitest".as_bytes())
        || ends_with_slice(s, "test.swift".as_bytes()) || ends_with_slice(
        s,
        "tests.swift".as_bytes(),
    ) || ends_with_slice(s, "test.kt".as_bytes()) || ends_with_slice(s, "tests.kt".as_bytes())
        || contains_slice(s, "spec.kt".as_bytes()) || contains_slice(s, "/mock".as_bytes())
        || contains_slice(s, "fixtures".as_bytes())
}

/// The path, lowercased, names a test target.
pub open spec fn is_test_path_spec(path: Seq<char>) -> bool {
    names_test_target(vstd::utf8::encode_utf8(lowercase(path)))
}

/// True if the path looks like a test target.
pub fn is_test_file(p: &str) -> (res: bool)
    ensures
        res == is_test_path_spec(p@),
{
    let lower = to_lowercase(p);
    is_test_path(lower.as_str())
}

} // verus!
