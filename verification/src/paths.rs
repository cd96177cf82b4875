//! The calls into `std::path` the library makes. How a path splits into
//! components depends on the platform's separators: `/` everywhere, `\` and
//! drive or server prefixes on Windows. A path with no `\`, no `:` and no
//! leading `//` splits the same way on every platform; for those the
//! wrappers state the result exactly, following the documentation of
//! `Path::components`, `Path::file_name` and `Path::extension`, and for
//! other paths only what holds on every platform.
use vstd::prelude::*;

use crate::text::{contains_str, has_prefix, split_char};

verus! {

/// A path that every platform splits at `/` alone: no `\`, no `:` (no
/// drive prefix) and no leading `//` (no server prefix).
pub open spec fn portable_path(p: Seq<char>) -> bool {
    !p.contains('\\') && !p.contains(':') && !has_prefix(p, "//"@)
}

/// The parts between separators that name components: empty parts and `.`
/// are dropped.
pub open spec fn kept_parts(parts: Seq<Seq<char>>) -> Seq<Seq<char>>
    decreases parts.len(),
{
    if parts.len() == 0 {
        seq![]
    } else {
        let rest = kept_parts(parts.drop_last());
        let x = parts.last();
        if x.len() == 0 || x == "."@ {
            rest
        } else {
            rest.push(x)
        }
    }
}

/// The components of a portable path other than the root, as text:
/// repeated separators and `.` are normalized away, except a `.` that
/// begins a relative path.
pub open spec fn path_parts(p: Seq<char>) -> Seq<Seq<char>> {
    let parts = split_char(p, '/');
    if !has_prefix(p, "/"@) && parts.len() > 0 && parts[0] == "."@ {
        seq!["."@] + kept_parts(parts)
    } else {
        kept_parts(parts)
    }
}

/// The file name of a portable path: its last component when that is a
/// normal one (not `.`, `..` or the root).
pub open spec fn spec_file_name(p: Seq<char>) -> Option<Seq<char>> {
    let c = path_parts(p);
    if c.len() > 0 && c.last() != "."@ && c.last() != ".."@ {
        Some(c.last())
    } else {
        None
    }
}

/// Index of the last `.` in a name.
pub open spec fn last_dot(n: Seq<char>) -> Option<int>
    decreases n.len(),
{
    if n.len() == 0 {
        None
    } else if n.last() == '.' {
        Some(n.len() - 1)
    } else {
        last_dot(n.drop_last())
    }
}

/// The extension of a file name: what follows its last `.`, when something
/// comes before that `.`.
pub open spec fn name_extension(n: Seq<char>) -> Option<Seq<char>> {
    match last_dot(n) {
        Some(i) => if i > 0 {
            Some(n.skip(i + 1))
        } else {
            None
        },
        None => None,
    }
}

/// The extension of a portable path.
pub open spec fn spec_extension(p: Seq<char>) -> Option<Seq<char>> {
    match spec_file_name(p) {
        Some(n) => name_extension(n),
        None => None,
    }
}

/// Calls `Path::file_name` on the path and keeps it when it is UTF-8.
/// Claimed: for a portable path, the name is `spec_file_name`; for any path,
/// a name that comes back is non-empty, occurs in the path, and is neither
/// `.` nor `..`.
#[verifier::external_body]
pub(crate) fn file_name_of(path: &str) -> (r: Option<String>)
    ensures
        r matches Some(n) ==> n@.len() > 0 && contains_str(path@, n@) && n@ != "."@ && n@
            != ".."@,
        portable_path(path@) ==> match r {
            Some(n) => spec_file_name(path@) == Some(n@),
            None => spec_file_name(path@) is None,
        },
{
    let name = std::path::Path::new(path).file_name()?;
    Some(name.to_str()?.to_string())
}

/// Calls `Path::extension` on the path and keeps it when it is UTF-8.
/// Claimed: for a portable path, the extension is `spec_extension`; for any
/// path, an extension that comes back is the part of the file name after a
/// `.`, so the path holds that `.` followed by it.
#[verifier::external_body]
pub(crate) fn extension_of(path: &str) -> (r: Option<String>)
    ensures
        r matches Some(e) ==> contains_str(path@, seq!['.'] + e@),
        portable_path(path@) ==> match r {
            Some(e) => spec_extension(path@) == Some(e@),
            None => spec_extension(path@) is None,
        },
{
    let ext = std::path::Path::new(path).extension()?;
    Some(ext.to_str()?.to_string())
}

/// Calls `Path::components` and keeps the text of each component.
/// Claimed: for a portable path, the components are the root (written as
/// the platform's separator, `/` or `\`) when the path starts with `/`,
/// then `path_parts`; for any path, each is a separator or occurs in the
/// path.
#[verifier::external_body]
pub(crate) fn components_of(path: &str) -> (r: Vec<String>)
    ensures
        forall|i: int|
            0 <= i < r@.len() ==> #[trigger] r@[i]@ == "/"@ || r@[i]@ == "\\"@ || contains_str(
                path@,
                r@[i]@,
            ),
        portable_path(path@) && has_prefix(path@, "/"@) ==> r@.len() == 1 + path_parts(
            path@,
        ).len() && (r@[0]@ == "/"@ || r@[0]@ == "\\"@) && forall|i: int|
            0 <= i < path_parts(path@).len() ==> #[trigger] r@[i + 1]@ == path_parts(path@)[i],
        portable_path(path@) && !has_prefix(path@, "/"@) ==> r@.len() == path_parts(path@).len()
            && forall|i: int|
            0 <= i < path_parts(path@).len() ==> #[trigger] r@[i]@ == path_parts(path@)[i],
{
    std::path::Path::new(path).components().map(|c| c.as_os_str().to_string_lossy().into_owned()).collect()
}

} // verus!
