//! Which files are scanned: Rust sources, the `src/` directory of a
//! workspace root, and the members a workspace manifest lists.
use vstd::prelude::*;

use crate::config::{get, get_exec, lemma_values_view, toml_view, values_view, TomlModel, TomlValue};
use crate::lexis::chars_eq;
use crate::paths::{
    components_of, extension_of, file_name_of, path_parts, portable_path, spec_extension,
    spec_file_name,
};
use crate::text::{contains_char, contains_str, has_prefix, str_chars, strings_view};

verus! {

broadcast use vstd::std_specs::vec::group_vec_axioms;

/// Whether `Path::extension` of the path is `rs`: for a portable path,
/// whether its extension is `rs`; a path that does not contain `.rs` never
/// is.
pub fn is_rust_file(path: &str) -> (r: bool)
    ensures
        r ==> contains_str(path@, ".rs"@),
        portable_path(path@) ==> r == (spec_extension(path@) == Some("rs"@)),
{
    let rs = str_chars("rs");
    match extension_of(path) {
        Some(e) => {
            let ec = str_chars(e.as_str());
            let r = chars_eq(ec.as_slice(), rs.as_slice());
            proof {
                reveal_strlit("rs");
                assert(ec@ == e@);
                reveal_strlit(".rs");
                if r {
                    assert(seq!['.'] + e@ =~= ".rs"@);
                }
            }
            r
        },
        None => false,
    }
}

/// Restrict a directory scan to its `src/`: yes when the last component is
/// missing, `.` or `..`; no when it is `src` or any component is `src`;
/// yes otherwise.
pub open spec fn spec_restrict_to_src(last: Seq<char>, components: Seq<Seq<char>>) -> bool {
    if last.len() == 0 || last == "."@ || last == ".."@ {
        true
    } else if last == "src"@ {
        false
    } else if components.contains("src"@) {
        false
    } else {
        true
    }
}

/// The decision of `should_restrict_to_src` from the path's last
/// component (empty when there is none) and its components.
pub fn restrict_decision(last_component: &str, components: &[String]) -> (r: bool)
    ensures
        r == spec_restrict_to_src(last_component@, strings_view(components@)),
{
    let last = str_chars(last_component);
    let dot = str_chars(".");
    let dotdot = str_chars("..");
    let src = str_chars("src");
    if last.len() == 0 || chars_eq(last.as_slice(), dot.as_slice()) || chars_eq(
        last.as_slice(),
        dotdot.as_slice(),
    ) {
        return true;
    }
    if chars_eq(last.as_slice(), src.as_slice()) {
        return false;
    }
    !crate::text::strings_contain(components, src.as_slice())
}

/// The name `should_restrict_to_src` decides on: the file name, or nothing.
pub open spec fn last_component(p: Seq<char>) -> Seq<char> {
    match spec_file_name(p) {
        Some(n) => n,
        None => seq![],
    }
}

/// Determine if we should restrict scanning to src/ subdirectory: the
/// decision of `restrict_decision` on the last component and the components
/// `std::path` finds. For a portable path that is the decision on its file
/// name and its components; a path that contains no `src` is always
/// restricted.
pub fn should_restrict_to_src(path: &str) -> (r: bool)
    ensures
        !contains_str(path@, "src"@) ==> r,
        portable_path(path@) ==> r == spec_restrict_to_src(
            last_component(path@),
            path_parts(path@),
        ),
{
    let last = match file_name_of(path) {
        Some(n) => n,
        None => String::new(),
    };
    let comps = components_of(path);
    let r = restrict_decision(last.as_str(), comps.as_slice());
    proof {
        reveal_strlit("src");
        reveal_strlit("/");
        reveal_strlit("\\");
        if !contains_str(path@, "src"@) {
            if last@ == "src"@ {
                assert(contains_str(path@, last@));
            }
            assert forall|i: int| 0 <= i < strings_view(comps@).len() implies strings_view(
                comps@,
            )[i] != "src"@ by {
                assert(strings_view(comps@)[i] == comps@[i]@);
                if comps@[i]@ == "src"@ {
                    assert(comps@[i]@ != "/"@);
                    assert(comps@[i]@ != "\\"@);
                    assert(contains_str(path@, comps@[i]@));
                }
            }
        }
        if portable_path(path@) {
            let parts = path_parts(path@);
            let cv = strings_view(comps@);
            assert(last@ == last_component(path@));
            if has_prefix(path@, "/"@) {
                assert(cv.len() == parts.len() + 1);
                if cv.contains("src"@) {
                    let k = choose|k: int| 0 <= k < cv.len() && cv[k] == "src"@;
                    assert(cv[k] == comps@[k]@);
                    if k == 0 {
                        assert(comps@[0]@ != "src"@);
                    } else {
                        assert(comps@[(k - 1) + 1]@ == parts[k - 1]);
                        assert(parts.contains("src"@));
                    }
                }
                if parts.contains("src"@) {
                    let k = choose|k: int| 0 <= k < parts.len() && parts[k] == "src"@;
                    assert(comps@[k + 1]@ == parts[k]);
                    assert(cv[k + 1] == comps@[k + 1]@);
                    assert(cv.contains("src"@));
                }
            } else {
                assert forall|i: int| 0 <= i < cv.len() implies cv[i] == parts[i] by {
                    assert(cv[i] == comps@[i]@);
                }
                assert(cv =~= parts);
            }
        }
    }
    r
}

/// The workspace members a manifest lists that are plain paths: the
/// strings of `workspace.members` without `*` or `?`, in order; nothing when
/// there is no such array.
pub open spec fn plain_members(values: Seq<TomlModel>) -> Seq<Seq<char>>
    decreases values.len(),
{
    if values.len() == 0 {
        seq![]
    } else {
        let rest = plain_members(values.drop_last());
        match values.last() {
            TomlModel::String(s) => if s.contains('*') || s.contains('?') {
                rest
            } else {
                rest.push(s)
            },
            _ => rest,
        }
    }
}

pub open spec fn spec_workspace_members(manifest: TomlModel) -> Seq<Seq<char>> {
    match get(manifest, "workspace"@) {
        Some(w) => match get(w, "members"@) {
            Some(TomlModel::Array(a)) => plain_members(a),
            _ => seq![],
        },
        None => seq![],
    }
}

pub fn workspace_members(manifest: &TomlValue) -> (r: Vec<String>)
    ensures
        strings_view(r@) == spec_workspace_members(manifest@),
{
    let mut out: Vec<String> = Vec::new();
    let members = match get_exec(manifest, "workspace") {
        Some(w) => match get_exec(w, "members") {
            Some(TomlValue::Array(a)) => a,
            _ => {
                assert(strings_view(out@) =~= Seq::<Seq<char>>::empty());
                return out;
            },
        },
        None => {
            assert(strings_view(out@) =~= Seq::<Seq<char>>::empty());
            return out;
        },
    };
    let ghost mv = values_view(members@);
    proof {
        lemma_values_view(members@);
    }
    let mut i: usize = 0;
    assert(strings_view(out@) =~= plain_members(mv.take(0)));
    while i < members.len()
        invariant
            i <= members.len(),
            mv == values_view(members@),
            mv.len() == members.len(),
            forall|j: int| 0 <= j < members.len() ==> #[trigger] mv[j] == toml_view(members@[j]),
            strings_view(out@) == plain_members(mv.take(i as int)),
        decreases members.len() - i,
    {
        assert(mv.take(i + 1).drop_last() =~= mv.take(i as int));
        assert(mv.take(i + 1).last() == toml_view(members@[i as int]));
        match &members[i] {
            TomlValue::String(s) => {
                let c = str_chars(s.as_str());
                if !contains_char(c.as_slice(), '*') && !contains_char(c.as_slice(), '?') {
                    let ghost old_out = out@;
                    out.push(s.clone());
                    assert(strings_view(out@) =~= strings_view(old_out).push(s@));
                }
            },
            _ => {},
        }
        i += 1;
    }
    assert(mv.take(members.len() as int) =~= mv);
    out
}

} // verus!
