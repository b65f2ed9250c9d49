//! File names of audio paths.
use vstd::prelude::*;

verus! {

/// What `std::path::Path::file_stem` gives for the path, as text.
pub uninterp spec fn path_file_stem(path: Seq<char>) -> Option<Seq<char>>;

/// What `std::path::Path::extension` gives for the path, as text.
pub uninterp spec fn path_extension(path: Seq<char>) -> Option<Seq<char>>;

/// `Path::file_stem` of `path`, read back as text: the file name without its
/// last extension. A part of UTF-8 text is UTF-8, so `to_str` keeps every stem.
#[verifier::external_body]
pub(crate) fn file_stem(path: &str) -> (r: Option<&str>)
    ensures
        r is Some <==> path_file_stem(path@) is Some,
        r matches Some(s) ==> s@ == path_file_stem(path@)->0,
{
    match std::path::Path::new(path).file_stem() {
        Some(s) => s.to_str(),
        None => None,
    }
}

/// `Path::extension` of `path`, read back as text: what follows the last `.`
/// of the file name. A part of UTF-8 text is UTF-8, so `to_str` keeps it.
#[verifier::external_body]
pub(crate) fn extension(path: &str) -> (r: Option<&str>)
    ensures
        r is Some <==> path_extension(path@) is Some,
        r matches Some(s) ==> s@ == path_extension(path@)->0,
{
    match std::path::Path::new(path).extension() {
        Some(s) => s.to_str(),
        None => None,
    }
}

/// A Windows verbatim path (`\\?\...`), which `Path::join` normalizes
/// (dropping `.` and `..`) when something is joined onto it.
pub open spec fn has_verbatim_prefix(p: Seq<char>) -> bool {
    p.len() >= 4 && p[0] == '\\' && p[1] == '\\' && p[2] == '?' && p[3] == '\\'
}

/// `r` is `name` appended to `base` as `Path::join` documents it: onto an
/// empty base the name alone; directly after a trailing `/`; after one
/// separator (`/`, or `\` on Windows) onto a base that ends in no separator
/// and no `:`; onto a base that ends in `\` or `:` either directly or after
/// one separator, as the platform reads those characters.
pub open spec fn joined_with(base: Seq<char>, name: Seq<char>, r: Seq<char>) -> bool {
    if base.len() == 0 {
        r == name
    } else if base.last() == '/' {
        r == base + name
    } else if base.last() != '\\' && base.last() != ':' {
        ||| r == base + seq!['/'] + name
        ||| r == base + seq!['\\'] + name
    } else {
        ||| r == base + name
        ||| r == base + seq!['/'] + name
        ||| r == base + seq!['\\'] + name
    }
}

/// `Path::join` of a relative file name onto `base`, read back as text: the
/// name is appended after `base`, after a separator where `base` does not
/// already end in one. The separator is the platform's, and whether `\` and
/// `:` end a base in a separator or a drive depends on the platform, so those
/// cases are left open between the forms; onto a Windows verbatim path the
/// join also normalizes `base`, so nothing is stated of such a base.
#[verifier::external_body]
fn join_file_name(base: &str, name: &str) -> (r: String)
    requires
        name@.len() > 0,
        forall|i: int| 0 <= i < name@.len() ==> (#[trigger] name@[i] != '/' && name@[i] != '\\' && name@[i] != ':'),
    ensures
        !has_verbatim_prefix(base@) ==> joined_with(base@, name@, r@),
{
    std::path::Path::new(base).join(name).to_string_lossy().into_owned()
}

/// The file a project is kept in: `project.jonnah` inside `path` when `path`
/// is a directory, else `path` itself.
pub fn normalise_project_path(path: &str, is_dir: bool) -> (r: String)
    ensures
        !is_dir ==> r@ == path@,
        is_dir && !has_verbatim_prefix(path@) ==> joined_with(path@, "project.jonnah"@, r@),
{
    if is_dir {
        let name = "project.jonnah";
        proof {
            reveal_strlit("project.jonnah");
        }
        join_file_name(path, name)
    } else {
        String::from_str(path)
    }
}

} // verus!
