//! Choosing the patch format and the output file name from file paths.
//!
//! Paths are Unix paths: `/` is the only separator and a path that starts
//! with `/` is absolute. The contracts of the path wrappers hold there; on
//! Windows, `\` is a separator too and a drive prefix survives a push.
use vstd::prelude::*;

verus! {

/// The patch formats.
#[derive(Clone, Copy, Debug, PartialEq, Eq)]
pub enum PatchFormat {
    Bps,
    Ips,
    Ups,
}

/// What `std::path::Path::parent` returns for the path `p`.
pub uninterp spec fn path_parent(p: Seq<char>) -> Option<Seq<char>>;

/// What `std::path::Path::file_stem` returns for the path `p`.
pub uninterp spec fn path_file_stem(p: Seq<char>) -> Option<Seq<char>>;

/// What `std::path::Path::extension` returns for the path `p`.
pub uninterp spec fn path_extension(p: Seq<char>) -> Option<Seq<char>>;

/// The path that `std::path::PathBuf::push` makes of `base` and `name`.
pub uninterp spec fn path_pushed(base: Seq<char>, name: Seq<char>) -> Seq<char>;

/// The path that `std::path::PathBuf::add_extension` makes of `p` and `ext`.
pub uninterp spec fn path_with_added_extension(p: Seq<char>, ext: Seq<char>) -> Seq<char>;

/// Calls `Path::parent` on `path`. The result is only named: it is a
/// function of the path alone.
#[verifier::external_body]
fn parent_of(path: &str) -> (r: Option<String>)
    ensures
        (r is Some) == (path_parent(path@) is Some),
        r matches Some(s) ==> path_parent(path@) == Some(s@),
{
    match std::path::Path::new(path).parent() {
        Some(p) => Some(p.to_string_lossy().into_owned()),
        None => None,
    }
}

/// Calls `Path::file_stem` on `path`. The result is only named.
#[verifier::external_body]
fn file_stem_of(path: &str) -> (r: Option<String>)
    ensures
        (r is Some) == (path_file_stem(path@) is Some),
        r matches Some(s) ==> path_file_stem(path@) == Some(s@),
{
    match std::path::Path::new(path).file_stem() {
        Some(p) => Some(p.to_string_lossy().into_owned()),
        None => None,
    }
}

/// Calls `Path::extension` on `path`. The result is only named, but for
/// this: an extension is part of the file name, so it holds no separator.
#[verifier::external_body]
fn extension_of(path: &str) -> (r: Option<String>)
    ensures
        (r is Some) == (path_extension(path@) is Some),
        r matches Some(s) ==> path_extension(path@) == Some(s@),
        r matches Some(s) ==> !s@.contains('/'),
{
    match std::path::Path::new(path).extension() {
        Some(p) => Some(p.to_string_lossy().into_owned()),
        None => None,
    }
}

/// Calls `PathBuf::push` with `name` on the path `base`. The result is
/// named; as documented, an absolute `name` (on Unix, one that starts
/// with `/`) replaces the path.
#[verifier::external_body]
fn pushed(base: &str, name: &str) -> (r: String)
    ensures
        r@ == path_pushed(base@, name@),
        name@.len() > 0 && name@[0] == '/' ==> r@ == name@,
{
    let mut p = std::path::PathBuf::from(base);
    p.push(name);
    p.to_string_lossy().into_owned()
}

/// Calls `PathBuf::add_extension` with `ext` on the path `path`. The result
/// is only named. It panics on an extension that holds a separator (on
/// Unix, `/`), which `requires` leaves out.
#[verifier::external_body]
fn with_added_extension(path: &str, ext: &str) -> (r: String)
    requires
        !ext@.contains('/'),
    ensures
        r@ == path_with_added_extension(path@, ext@),
{
    let mut p = std::path::PathBuf::from(path);
    p.add_extension(ext);
    p.to_string_lossy().into_owned()
}

/// A character with the ASCII letters 'A' to 'Z' mapped to 'a' to 'z'.
pub open spec fn ascii_lower(c: char) -> char {
    if 'A' <= c && c <= 'Z' {
        ((c as int) + 32) as char
    } else {
        c
    }
}

/// Calls `str::to_ascii_lowercase`, which maps the ASCII letters 'A' to 'Z'
/// to 'a' to 'z' and leaves every other character as it is.
#[verifier::external_body]
fn to_ascii_lowercase(s: &str) -> (r: String)
    ensures
        r@ == s@.map_values(|c: char| ascii_lower(c)),
{
    s.to_ascii_lowercase()
}

/// The format that the extension `ext` names, in any case of its letters.
pub open spec fn format_of_extension(ext: Seq<char>) -> Option<PatchFormat> {
    let lower = ext.map_values(|c: char| ascii_lower(c));
    if lower == "bps"@ {
        Some(PatchFormat::Bps)
    } else if lower == "ips"@ {
        Some(PatchFormat::Ips)
    } else if lower == "ups"@ {
        Some(PatchFormat::Ups)
    } else {
        None
    }
}

/// The patch format that the extension of `patch` names: `bps`, `ips` or
/// `ups`, in any case.
pub fn extension_to_format(patch: &str) -> (r: Option<PatchFormat>)
    ensures
        r == (match path_extension(patch@) {
            Some(ext) => format_of_extension(ext),
            None => None,
        }),
{
    let ext = match extension_of(patch) {
        Some(e) => e,
        None => {
            return None;
        },
    };
    let lower = to_ascii_lowercase(ext.as_str());
    if lower == "bps".to_owned() {
        Some(PatchFormat::Bps)
    } else if lower == "ips".to_owned() {
        Some(PatchFormat::Ips)
    } else if lower == "ups".to_owned() {
        Some(PatchFormat::Ups)
    } else {
        None
    }
}

/// The output file name: in the directory of `input`, the file stem of
/// `patch` with the extension of `input` added. `None` where one of them is
/// missing.
pub fn generate_output_name(input: &str, patch: &str) -> (r: Option<String>)
    ensures
        match (path_parent(input@), path_file_stem(patch@), path_extension(input@)) {
            (Some(dir), Some(stem), Some(ext)) => r matches Some(s) && s@
                == path_with_added_extension(path_pushed(dir, stem), ext),
            _ => r is None,
        },
{
    let dir = match parent_of(input) {
        Some(d) => d,
        None => {
            return None;
        },
    };
    let stem = match file_stem_of(patch) {
        Some(s) => s,
        None => {
            return None;
        },
    };
    let ext = match extension_of(input) {
        Some(e) => e,
        None => {
            return None;
        },
    };
    let joined = pushed(dir.as_str(), stem.as_str());
    Some(with_added_extension(joined.as_str(), ext.as_str()))
}

} // verus!
