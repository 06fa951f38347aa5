use vstd::prelude::*;
use vstd::string::*;

verus! {

#[verifier::external_type_specification]
#[verifier::external_body]
pub struct ExIoError(std::io::Error);

/// The parent directory of a path, as `std::path` reads it.
pub uninterp spec fn parent_of(path: Seq<char>) -> Option<Seq<char>>;

/// The extension of a path's final component, as `std::path` reads it.
pub uninterp spec fn extension_of(path: Seq<char>) -> Option<Seq<char>>;

/// The final component of a path without its extension, as `std::path` reads it.
pub uninterp spec fn file_stem_of(path: Seq<char>) -> Option<Seq<char>>;

/// Relies on `std::path::Path::parent`: `None` for a root or an empty path. A path made
/// from a `str` is valid UTF-8, so its parent converts back to a `str`.
#[verifier::external_body]
fn path_parent(path: &str) -> (r: Option<String>)
    ensures
        r matches Some(p) ==> parent_of(path@) == Some(p@),
        r is None ==> parent_of(path@) is None,
{
    std::path::Path::new(path).parent().and_then(|p| p.to_str()).map(String::from)
}

/// Relies on `std::path::Path::extension`: the text after the final component's last
/// `.`, if any.
#[verifier::external_body]
fn path_extension(path: &str) -> (r: Option<String>)
    ensures
        r matches Some(e) ==> extension_of(path@) == Some(e@),
        r is None ==> extension_of(path@) is None,
{
    std::path::Path::new(path).extension().and_then(|e| e.to_str()).map(String::from)
}

/// Relies on `std::path::Path::file_stem`: the final component without its extension.
#[verifier::external_body]
fn path_file_stem(path: &str) -> (r: Option<String>)
    ensures
        r matches Some(s) ==> file_stem_of(path@) == Some(s@),
        r is None ==> file_stem_of(path@) is None,
{
    std::path::Path::new(path).file_stem().and_then(|s| s.to_str()).map(String::from)
}

/// The directory of `filepath`, `"./"` where it has none.
pub open spec fn basename_spec(filepath: Seq<char>) -> Seq<char> {
    match parent_of(filepath) {
        Some(p) => if p.len() > 0 {
            p
        } else {
            "./"@
        },
        None => "./"@,
    }
}

/// The directory that holds `filepath`: its parent, or `"./"` where that is empty or
/// missing. It never fails.
pub fn get_basename(filepath: &str) -> (r: Result<String, std::io::Error>)
    ensures
        r matches Ok(d) && d@ == basename_spec(filepath@),
{
    proof {
        reveal_strlit("./");
    }
    match path_parent(filepath) {
        Some(p) => if p.as_str().is_empty() {
            Ok(String::from_str("./"))
        } else {
            Ok(p)
        },
        None => Ok(String::from_str("./")),
    }
}

/// The name a download is served under: the last segment of its address, or `sub.zip`
/// where that is missing or empty.
pub open spec fn served_name(last_segment: Option<Seq<char>>) -> Seq<char> {
    match last_segment {
        Some(s) => if s.len() > 0 {
            s
        } else {
            "sub.zip"@
        },
        None => "sub.zip"@,
    }
}

/// The name a download is served under, from the last segment of its address.
pub fn served_file_name(last_segment: Option<String>) -> (r: String)
    ensures
        r@ == served_name(
            match last_segment {
                Some(s) => Some(s@),
                None => None,
            },
        ),
{
    proof {
        reveal_strlit("sub.zip");
    }
    match last_segment {
        Some(s) => if s.as_str().is_empty() {
            String::from_str("sub.zip")
        } else {
            s
        },
        None => String::from_str("sub.zip"),
    }
}

/// The name a downloaded subtitle is saved under: the media file's stem (or, for an empty
/// source name, the served name itself), a `.`, and the served name's extension (`str`
/// where it has none). `None` where a non-empty source name has no stem.
pub open spec fn output_name(served: Seq<char>, source: Seq<char>) -> Option<Seq<char>> {
    let ext = match extension_of(served) {
        Some(e) => e,
        None => "str"@,
    };
    if source.len() == 0 {
        Some(served + "."@ + ext)
    } else {
        match file_stem_of(source) {
            Some(stem) => Some(stem + "."@ + ext),
            None => None,
        }
    }
}

/// The file name under which a subtitle served as `served` is saved for the media file
/// `source_filename`.
pub fn output_file_name(served: &str, source_filename: &str) -> (r: Option<String>)
    ensures
        r matches Some(n) ==> output_name(served@, source_filename@) == Some(n@),
        r is None ==> output_name(served@, source_filename@) is None,
{
    proof {
        reveal_strlit("str");
        reveal_strlit(".");
    }
    let ext = match path_extension(served) {
        Some(e) => e,
        None => String::from_str("str"),
    };
    let mut name = if source_filename.is_empty() {
        String::from_str(served)
    } else {
        match path_file_stem(source_filename) {
            Some(stem) => stem,
            None => {
                return None;
            },
        }
    };
    name.append(".");
    name.append(ext.as_str());
    Some(name)
}

} // verus!
