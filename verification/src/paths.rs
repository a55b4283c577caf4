//! File-system paths as text: what the planner needs from the standard
//! library's path handling. Nothing here touches the file system.

use crate::format::{extension_of, get_extension_for_type, lemma_extension_plain, FileType};
use std::path::{Path, PathBuf};
use vstd::prelude::*;
use vstd::string::*;

verus! {

/// The path that `PathBuf::set_extension` leaves when it is given `path`
/// and `extension`.
pub uninterp spec fn path_with_extension(path: Seq<char>, extension: Seq<char>) -> Seq<char>;

/// The final component of `path` as `Path::file_name` gives it, if the path
/// has one.
pub uninterp spec fn path_file_name(path: Seq<char>) -> Option<Seq<char>>;

/// The path that `PathBuf::set_file_name` leaves when it is given `path`
/// and `file_name`.
pub uninterp spec fn path_with_file_name(path: Seq<char>, file_name: Seq<char>) -> Seq<char>;

/// The text holds no path separator.
pub open spec fn no_separator(text: Seq<char>) -> bool {
    forall|i: int| 0 <= i < text.len() ==> text[i] != '/' && text[i] != '\\'
}

/// Calls `PathBuf::set_extension` on a copy of `path`. Believed, not
/// proved: the result is the path that the standard library's path rules
/// give for these two texts. The standard library panics on an extension
/// that holds a separator, so such an extension is not accepted.
#[verifier::external_body]
fn with_extension(path: &String, extension: &str) -> (r: String)
    requires
        no_separator(extension@),
    ensures
        r@ == path_with_extension(path@, extension@),
{
    let mut p = PathBuf::from(path);
    p.set_extension(extension);
    p.to_string_lossy().into_owned()
}

/// Calls `Path::file_name`. Believed, not proved: the result is the final
/// component that the standard library's path rules find in `path`, and
/// `None` where they find none.
#[verifier::external_body]
fn file_name(path: &String) -> (r: Option<String>)
    ensures
        match r {
            Some(name) => path_file_name(path@) == Some(name@),
            None => path_file_name(path@) is None,
        },
{
    Path::new(path).file_name().map(|name| name.to_string_lossy().into_owned())
}

/// Calls `PathBuf::set_file_name` on a copy of `path`. Believed, not
/// proved: the result is the path that the standard library's path rules
/// give for these two texts.
#[verifier::external_body]
fn with_file_name(path: &String, file_name: &String) -> (r: String)
    ensures
        r@ == path_with_file_name(path@, file_name@),
{
    let mut p = PathBuf::from(path);
    p.set_file_name(file_name);
    p.to_string_lossy().into_owned()
}

/// What marks the name of an intermediate file.
pub open spec fn temp_prefix() -> Seq<char> {
    seq!['t', 'e', 'm', 'p', '_']
}

/// Where a conversion of `source` into `target` goes when the caller names
/// no output: the source path with the target's canonical extension.
pub open spec fn default_output_of(source: Seq<char>, target: FileType) -> Seq<char> {
    path_with_extension(source, extension_of(target))
}

/// The intermediate file for a hop that reads `input` and writes format
/// `target`: beside the input, with the target's canonical extension and
/// the marked name. There is none where the input path names no file.
pub open spec fn temp_path_of(input: Seq<char>, target: FileType) -> Option<Seq<char>> {
    let renamed = path_with_extension(input, extension_of(target));
    match path_file_name(renamed) {
        Some(name) => Some(path_with_file_name(renamed, temp_prefix() + name)),
        None => None,
    }
}

/// The output path used when the caller names none.
pub fn default_output(source: &String, target: &FileType) -> (r: String)
    ensures
        r@ == default_output_of(source@, *target),
{
    let extension = get_extension_for_type(target);
    proof {
        lemma_extension_plain(*target, *target);
    }
    with_extension(source, extension)
}

/// The path of the intermediate file that a hop from `input` to format
/// `target` writes, or `None` where `input` names no file.
pub fn temp_path(input: &String, target: &FileType) -> (r: Option<String>)
    ensures
        match r {
            Some(p) => temp_path_of(input@, *target) == Some(p@),
            None => temp_path_of(input@, *target) is None,
        },
{
    let renamed = default_output(input, target);
    match file_name(&renamed) {
        Some(name) => {
            let marked = String::from_str("temp_").concat(name.as_str());
            proof {
                reveal_strlit("temp_");
                assert("temp_"@ =~= temp_prefix());
            }
            Some(with_file_name(&renamed, &marked))
        },
        None => None,
    }
}

} // verus!
