//! Asset kinds and the naming rules around their files.

use vstd::prelude::*;
use std::marker::PhantomData;

verus! {

/// What `std::path::Path::extension` gives for a path: the part of its file name
/// after the last dot, if there is one (a leading dot does not count).
pub uninterp spec fn path_extension(path: Seq<char>) -> Option<Seq<char>>;

/// What `std::path::Path::file_name` gives for a path: its last component, unless
/// that is `..` or there is none.
pub uninterp spec fn path_file_name(path: Seq<char>) -> Option<Seq<char>>;

/// Whether `std::path::Path::extension` finds an extension in `path`. The claim is
/// only that the answer is `path_extension(path) is Some`; what that is for a given
/// path is std's rule.
#[verifier::external_body]
pub(crate) fn has_extension(path: &str) -> (r: bool)
    ensures
        r == path_extension(path@) is Some,
{
    std::path::Path::new(path).extension().is_some()
}

/// The file name of `path` as `std::path::Path::file_name` finds it, read back as
/// text. The claim is that this is `path_file_name(path)`: for a path given as text
/// the lossy conversion loses nothing.
#[verifier::external_body]
pub(crate) fn file_name(path: &str) -> (r: Option<String>)
    ensures
        match r {
            Some(n) => path_file_name(path@) == Some(n@),
            None => path_file_name(path@) is None,
        },
{
    std::path::Path::new(path).file_name().map(|n| n.to_string_lossy().to_string())
}

/// Marks a value as still waiting for the setup that some system gives it.
pub struct ToInit<T> {
    marker: PhantomData<T>,
}

impl<T> Default for ToInit<T> {
    fn default() -> (r: ToInit<T>) {
        ToInit { marker: PhantomData }
    }
}

/// The file that an asset path names: the path itself when it has an extension,
/// else the path with the first of `extensions` appended after a dot (or the path
/// unchanged when there is none to append).
pub open spec fn with_default_extension(file: Seq<char>, extensions: Seq<&str>) -> Seq<char> {
    if path_extension(file) is Some || extensions.len() == 0 {
        file
    } else {
        file + seq!['.'] + extensions[0]@
    }
}

/// Gives `file` the first of the extensions of an asset kind when it has none.
pub fn fix_missing_extension(file: String, extensions: &[&str]) -> (r: String)
    ensures
        r@ == with_default_extension(file@, extensions@),
{
    if has_extension(file.as_str()) || extensions.len() == 0 {
        file
    } else {
        let dotted = file.concat(".");
        proof {
            reveal_strlit(".");
        }
        dotted.concat(extensions[0])
    }
}

/// Loads item definitions.
pub struct ItemLoader;

impl ItemLoader {
    /// The extensions of item files.
    pub fn extensions(&self) -> (r: &'static [&'static str])
        ensures
            r@.len() == 1,
            r@[0]@ == "item.ron"@,
    {
        &["item.ron"]
    }
}

/// Loads module definitions.
pub struct ModuleLoader;

impl ModuleLoader {
    /// The extensions of module files.
    pub fn extensions(&self) -> (r: &'static [&'static str])
        ensures
            r@.len() == 1,
            r@[0]@ == "mod.ron"@,
    {
        &["mod.ron"]
    }
}

/// Loads form lists.
pub struct FormListLoader;

impl FormListLoader {
    /// The extensions of form-list files.
    pub fn extensions(&self) -> (r: &'static [&'static str])
        ensures
            r@.len() == 1,
            r@[0]@ == "list.ron"@,
    {
        &["list.ron"]
    }
}

} // verus!
