//! Pointer files: the small files that bind a path of the working tree to the
//! identifier of its snapshot.

use crate::paths::{
    extension, join_path, joined_path, parent, parent_path, path_extension, path_with_extension,
    strip_prefix, stripped_path, with_extension,
};
use crate::text::{concat, has_prefix, starts_with, trim_start, trimmed_start};
use vstd::prelude::*;
use vstd::string::StrSliceExecFns;

verus! {

/// What a pointer file says of the data it points to.
#[derive(Clone, Debug, PartialEq, Eq)]
pub struct Output {
    /// The name of the hash; always `md5`.
    pub hash: String,
    /// The identifier of the snapshot.
    pub oid: String,
    /// The total size of the data.
    pub size: Option<u64>,
    /// The number of files, for a tree.
    pub nfiles: Option<usize>,
    /// The path of the data, relative to the directory of the pointer file.
    pub path: String,
}

/// A pointer file: one output.
#[derive(Debug, PartialEq, Eq)]
pub struct DvcFile {
    pub outs: (Output,),
}

/// Why no path could be given.
#[derive(Clone, Copy, Debug, PartialEq, Eq)]
pub enum PathError {
    /// The pointer file has no parent directory.
    NoParent,
    /// The path does not lie below the directory of the pointer file.
    NotBelow,
}

/// The path of the pointer file for the data at `path`: the path with `.dvc`
/// behind it where it has an extension, and else the path with the extension
/// `dvc`.
pub open spec fn dvcfile_path(path: Seq<char>) -> Seq<char> {
    if path_extension(path) is Some {
        path + ".dvc"@
    } else {
        path_with_extension(path, "dvc"@)
    }
}

/// The path of the pointer file for the data at `path`.
pub fn default_dvcfile_path(path: &str) -> (r: String)
    ensures
        r@ == dvcfile_path(path@),
{
    match extension(path) {
        Some(_) => concat(path, ".dvc"),
        None => {
            proof {
                reveal_strlit("dvc");
            }
            with_extension(path, "dvc")
        },
    }
}

/// `path` as the pointer file `dvcfile` writes it: relative to the directory
/// in which the pointer file lies.
pub fn path_relative_to_dvcfile(dvcfile: &str, path: &str) -> (r: Result<String, PathError>)
    ensures
        match r {
            Ok(p) => parent_path(dvcfile@) matches Some(wdir) && stripped_path(path@, wdir)
                == Some(p@),
            Err(PathError::NoParent) => parent_path(dvcfile@) is None,
            Err(PathError::NotBelow) => parent_path(dvcfile@) matches Some(wdir) && stripped_path(
                path@,
                wdir,
            ) is None,
        },
{
    match parent(dvcfile) {
        None => Err(PathError::NoParent),
        Some(wdir) => match strip_prefix(path, wdir.as_str()) {
            Some(p) => Ok(p),
            None => Err(PathError::NotBelow),
        },
    }
}

/// Where the data of an output lies: its path, taken from the directory of
/// the pointer file `dvcfile`; `None` where that file has no parent directory.
pub fn absolute_output_path(dvcfile: &str, path: &str) -> (r: Option<String>)
    ensures
        match r {
            Some(p) => parent_path(dvcfile@) matches Some(wdir) && p@ == joined_path(wdir, path@),
            None => parent_path(dvcfile@) is None,
        },
{
    match parent(dvcfile) {
        Some(wdir) => Some(join_path(wdir.as_str(), path)),
        None => None,
    }
}

/// The text of a pointer file, given the YAML of its contents: without the
/// document marker `---` at its start, if there is one, and without white
/// space at its start.
pub open spec fn pointer_text(yaml: Seq<char>) -> Seq<char> {
    if has_prefix(yaml, "---"@) {
        trimmed_start(yaml.subrange(3, yaml.len() as int))
    } else {
        trimmed_start(yaml)
    }
}

impl DvcFile {
    /// The pointer file for the data at `path` with the identifier `oid`.
    pub fn new(path: &str, oid: String, size: Option<u64>, nfiles: Option<usize>) -> (r: DvcFile)
        ensures
            r.outs.0.hash@ == "md5"@,
            r.outs.0.oid == oid,
            r.outs.0.size == size,
            r.outs.0.nfiles == nfiles,
            r.outs.0.path@ == path@,
    {
        let hash = "md5";
        DvcFile { outs: (Output { hash: hash.to_owned(), oid, size, nfiles, path: path.to_owned() },) }
    }

    /// The text to write for a pointer file whose contents are the YAML
    /// document `yaml`.
    pub fn create(yaml: &str) -> (text: String)
        ensures
            text@ == pointer_text(yaml@),
    {
        if starts_with(yaml, "---") {
            proof {
                reveal_strlit("---");
            }
            let n = yaml.unicode_len();
            trim_start(yaml.substring_char(3, n))
        } else {
            trim_start(yaml)
        }
    }
}

} // verus!
