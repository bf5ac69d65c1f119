//! Where a repository keeps its objects and its fingerprint cache.

use crate::config::Config;
use crate::hash::{md5, md5_hex};
use crate::paths::{join_path, joined_path};
use vstd::prelude::*;
use vstd::utf8::encode_utf8;

verus! {

/// The directory below which the fingerprint caches of all repositories lie.
pub fn db_dirs() -> (dir: String)
    ensures
        dir@ == "/var/tmp/dvc/repo"@,
{
    let dir = "/var/tmp/dvc/repo";
    dir.to_owned()
}

/// The control directory of the repository at `root`.
pub fn control_dir(root: &str) -> (dir: String)
    ensures
        dir@ == joined_path(root@, ".dvc"@),
{
    join_path(root, ".dvc")
}

/// The directory of temporary files in the control directory `control_dir`.
pub fn tmp_dir(control_dir: &str) -> (dir: String)
    ensures
        dir@ == joined_path(control_dir@, "tmp"@),
{
    join_path(control_dir, "tmp")
}

/// The directory of the fingerprint cache of the repository whose cache
/// directory has the name `dirname`, where none is set.
pub fn cache_dir(dirname: &str) -> (dir: String)
    ensures
        dir@ == joined_path("/var/tmp/dvc/repo"@, dirname@),
{
    join_path(db_dirs().as_str(), dirname)
}

/// The text that names a repository: its root, the time at which it was set
/// up, and the user.
pub open spec fn db_token(root: Seq<char>, btime: Seq<char>, user: Seq<char>) -> Seq<char> {
    "('"@ + root + "', None, "@ + btime + ", '"@ + user + "', 3, 0)"@
}

/// The name of the directory of a repository's fingerprint cache: the MD5
/// digest of the text that names the repository. `btime` is the time at which
/// the repository was set up, in seconds, as decimal text.
pub fn db_dirname(root: &str, btime: &str, user: &str) -> (name: String)
    ensures
        name@ == md5_hex(encode_utf8(db_token(root@, btime@, user@))),
{
    let mut st = String::new();
    st.append("('");
    st.append(root);
    st.append("', None, ");
    st.append(btime);
    st.append(", '");
    st.append(user);
    st.append("', 3, 0)");
    assert(st@ =~= db_token(root@, btime@, user@));
    md5(st.as_str().as_bytes())
}

/// The directory of the objects of the repository with the control directory
/// `control_dir`: the one that is set, or `cache/files/md5` below the control
/// directory.
pub fn object_dir(control_dir: &str, config: &Config) -> (dir: String)
    ensures
        dir@ == match config.cache.dir {
            Some(d) => d@,
            None => joined_path(
                joined_path(joined_path(control_dir@, "cache"@), "files"@),
                "md5"@,
            ),
        },
{
    match &config.cache.dir {
        Some(d) => d.clone(),
        None => {
            let cache = join_path(control_dir, "cache");
            let files = join_path(cache.as_str(), "files");
            join_path(files.as_str(), "md5")
        },
    }
}

/// The file of the fingerprint cache, in the directory `db_dir`.
pub fn state_path(db_dir: &str) -> (path: String)
    ensures
        path@ == joined_path(db_dir@, "hashes/local/cache.db"@),
{
    join_path(db_dir, "hashes/local/cache.db")
}

} // verus!
