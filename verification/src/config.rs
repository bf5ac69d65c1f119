//! The settings that the library reads.

use vstd::prelude::*;

verus! {

/// The section `core`.
#[derive(Clone, Debug, Default)]
pub struct Core {
    /// Whether the repository is kept without a version control system.
    pub no_scm: bool,
    /// Where the fingerprint cache lies, if not at its default place.
    pub site_cache_dir: Option<String>,
    /// How many workers hash files.
    pub checksum_jobs: Option<usize>,
}

/// The section `cache`.
#[derive(Clone, Debug, Default)]
pub struct Cache {
    /// Where the object database lies, if not at its default place.
    pub dir: Option<String>,
    /// The ways to link a file out of the database, the preferred one first.
    pub typ: Option<Vec<String>>,
}

/// The settings of a repository.
#[derive(Clone, Debug, Default)]
pub struct Config {
    pub core: Core,
    pub cache: Cache,
}

} // verus!
