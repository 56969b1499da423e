//! Per-path configuration.
//!
//! Which of git-ast's integrations apply to a path. Settings are inferred from
//! the file extension: common source extensions are fully managed, everything
//! else passes through.

use vstd::prelude::*;
use crate::Error;

verus! {

/// The resolved configuration for a single file path.
#[derive(Debug, Clone, PartialEq, Eq)]
pub struct FileConfig {
    /// Whether the clean/smudge filter applies.
    pub use_filter: bool,
    /// Whether the custom diff driver applies.
    pub use_diff_driver: bool,
    /// Whether the custom merge driver applies.
    pub use_merge_driver: bool,
}

impl Default for FileConfig {
    fn default() -> (r: Self)
        ensures
            !r.use_filter && !r.use_diff_driver && !r.use_merge_driver,
    {
        FileConfig { use_filter: false, use_diff_driver: false, use_merge_driver: false }
    }
}

/// Whether `s` ends with `suffix`.
pub open spec fn ends_with(s: Seq<char>, suffix: Seq<char>) -> bool {
    s.len() >= suffix.len() && s.subrange(s.len() - suffix.len(), s.len() as int) == suffix
}

/// Whether the path has one of the managed source extensions.
pub open spec fn is_managed(path: Seq<char>) -> bool {
    ends_with(path, ".rs"@) || ends_with(path, ".py"@) || ends_with(path, ".js"@)
}

/// Whether `s` ends with `suffix` ([`ends_with`]).
pub fn str_ends_with(s: &str, suffix: &str) -> (r: bool)
    ensures
        r == ends_with(s@, suffix@),
{
    let a = crate::html::chars_vec(s);
    let b = crate::html::chars_vec(suffix);
    if b.len() > a.len() {
        return false;
    }
    let off = a.len() - b.len();
    let mut i: usize = 0;
    while i < b.len()
        invariant
            a@ == s@,
            b@ == suffix@,
            off + b@.len() == a@.len(),
            a@.len() <= usize::MAX,
            i <= b@.len(),
            forall|k: int| 0 <= k < i ==> a@[off + k] == b@[k],
        decreases b.len() - i,
    {
        assert(off + i < a@.len());
        if a[off + i] != b[i] {
            proof {
                assert(a@.subrange(off as int, a@.len() as int)[i as int] != b@[i as int]);
            }
            return false;
        }
        i += 1;
    }
    proof {
        assert(a@.subrange(off as int, a@.len() as int) =~= b@);
    }
    true
}

/// The configuration for `path`: everything applies to a managed source file
/// ([`is_managed`]), nothing to any other. Never fails.
pub fn get_config_for_path(path: &str) -> (r: Result<FileConfig, Error>)
    ensures
        r matches Ok(c) && c.use_filter == is_managed(path@) && c.use_diff_driver == is_managed(path@)
            && c.use_merge_driver == is_managed(path@),
{
    let managed = str_ends_with(path, ".rs") || str_ends_with(path, ".py") || str_ends_with(path, ".js");
    if managed {
        Ok(FileConfig { use_filter: true, use_diff_driver: true, use_merge_driver: true })
    } else {
        Ok(FileConfig::default())
    }
}

} // verus!
