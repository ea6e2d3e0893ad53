//! Cache management decisions.
//!
//! All file-system facts (existence, modification times, sizes) arrive as
//! plain values; every decision over them is made and proved here. The
//! I/O itself — reading, the temp-file-then-atomic-rename persist, the
//! mapping — stays with the caller.

use vstd::prelude::*;
use vstd::string::StringExecFns;

verus! {

/// What a staleness-aware load must do. Modification times are opaque
/// ticks (nanoseconds since some epoch); `None` means the file is absent.
#[derive(Debug, Clone, Copy, PartialEq, Eq, Structural)]
pub enum LoadDecision {
    /// The cache is fresh: open it, no recompilation.
    UseCache,
    /// Recompile from the source, persist atomically, then open.
    Recompile,
    /// The source is gone and no cache exists either.
    MissingBoth,
    /// The source is gone; a stale cache exists but may not be used
    /// without forcing.
    MissingSource,
}

/// Recompilation is owed exactly when forced, when no cache exists, or
/// when the source exists and is strictly newer than the cache.
pub open spec fn spec_needs_recompile(
    force: bool,
    source_mtime: Option<u128>,
    cache_mtime: Option<u128>,
) -> bool {
    force || cache_mtime is None || (match (source_mtime, cache_mtime) {
        (Option::Some(sm), Option::Some(cm)) => sm > cm,
        _ => false,
    })
}

/// The staleness policy: decide what a load must do.
///
/// If the source is strictly newer than the cache, the adapter is always
/// re-invoked; if the cache is at least as new as the source and `force`
/// is off, it never is. A recompilation without a source fails, with the
/// two missing-file cases kept apart.
pub fn load_decision(
    force: bool,
    source_mtime: Option<u128>,
    cache_mtime: Option<u128>,
) -> (r: LoadDecision)
    ensures
        !spec_needs_recompile(force, source_mtime, cache_mtime) ==> r == LoadDecision::UseCache,
        spec_needs_recompile(force, source_mtime, cache_mtime) && source_mtime is Some ==> r
            == LoadDecision::Recompile,
        spec_needs_recompile(force, source_mtime, cache_mtime) && source_mtime is None
            && cache_mtime is None ==> r == LoadDecision::MissingBoth,
        spec_needs_recompile(force, source_mtime, cache_mtime) && source_mtime is None
            && cache_mtime is Some ==> r == LoadDecision::MissingSource,
{
    let needs = force || cache_mtime.is_none() || (match (source_mtime, cache_mtime) {
        (Option::Some(sm), Option::Some(cm)) => sm > cm,
        _ => false,
    });
    if !needs {
        LoadDecision::UseCache
    } else {
        match source_mtime {
            Option::Some(_) => LoadDecision::Recompile,
            Option::None => match cache_mtime {
                Option::Some(_) => LoadDecision::MissingSource,
                Option::None => LoadDecision::MissingBoth,
            },
        }
    }
}

/// The derived cache path: the source path with `.snapconfig` appended.
pub fn default_cache_path(source_path: &str) -> (r: String)
    ensures
        r@ == source_path@ + ".snapconfig"@,
{
    let mut r = String::from_str(source_path);
    r.append(".snapconfig");
    r
}

/// Diagnostics over a source/cache pair, assembled from plain facts.
pub struct CacheInfo {
    pub source_exists: bool,
    pub cache_exists: bool,
    pub cache_path: String,
    pub source_size: Option<u64>,
    pub cache_size: Option<u64>,
    pub cache_fresh: Option<bool>,
}

/// Assemble cache diagnostics: existence flags and sizes pass through,
/// the cache path is the derived one, and freshness (cache at least as
/// new as the source) is reported only when both files exist.
pub fn cache_info(
    source_path: &str,
    source: Option<(u64, u128)>,
    cache: Option<(u64, u128)>,
) -> (r: CacheInfo)
    ensures
        r.source_exists == (source is Some),
        r.cache_exists == (cache is Some),
        r.cache_path@ == source_path@ + ".snapconfig"@,
        r.source_size == (match source {
            Option::Some(s) => Option::Some(s.0),
            Option::None => Option::None::<u64>,
        }),
        r.cache_size == (match cache {
            Option::Some(c) => Option::Some(c.0),
            Option::None => Option::None::<u64>,
        }),
        r.cache_fresh == (match (source, cache) {
            (Option::Some(s), Option::Some(c)) => Option::Some(c.1 >= s.1),
            _ => Option::None::<bool>,
        }),
{
    let cache_path = default_cache_path(source_path);
    let (source_exists, source_size) = match source {
        Option::Some((sz, _)) => (true, Option::Some(sz)),
        Option::None => (false, Option::None),
    };
    let (cache_exists, cache_size) = match cache {
        Option::Some((sz, _)) => (true, Option::Some(sz)),
        Option::None => (false, Option::None),
    };
    let cache_fresh = match (source, cache) {
        (Option::Some((_, sm)), Option::Some((_, cm))) => Option::Some(cm >= sm),
        _ => Option::None,
    };
    CacheInfo { source_exists, cache_exists, cache_path, source_size, cache_size, cache_fresh }
}

} // verus!
