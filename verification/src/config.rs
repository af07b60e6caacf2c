//! Tuning constants and the run configuration shared by every command.
//!
//! Similarity thresholds are held in millionths (parts per million) so that
//! every comparison against them is exact integer arithmetic.

use vstd::prelude::*;

verus! {

/// Winnowing parameters. k-gram size and window size give the guarantee
/// threshold t = w + k - 1: any shared run of >= t normalized tokens is
/// always caught by at least one shared fingerprint.
pub const KGRAM: usize = 10;
pub const WINDOW: usize = 8;

/// One whole, in millionths.
pub const PPM_ONE: u32 = 1_000_000;

pub const DEFAULT_SCAN_THRESHOLD_PPM: u32 = 800_000;
pub const DEFAULT_CHECK_THRESHOLD_PPM: u32 = 850_000;

/// Minimum raw shared fingerprints before we bother computing exact Jaccard.
pub const MIN_SHARED_PREFILTER: u32 = 3;

/// Files larger than this are skipped (almost certainly generated/minified).
pub const MAX_FILE_BYTES: u64 = 2097152;

#[derive(Clone, Copy, PartialEq, Eq, Debug, Structural)]
pub enum TestPolicy {
    /// Scan test files, flag them, exclude test-only clusters from the score.
    FlagOnly,
    /// Treat test files like any other code.
    Include,
    /// Don't scan test files at all.
    Skip,
}

/// The options every command accepts.
pub struct CommonOptions {
    /// Minimum similarity for two functions to count as duplicates, in
    /// millionths; the command's default when absent.
    pub threshold_ppm: Option<u32>,
    /// Ignore functions with fewer normalized tokens than this.
    pub min_tokens: usize,
    /// Extra glob patterns to exclude.
    pub excludes: Vec<String>,
    /// Don't apply the built-in exclusions.
    pub no_default_excludes: bool,
    /// Include test files in the score.
    pub include_tests: bool,
    /// Skip test files entirely.
    pub exclude_tests: bool,
    /// Emit machine-readable JSON.
    pub json: bool,
}

pub struct Config {
    pub threshold_ppm: u32,
    pub min_tokens: usize,
    pub excludes: Vec<String>,
    pub default_excludes: bool,
    pub tests: TestPolicy,
    pub json: bool,
}

/// The test policy the flags select; `--include-tests` wins.
pub open spec fn test_policy_of(include_tests: bool, exclude_tests: bool) -> TestPolicy {
    if include_tests {
        TestPolicy::Include
    } else if exclude_tests {
        TestPolicy::Skip
    } else {
        TestPolicy::FlagOnly
    }
}

/// The threshold used: the one given, or the default, clamped to one whole.
pub open spec fn threshold_of(given: Option<u32>, default_ppm: u32) -> u32 {
    let t = match given {
        Some(t) => t,
        None => default_ppm,
    };
    if t > PPM_ONE {
        PPM_ONE
    } else {
        t
    }
}

impl Config {
    pub fn from_common(common: CommonOptions, default_threshold_ppm: u32) -> (c: Config)
        ensures
            c.threshold_ppm == threshold_of(common.threshold_ppm, default_threshold_ppm),
            c.min_tokens == common.min_tokens,
            c.excludes@ == common.excludes@,
            c.default_excludes == !common.no_default_excludes,
            c.tests == test_policy_of(common.include_tests, common.exclude_tests),
            c.json == common.json,
    {
        let tests = if common.include_tests {
            TestPolicy::Include
        } else if common.exclude_tests {
            TestPolicy::Skip
        } else {
            TestPolicy::FlagOnly
        };
        let t = match common.threshold_ppm {
            Some(t) => t,
            None => default_threshold_ppm,
        };
        let threshold_ppm = if t > PPM_ONE {
            PPM_ONE
        } else {
            t
        };
        Config {
            threshold_ppm,
            min_tokens: common.min_tokens,
            excludes: common.excludes,
            default_excludes: !common.no_default_excludes,
            tests,
            json: common.json,
        }
    }
}

} // verus!
