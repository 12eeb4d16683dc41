//! Glob pattern syntax checking. Expanding a pattern against the filesystem
//! is the caller's input/output; whether the pattern itself is well formed
//! is pure computation, decided here by the glob crate's pattern compiler.

use vstd::prelude::*;

use crate::FsError;

verus! {

/// Whether the glob crate accepts `p` as a well-formed pattern. Compiling a
/// pattern reads nothing at run time but the pattern text, so its outcome
/// is a function of that text alone; the grammar it decides lives in the
/// glob crate, and its one environmental input — which characters count as
/// path separators around a recursive `**` — is a constant fixed when the
/// crate is built for a target.
pub uninterp spec fn pattern_ok(p: Seq<char>) -> bool;

/// Relies on glob::Pattern::new: compiling a pattern is pure computation on
/// the pattern text and returns `Ok` exactly on well-formed patterns; a
/// malformed one yields a `PatternError`, rendered here to its display
/// message.
#[verifier::external_body]
pub(crate) fn glob_pattern_check(pattern: &str) -> (r: Result<(), String>)
    ensures
        r is Ok <==> pattern_ok(pattern@),
{
    match glob::Pattern::new(pattern) {
        Ok(_) => Ok(()),
        Err(e) => Err(format!("{}", e)),
    }
}

/// Checks a glob pattern for syntax errors without touching the filesystem:
/// `Ok` exactly on well-formed patterns, and on a malformed one an
/// `InvalidPattern` error carrying the pattern parser's message.
pub fn glob_precheck(pattern: &str) -> (r: Result<(), FsError>)
    ensures
        r is Ok <==> pattern_ok(pattern@),
        r matches Err(e) ==> e is InvalidPattern,
{
    match glob_pattern_check(pattern) {
        Ok(()) => Ok(()),
        Err(msg) => Err(FsError::InvalidPattern(msg)),
    }
}

} // verus!
