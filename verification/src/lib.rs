//! Path-collection engine: filesystem discovery results held as an ordered
//! sequence of path strings, with two transforms — packing of numbered file
//! sequences into compact range entries, and path-separator normalization.
//!
//! Discovery itself (walking a directory tree, listing a directory, expanding
//! a glob pattern against the filesystem) is input/output and lives with the
//! caller; the caller hands the discovered entries to [`QuietPaths`] and runs
//! the transforms here. The one piece of glob handling that is pure
//! computation — checking a pattern for syntax errors — is available here as
//! [`glob_precheck`].

use vstd::prelude::*;

pub mod digits;
pub mod globpat;
pub mod normalize;
pub mod pack;
pub mod split;

pub use crate::globpat::glob_precheck;
use crate::normalize::{all_to_posix, all_to_windows, convert_vec};
use crate::pack::{pack_vec, spec_pack};

verus! {

/// True for the two path separator characters recognized everywhere in this
/// crate: forward slash and backslash.
pub open spec fn is_sep(c: char) -> bool {
    c == '/' || c == '\\'
}

/// True for an ASCII decimal digit.
pub open spec fn is_digit(c: char) -> bool {
    (c as u32) >= 48 && (c as u32) <= 57
}

/// Executable test for a separator character.
pub fn sep_char(c: char) -> (r: bool)
    ensures
        r == is_sep(c),
{
    c == '/' || c == '\\'
}

/// Executable test for an ASCII decimal digit.
pub fn digit_char(c: char) -> (r: bool)
    ensures
        r == is_digit(c),
{
    (c as u32) >= 48 && (c as u32) <= 57
}

/// The views of a sequence of strings, element by element.
pub open spec fn seq_views(s: Seq<String>) -> Seq<Seq<char>> {
    Seq::new(s.len(), |i: int| s[i]@)
}

/// A discovery failure, surfaced to the caller.
#[derive(Debug, PartialEq, Eq, Clone)]
pub enum FsError {
    /// The requested root or directory does not exist or is not accessible.
    NotFound,
    /// A glob pattern is syntactically malformed; the payload is the
    /// pattern parser's own message.
    InvalidPattern(String),
}

/// An ordered collection of discovered path strings. Order is the discovery
/// order and is preserved by every transform except where packing collapses
/// a group, whose compact entry takes the position of the group's first
/// member.
#[derive(Debug, PartialEq, Eq, Clone)]
pub struct QuietPaths {
    /// The path entries, in discovery order.
    pub paths: Vec<String>,
}

impl View for QuietPaths {
    type V = Seq<Seq<char>>;

    open spec fn view(&self) -> Seq<Seq<char>> {
        seq_views(self.paths@)
    }
}

impl QuietPaths {
    /// An empty collection.
    pub fn new() -> (r: QuietPaths)
        ensures
            r@ == Seq::<Seq<char>>::empty(),
    {
        let r = QuietPaths { paths: Vec::new() };
        proof {
            assert(r@ =~= Seq::<Seq<char>>::empty());
        }
        r
    }

    /// Wraps already-discovered entries, keeping their order.
    pub fn from_entries(entries: Vec<String>) -> (r: QuietPaths)
        ensures
            r@ == seq_views(entries@),
    {
        QuietPaths { paths: entries }
    }

    /// The number of entries held.
    pub fn len(&self) -> (n: usize)
        ensures
            n == self@.len(),
    {
        self.paths.len()
    }

    /// Collapses every numbered sequence among the entries into one compact
    /// range entry, as [`spec_pack`] describes; everything else is kept in
    /// place and verbatim.
    pub fn packed(&self) -> (r: QuietPaths)
        ensures
            r@ == spec_pack(self@),
    {
        QuietPaths { paths: pack_vec(&self.paths) }
    }

    /// Rewrites every forward slash of every entry to a backslash.
    pub fn convert_windows(&mut self)
        ensures
            final(self)@ == all_to_windows(old(self)@),
    {
        proof {
            reveal_strlit("\\");
        }
        let rewritten = convert_vec(&self.paths, '/', "\\");
        self.paths = rewritten;
    }

    /// Rewrites every backslash of every entry to a forward slash.
    pub fn convert_posix(&mut self)
        ensures
            final(self)@ == all_to_posix(old(self)@),
    {
        proof {
            reveal_strlit("/");
        }
        let rewritten = convert_vec(&self.paths, '\\', "/");
        self.paths = rewritten;
    }
}

/// The collection after the optional transforms: packing first when asked
/// for, then Windows normalization when asked for.
pub open spec fn spec_transforms(s: Seq<Seq<char>>, packed: bool, windows: bool) -> Seq<
    Seq<char>,
> {
    let mid = if packed {
        spec_pack(s)
    } else {
        s
    };
    if windows {
        all_to_windows(mid)
    } else {
        mid
    }
}

/// Applies the two optional transforms in their fixed order — packing, then
/// Windows normalization — so that normalization cannot disturb the range
/// notation packing produces. An absent flag counts as false.
pub fn apply_transforms(paths: QuietPaths, packed: Option<bool>, windows: Option<bool>) -> (r:
    QuietPaths)
    ensures
        r@ == spec_transforms(paths@, packed == Some(true), windows == Some(true)),
{
    let do_pack = match packed {
        Some(b) => b,
        None => false,
    };
    let do_windows = match windows {
        Some(b) => b,
        None => false,
    };
    let mut mid = if do_pack {
        paths.packed()
    } else {
        paths
    };
    if do_windows {
        mid.convert_windows();
    }
    mid
}

/// Turns the outcome of a discovery pass into the collection or the error
/// owed for it: `None` stands for a root or directory that does not exist
/// and yields `NotFound`; otherwise the entries are taken as they came.
pub fn discovery_result(found: Option<Vec<String>>) -> (r: Result<QuietPaths, FsError>)
    ensures
        (match r {
            Ok(q) => found is Some && q@ == seq_views(found->0@),
            Err(e) => found is None && e is NotFound,
        }),
{
    match found {
        Some(entries) => Ok(QuietPaths::from_entries(entries)),
        None => Err(FsError::NotFound),
    }
}

} // verus!
