//! Identity tokens that match views to elements across rebuilds.
//!
//! A key path records the call site at which a concrete view value was
//! lifted into a view configuration. Two sibling views built from different
//! source expressions therefore carry different key paths, while the same
//! expression evaluated in consecutive rebuilds yields equal key paths.

use vstd::prelude::*;

verus! {

/// A source position from which a view value was lifted into the view tree.
///
/// The `file` field is an opaque token standing for the source file (the
/// host derives it from the file path); `line` and `column` locate the
/// expression inside that file. Two distinct call sites differ in at least
/// one of the three fields.
#[derive(Debug, Clone, Copy, PartialEq, Eq, Hash, Structural)]
pub struct CallSite {
    pub file: u64,
    pub line: u64,
    pub column: u64,
}

/// Identity of an element in the view tree.
#[derive(Debug, Clone, Copy, PartialEq, Eq, Hash, Structural)]
pub enum KeyPath {
    /// No identity; used by views that never take part in matching.
    Empty,
    /// Identity derived from the call site that produced the view.
    TrackCaller(CallSite),
}

impl KeyPath {
    /// Lift a call site into a key path.
    pub fn from_site(site: CallSite) -> (r: KeyPath)
        ensures
            r == KeyPath::TrackCaller(site),
    {
        KeyPath::TrackCaller(site)
    }
}

/// Key paths separate call sites: the key paths of two call sites are equal
/// exactly when the call sites themselves are equal. In particular two
/// sibling views built from two different source expressions receive
/// different key paths even when they share a concrete type, and the same
/// expression evaluated twice yields the same key path both times.
pub proof fn lemma_key_path_from_site_injective(a: CallSite, b: CallSite)
    ensures
        (KeyPath::TrackCaller(a) == KeyPath::TrackCaller(b)) <==> (a == b),
{
}

} // verus!
