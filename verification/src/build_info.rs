//! Immutable build identity: what this binary is and where it came from.
//!
//! This module is the single owner of the version-plus-revision value and of
//! its canonical text. The version is the package version; the revision is
//! whatever the build supplied, or [`UNKNOWN_REVISION`] rather than an
//! invented commit. Reading the build environment is the caller's.

use vstd::prelude::*;

use crate::text::{chars_of, push_char, push_str};

verus! {

/// Reported when the build supplied no source revision. Deliberately not
/// hex-shaped, so it can never be mistaken for a commit id.
pub const UNKNOWN_REVISION: &'static str = "unknown";

/// What this binary is: a product version and the source it was built from.
#[derive(Clone, Copy, Debug, PartialEq, Eq)]
pub struct BuildIdentity {
    /// Product version, as the package declares it.
    pub version: &'static str,
    /// Exact source revision, or [`UNKNOWN_REVISION`] when the build supplied none.
    pub revision: &'static str,
}

/// The revision reported for what the build supplied: the supplied text
/// verbatim when there is any, otherwise the honest fallback.
pub open spec fn revision_for(supplied: Option<Seq<char>>) -> Seq<char> {
    match supplied {
        Some(r) => if r.len() > 0 {
            r
        } else {
            UNKNOWN_REVISION@
        },
        None => UNKNOWN_REVISION@,
    }
}

pub open spec fn opt_str_view(o: Option<&'static str>) -> Option<Seq<char>> {
    match o {
        Some(s) => Some(s@),
        None => None,
    }
}

/// Chooses between build-supplied provenance and the honest fallback. A build
/// that supplied nothing — or an empty string — reports [`UNKNOWN_REVISION`].
pub fn choose_revision(supplied: Option<&'static str>) -> (r: &'static str)
    ensures
        r@ == revision_for(opt_str_view(supplied)),
        r@.len() > 0,
{
    proof {
        reveal_strlit("unknown");
    }
    match supplied {
        Some(revision) => {
            if chars_of(revision).len() > 0 {
                revision
            } else {
                UNKNOWN_REVISION
            }
        },
        None => UNKNOWN_REVISION,
    }
}

/// The identity of a binary built as `version` with the build-supplied
/// revision `supplied`. Performs no I/O: the caller reads both from the build.
pub fn current(version: &'static str, supplied: Option<&'static str>) -> (r: BuildIdentity)
    ensures
        r.version@ == version@,
        r.revision@ == revision_for(opt_str_view(supplied)),
        r.revision@.len() > 0,
{
    BuildIdentity { version, revision: choose_revision(supplied) }
}

/// The canonical identity text.
pub open spec fn display_model(version: Seq<char>, revision: Seq<char>) -> Seq<char> {
    "factory-tui "@ + version + " (revision "@ + revision + seq![')']
}

/// The canonical identity text shared by the command line and the popup.
pub fn display(identity: BuildIdentity) -> (r: String)
    ensures
        r@ == display_model(identity.version@, identity.revision@),
{
    let mut out = String::new();
    push_str(&mut out, "factory-tui ");
    push_str(&mut out, identity.version);
    push_str(&mut out, " (revision ");
    push_str(&mut out, identity.revision);
    push_char(&mut out, ')');
    out
}

/// ASCII hex digit.
pub open spec fn is_hex(c: char) -> bool {
    ('0' <= c && c <= '9') || ('a' <= c && c <= 'f') || ('A' <= c && c <= 'F')
}

/// The fallback revision is never hex-shaped, so it cannot be read as a commit.
pub proof fn law_fallback_is_not_a_commit()
    ensures
        UNKNOWN_REVISION@.len() > 0,
        exists|i: int| 0 <= i < UNKNOWN_REVISION@.len() && !is_hex(#[trigger] UNKNOWN_REVISION@[i]),
{
    reveal_strlit("unknown");
    assert(!is_hex(UNKNOWN_REVISION@[1]));
}

} // verus!
