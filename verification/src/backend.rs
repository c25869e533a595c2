//! Backend selection: which store serves a given domain.

use vstd::prelude::*;

use crate::domain::Domain;

verus! {

/// The two backends a domain's operations can go through.
#[derive(Debug, Clone, Copy, PartialEq, Eq, Structural)]
pub enum ActiveBackend {
    CoreFoundation,
    File,
}

/// Route a domain: a `Path` domain always goes to the file backend;
/// name-addressed domains use the native service exactly when it is
/// available, and fall back to the file backend when it is not.  The
/// decision is a pure function of the domain and the availability probe,
/// made anew at every call.
pub fn select_backend(domain: &Domain, native_available: bool) -> (r: ActiveBackend)
    ensures
        domain@ is Path ==> r is File,
        !(domain@ is Path) && native_available ==> r is CoreFoundation,
        !(domain@ is Path) && !native_available ==> r is File,
{
    match domain {
        Domain::Path(_) => ActiveBackend::File,
        _ => {
            if native_available {
                ActiveBackend::CoreFoundation
            } else {
                ActiveBackend::File
            }
        },
    }
}

} // verus!
