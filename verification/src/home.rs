//! The user's home directory, as the `dirs` crate finds it.

use vstd::prelude::*;

use crate::path_buf::PathBuf;

verus! {

/// A value the home-directory lookup can report: nothing, or a path that
/// is not empty.
pub open spec fn reportable_home(home: Option<Seq<u8>>) -> bool {
    home matches Some(h) ==> h.len() > 0
}

/// Calls `dirs::home_dir`. On Unix it reads `$HOME` when that is set and not
/// empty, and otherwise the home field of the current user's password entry;
/// it gives `None` when neither yields a non-empty path. The result depends
/// on the environment of the process, so the contract only records that a
/// path it gives is not empty.
#[verifier::external_body]
pub(crate) fn home_dir() -> (r: Option<PathBuf>)
    ensures
        r matches Some(h) ==> h@.len() > 0,
{
    match dirs::home_dir() {
        Some(home) => Some(PathBuf::from_bytes(home.into_os_string().into_encoded_bytes())),
        None => None,
    }
}

} // verus!
