//! The storage locator: a single process-wide storage root derived from the
//! user's home location. Creating the directory chain on disk is the
//! embedding program's duty; this module only resolves the path.

use vstd::prelude::*;
use crate::errors::FsError;

verus! {

/// Relies on dirs::home_dir: the user's home directory, rendered as a
/// string, if the platform can determine one. The value depends on the
/// environment, so nothing is assumed about it.
#[verifier::external_body]
fn home_directory() -> (r: Option<String>) {
    dirs::home_dir().map(|p| p.to_string_lossy().into_owned())
}

/// The storage location under a given home directory.
pub fn storage_path_for(home: &str) -> (r: String)
    ensures
        r@ == home@ + "/corvex/data"@,
{
    let mut out = String::from_str(home);
    out.append("/corvex/data");
    out
}

/// Resolves the storage root path, `corvex/data` under the user's home
/// location; fails with `StorageUnavailable` when no home directory can be
/// determined.
pub fn get_storage_dir() -> (r: Result<String, FsError>)
    ensures
        match r {
            Ok(p) => exists|h: Seq<char>| p@ == h + "/corvex/data"@,
            Err(e) => e == FsError::StorageUnavailable,
        },
{
    match home_directory() {
        Some(h) => {
            let p = storage_path_for(h.as_str());
            Ok(p)
        },
        None => Err(FsError::StorageUnavailable),
    }
}

/// The storage root as a plain string.
pub fn get_storage_directory() -> (r: Result<String, FsError>)
    ensures
        match r {
            Ok(p) => exists|h: Seq<char>| p@ == h + "/corvex/data"@,
            Err(e) => e == FsError::StorageUnavailable,
        },
{
    get_storage_dir()
}

} // verus!
