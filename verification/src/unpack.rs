//! Unpacking a skeleton: where the archive is, and whether the destination
//! may take it.

use crate::create::DEFAULT_OUT_PATH;
use crate::error::{ErrorView, SkeletonError};
use vstd::prelude::*;

verus! {

/// What to unpack, and where.
#[derive(Debug)]
pub struct UnpackOptions {
    /// The path of the archive; the default path where there is none.
    pub archive_path: Option<String>,
    /// The directory to unpack into; the current directory where there is
    /// none.
    pub dest_path: Option<String>,
}

impl Default for UnpackOptions {
    fn default() -> (options: Self)
        ensures
            options.archive_path is None,
            options.dest_path is None,
    {
        UnpackOptions { archive_path: None, dest_path: None }
    }
}

impl UnpackOptions {
    /// The path of the archive to unpack.
    pub fn archive(&self) -> (path: String)
        ensures
            path@ == match self.archive_path {
                Some(given) => given@,
                None => DEFAULT_OUT_PATH@,
            },
    {
        match &self.archive_path {
            Some(given) => given.clone(),
            None => DEFAULT_OUT_PATH.to_owned(),
        }
    }
}

/// Whether a skeleton may be unpacked into a directory, given whether the
/// directory holds a manifest and whether it holds the lock file of a
/// skeleton.
///
/// A directory with a manifest and without that lock file is taken for a
/// project that is no skeleton, and refused: unpacking would overwrite its
/// files. Every other directory is accepted.
pub fn check_destination(has_manifest: bool, has_lockfile: bool) -> (allowed: Result<
    (),
    SkeletonError,
>)
    ensures
        match allowed {
            Ok(_) => !has_manifest || has_lockfile,
            Err(error) => has_manifest && !has_lockfile && error@
                == ErrorView::DestinationNotASkeleton,
        },
{
    if has_manifest && !has_lockfile {
        Err(SkeletonError::DestinationNotASkeleton)
    } else {
        Ok(())
    }
}

} // verus!
