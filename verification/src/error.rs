//! The errors of the library.

use crate::package::PackageId;
use vstd::prelude::*;
use vstd::string::StringExecFns;

verus! {

/// Why an operation of the library failed.
#[derive(Debug)]
pub enum SkeletonError {
    /// A package specification matched no member of the workspace. Holds the
    /// specification as it was given.
    SpecNotFound(String),
    /// The resolver's output contradicts itself: it has no dependency graph
    /// at all (`None`), or the graph has no node for the package named.
    GraphInconsistency(Option<PackageId>),
    /// The bytes handed in are not a lock file.
    CorruptLockfile,
    /// A manifest or a target's source lies outside the workspace root.
    /// Holds the path.
    PathEscapesWorkspace(String),
    /// A file that belongs in the archive was not handed in. Holds its
    /// path, relative to the workspace root.
    MissingFile(String),
    /// The archive writer refused the path of an entry, or (`None`) could
    /// not finish the archive.
    ArchiveRefused(Option<String>),
    /// The destination of an extraction holds a manifest but no lock file:
    /// it looks like a project, not like a skeleton.
    DestinationNotASkeleton,
    /// The selection of packages to build came out empty.
    NothingToBuild,
    /// The external compiler exited with a failure.
    ExternalProcessFailed,
}

/// An error in contracts: the same cases, with text in place of strings.
pub enum ErrorView {
    SpecNotFound(Seq<char>),
    GraphInconsistency(Option<Seq<char>>),
    CorruptLockfile,
    PathEscapesWorkspace(Seq<char>),
    MissingFile(Seq<char>),
    ArchiveRefused(Option<Seq<char>>),
    DestinationNotASkeleton,
    NothingToBuild,
    ExternalProcessFailed,
}

impl View for SkeletonError {
    type V = ErrorView;

    open spec fn view(&self) -> ErrorView {
        match self {
            SkeletonError::SpecNotFound(spec) => ErrorView::SpecNotFound(spec@),
            SkeletonError::GraphInconsistency(Some(id)) => ErrorView::GraphInconsistency(
                Some(id@),
            ),
            SkeletonError::GraphInconsistency(None) => ErrorView::GraphInconsistency(None),
            SkeletonError::CorruptLockfile => ErrorView::CorruptLockfile,
            SkeletonError::PathEscapesWorkspace(path) => ErrorView::PathEscapesWorkspace(path@),
            SkeletonError::MissingFile(path) => ErrorView::MissingFile(path@),
            SkeletonError::ArchiveRefused(Some(path)) => ErrorView::ArchiveRefused(Some(path@)),
            SkeletonError::ArchiveRefused(None) => ErrorView::ArchiveRefused(None),
            SkeletonError::DestinationNotASkeleton => ErrorView::DestinationNotASkeleton,
            SkeletonError::NothingToBuild => ErrorView::NothingToBuild,
            SkeletonError::ExternalProcessFailed => ErrorView::ExternalProcessFailed,
        }
    }
}

/// What an error says of itself.
pub open spec fn message_text(error: ErrorView) -> Seq<char> {
    match error {
        ErrorView::SpecNotFound(spec) => "package ID specification `"@ + spec
            + "` did not match any packages"@,
        ErrorView::GraphInconsistency(None) => "Metadata missing deps"@,
        ErrorView::GraphInconsistency(Some(id)) => "Missing package resolution for "@ + id,
        ErrorView::CorruptLockfile => "The skeleton lock file is corrupt"@,
        ErrorView::PathEscapesWorkspace(path) => "Path `"@ + path
            + "` is outside of the workspace root"@,
        ErrorView::MissingFile(path) => "File `"@ + path + "` was not read"@,
        ErrorView::ArchiveRefused(Some(path)) => "Path `"@ + path
            + "` cannot be stored in the archive"@,
        ErrorView::ArchiveRefused(None) => "The archive could not be finished"@,
        ErrorView::DestinationNotASkeleton =>
            "Attempted to unpack a skeleton archive into an existing workspace"@,
        ErrorView::NothingToBuild => "No packages to build"@,
        ErrorView::ExternalProcessFailed => "Failed to execute cargo build"@,
    }
}

/// The text `before`, then `middle`, then `after`.
fn framed(before: &str, middle: &str, after: &str) -> (text: String)
    ensures
        text@ == before@ + middle@ + after@,
{
    let mut text = before.to_owned();
    text.append(middle);
    text.append(after);
    text
}

impl SkeletonError {
    /// What the error says of itself.
    pub fn message(&self) -> (text: String)
        ensures
            text@ == message_text(self@),
    {
        match self {
            SkeletonError::SpecNotFound(spec) => framed(
                "package ID specification `",
                spec.as_str(),
                "` did not match any packages",
            ),
            SkeletonError::GraphInconsistency(None) => "Metadata missing deps".to_owned(),
            SkeletonError::GraphInconsistency(Some(id)) => {
                let mut text = "Missing package resolution for ".to_owned();
                text.append(id.as_str());
                text
            },
            SkeletonError::CorruptLockfile => "The skeleton lock file is corrupt".to_owned(),
            SkeletonError::PathEscapesWorkspace(path) => framed(
                "Path `",
                path.as_str(),
                "` is outside of the workspace root",
            ),
            SkeletonError::MissingFile(path) => framed("File `", path.as_str(), "` was not read"),
            SkeletonError::ArchiveRefused(Some(path)) => framed(
                "Path `",
                path.as_str(),
                "` cannot be stored in the archive",
            ),
            SkeletonError::ArchiveRefused(None) => "The archive could not be finished".to_owned(),
            SkeletonError::DestinationNotASkeleton =>
                "Attempted to unpack a skeleton archive into an existing workspace".to_owned(),
            SkeletonError::NothingToBuild => "No packages to build".to_owned(),
            SkeletonError::ExternalProcessFailed => "Failed to execute cargo build".to_owned(),
        }
    }
}

} // verus!
