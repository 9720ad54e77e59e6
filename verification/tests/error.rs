use cargo_skeleton::error::SkeletonError;
use cargo_skeleton::package::PackageId;

#[test]
fn every_error_has_a_message() {
    let cases = vec![
        (
            SkeletonError::SpecNotFound("x".to_string()),
            "package ID specification `x` did not match any packages",
        ),
        (SkeletonError::GraphInconsistency(None), "Metadata missing deps"),
        (
            SkeletonError::GraphInconsistency(Some(PackageId::from("app 1"))),
            "Missing package resolution for app 1",
        ),
        (SkeletonError::CorruptLockfile, "The skeleton lock file is corrupt"),
        (
            SkeletonError::PathEscapesWorkspace("/x/y".to_string()),
            "Path `/x/y` is outside of the workspace root",
        ),
        (SkeletonError::MissingFile("a/b".to_string()), "File `a/b` was not read"),
        (
            SkeletonError::ArchiveRefused(Some("../a".to_string())),
            "Path `../a` cannot be stored in the archive",
        ),
        (SkeletonError::ArchiveRefused(None), "The archive could not be finished"),
        (
            SkeletonError::DestinationNotASkeleton,
            "Attempted to unpack a skeleton archive into an existing workspace",
        ),
        (SkeletonError::NothingToBuild, "No packages to build"),
        (SkeletonError::ExternalProcessFailed, "Failed to execute cargo build"),
    ];
    for (error, message) in cases {
        assert_eq!(error.message(), message);
    }
}
