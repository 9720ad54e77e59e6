use cargo_skeleton::error::SkeletonError;
use cargo_skeleton::unpack::{check_destination, UnpackOptions};

#[test]
fn project_without_lock_file_is_refused() {
    let error = check_destination(true, false).unwrap_err();
    assert!(matches!(error, SkeletonError::DestinationNotASkeleton));
    assert_eq!(
        error.message(),
        "Attempted to unpack a skeleton archive into an existing workspace"
    );
}

#[test]
fn other_destinations_are_accepted() {
    assert!(check_destination(false, false).is_ok());
    assert!(check_destination(false, true).is_ok());
    assert!(check_destination(true, true).is_ok());
}

#[test]
fn archive_path_defaults() {
    let options = UnpackOptions::default();
    assert!(options.archive_path.is_none());
    assert!(options.dest_path.is_none());
    assert_eq!(options.archive(), "skeleton.tar");
    let options = UnpackOptions { archive_path: Some("out/s.tar".to_string()), dest_path: None };
    assert_eq!(options.archive(), "out/s.tar");
}
