use cargo_skeleton::metadata::{DependencyKind, NodeDep, TargetKind};
use cargo_skeleton::package::PackageId;

fn kinds(names: &[&str]) -> Vec<String> {
    names.iter().map(|name| name.to_string()).collect()
}

#[test]
fn binaries_examples_and_build_scripts_need_an_entry_point() {
    assert_eq!(TargetKind::of_kinds(&kinds(&["bin"])), TargetKind::Executable);
    assert_eq!(TargetKind::of_kinds(&kinds(&["example"])), TargetKind::Executable);
    assert_eq!(TargetKind::of_kinds(&kinds(&["custom-build"])), TargetKind::Executable);
    assert_eq!(TargetKind::of_kinds(&kinds(&["lib", "bin"])), TargetKind::Executable);
}

#[test]
fn other_targets_are_libraries() {
    for kind in ["lib", "rlib", "dylib", "cdylib", "staticlib", "proc-macro", "test", "bench", "binary", ""] {
        assert_eq!(TargetKind::of_kinds(&kinds(&[kind])), TargetKind::Library, "{}", kind);
    }
    assert_eq!(TargetKind::of_kinds(&kinds(&["lib", "rlib", "cdylib"])), TargetKind::Library);
    assert_eq!(TargetKind::of_kinds(&kinds(&[])), TargetKind::Library);
}

#[test]
fn edge_is_normal_where_one_kind_is() {
    let edge = |kinds: &[DependencyKind]| NodeDep { pkg: PackageId::from("x"), dep_kinds: kinds.to_vec() };
    assert!(edge(&[DependencyKind::Normal]).is_normal());
    assert!(edge(&[DependencyKind::Build, DependencyKind::Normal]).is_normal());
    assert!(!edge(&[DependencyKind::Build, DependencyKind::Development]).is_normal());
    assert!(!edge(&[DependencyKind::Unknown]).is_normal());
    assert!(!edge(&[]).is_normal());
}
