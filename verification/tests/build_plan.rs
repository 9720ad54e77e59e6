use cargo_skeleton::build_plan::{
    after_run, build_arguments, build_set, plan_build, BuildOptions, Invocation,
};
use cargo_skeleton::error::SkeletonError;
use cargo_skeleton::package::{Package, PackageId};
use cargo_skeleton::workspace::Workspace;

fn id(text: &str) -> PackageId {
    PackageId::from(text)
}

fn package(name: &str, ident: &str, dependencies: &[&str]) -> Package {
    Package {
        name: name.to_string(),
        id: id(ident),
        dependencies: dependencies.iter().map(|d| id(d)).collect(),
    }
}

fn strings(texts: &[&str]) -> Vec<String> {
    texts.iter().map(|t| t.to_string()).collect()
}

fn options(packages: &[&str], exclude: &[&str], all: bool) -> BuildOptions {
    BuildOptions { packages: strings(packages), exclude: strings(exclude), all, ..BuildOptions::default() }
}

fn two_members() -> Workspace {
    let mut workspace = Workspace::new("/work".to_string());
    workspace.add_package(package("A", "A-id", &["B-id", "ext-crate@1.0"]));
    workspace.add_package(package("B", "B-id", &["ext-crate@2.0"]));
    workspace
}

fn chain() -> Workspace {
    let mut workspace = Workspace::new("/work".to_string());
    workspace.add_package(package("a", "a-id", &["b-id", "x 1"]));
    workspace.add_package(package("b", "b-id", &["c-id", "y 1"]));
    workspace.add_package(package("c", "c-id", &["z 1", "y 1"]));
    workspace.add_package(package("d", "d-id", &["a-id", "c-id"]));
    workspace
}

fn ids(texts: &[&str]) -> Vec<PackageId> {
    texts.iter().map(|t| id(t)).collect()
}

fn arguments(run: &Invocation) -> Vec<&str> {
    run.arguments.iter().map(|a| a.as_str()).collect()
}

#[test]
fn default_options_ask_for_nothing_in_particular() {
    let options = BuildOptions::default();
    assert!(options.manifest_path.is_none());
    assert!(options.packages.is_empty());
    assert!(options.exclude.is_empty());
    assert!(!options.all);
    assert!(options.args.is_empty());
}

#[test]
fn requested_package_brings_its_direct_members() {
    let workspace = two_members();
    let set = build_set(&workspace, &options(&["A"], &[], false)).unwrap();
    assert_eq!(set, ids(&["B-id", "A-id"]));
    let runs = plan_build(&workspace, &options(&["A"], &[], false)).unwrap();
    assert_eq!(runs.len(), 2);
    assert_eq!(runs[0].package, id("B-id"));
    assert_eq!(arguments(&runs[0]), vec!["build", "-p", "ext-crate@2.0"]);
    assert_eq!(runs[1].package, id("A-id"));
    assert_eq!(arguments(&runs[1]), vec!["build", "-p", "ext-crate@1.0"]);
}

#[test]
fn expansion_is_one_hop() {
    let workspace = chain();
    let set = build_set(&workspace, &options(&["a"], &[], false)).unwrap();
    assert_eq!(set, ids(&["b-id", "a-id"]));
    let set = build_set(&workspace, &options(&["d", "a"], &[], false)).unwrap();
    assert_eq!(set, ids(&["a-id", "c-id", "d-id", "b-id"]));
}

#[test]
fn all_selects_every_member() {
    let workspace = chain();
    let mut set = build_set(&workspace, &options(&[], &[], true)).unwrap();
    set.sort();
    assert_eq!(set, ids(&["a-id", "b-id", "c-id", "d-id"]));
    let mut set = build_set(&workspace, &options(&["a"], &[], true)).unwrap();
    set.sort();
    assert_eq!(set, ids(&["a-id", "b-id", "c-id", "d-id"]));
}

#[test]
fn no_request_selects_every_member() {
    let workspace = chain();
    let all = build_set(&workspace, &options(&[], &[], true)).unwrap();
    let none_named = build_set(&workspace, &options(&[], &[], false)).unwrap();
    assert_eq!(all, none_named);
    assert_eq!(all.len(), 4);
}

#[test]
fn empty_workspace_has_nothing_to_build() {
    let workspace = Workspace::new("/work".to_string());
    for all in [false, true] {
        let error = build_set(&workspace, &options(&[], &[], all)).unwrap_err();
        assert!(matches!(error, SkeletonError::NothingToBuild));
        assert_eq!(error.message(), "No packages to build");
    }
}

#[test]
fn excluding_what_is_requested_leaves_nothing() {
    let workspace = two_members();
    let error = build_set(&workspace, &options(&["A"], &["A"], false)).unwrap_err();
    assert!(matches!(error, SkeletonError::NothingToBuild));
    let error = build_set(&workspace, &options(&["A", "B"], &["B-id", "A-id"], false)).unwrap_err();
    assert!(matches!(error, SkeletonError::NothingToBuild));
    let error = plan_build(&workspace, &options(&[], &["A", "B"], true)).unwrap_err();
    assert!(matches!(error, SkeletonError::NothingToBuild));
}

#[test]
fn excluded_package_still_comes_as_dependency() {
    let workspace = two_members();
    let set = build_set(&workspace, &options(&["A", "B"], &["B"], false)).unwrap();
    assert_eq!(set, ids(&["B-id", "A-id"]));
    let set = build_set(&workspace, &options(&[], &["A"], false)).unwrap();
    assert_eq!(set, ids(&["B-id"]));
}

#[test]
fn unknown_specifications_fail_exclusions_first() {
    let workspace = two_members();
    let error = build_set(&workspace, &options(&["nope"], &["gone"], false)).unwrap_err();
    match error {
        SkeletonError::SpecNotFound(spec) => assert_eq!(spec, "gone"),
        other => panic!("unexpected error {:?}", other),
    }
    let error = build_set(&workspace, &options(&["A", "nope"], &["B"], false)).unwrap_err();
    match error {
        SkeletonError::SpecNotFound(spec) => assert_eq!(spec, "nope"),
        other => panic!("unexpected error {:?}", other),
    }
    assert!(build_set(&workspace, &options(&["nope"], &[], true)).is_ok());
}

#[test]
fn arguments_select_external_dependencies_and_pass_the_rest() {
    let workspace = chain();
    let package = workspace.get_package(&id("c-id")).unwrap();
    let arguments = build_arguments(&workspace, package, &strings(&["--release", "--locked"]));
    assert_eq!(arguments, vec!["build", "-p", "z 1", "-p", "y 1", "--release", "--locked"]);
    let package = package_without_externals();
    let arguments = build_arguments(&workspace, &package, &vec![]);
    assert_eq!(arguments, vec!["build"]);
}

fn package_without_externals() -> Package {
    package("e", "e-id", &["a-id", "b-id"])
}

#[test]
fn plan_passes_extra_arguments_to_every_run() {
    let workspace = two_members();
    let mut options = options(&["B"], &[], false);
    options.args = strings(&["--release"]);
    let runs = plan_build(&workspace, &options).unwrap();
    assert_eq!(runs.len(), 1);
    assert_eq!(arguments(&runs[0]), vec!["build", "-p", "ext-crate@2.0", "--release"]);
}

#[test]
fn failed_run_ends_the_build() {
    assert!(after_run(true).is_ok());
    let error = after_run(false).unwrap_err();
    assert!(matches!(error, SkeletonError::ExternalProcessFailed));
    assert_eq!(error.message(), "Failed to execute cargo build");
}
