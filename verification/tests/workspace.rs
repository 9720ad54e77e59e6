use cargo_skeleton::error::SkeletonError;
use cargo_skeleton::lockfile::Lockfile;
use cargo_skeleton::metadata::{DependencyKind, MetaPackage, Metadata, Node, NodeDep};
use cargo_skeleton::package::{Package, PackageId};
use cargo_skeleton::workspace::Workspace;

fn id(text: &str) -> PackageId {
    PackageId::from(text)
}

fn package(name: &str, ident: &str, dependencies: &[&str]) -> Package {
    Package {
        name: name.to_string(),
        id: id(ident),
        dependencies: dependencies.iter().map(|d| id(d)).collect(),
    }
}

fn meta(name: &str, ident: &str, source: Option<&str>, manifest: &str) -> MetaPackage {
    MetaPackage {
        name: name.to_string(),
        id: id(ident),
        source: source.map(|s| s.to_string()),
        manifest_path: manifest.to_string(),
        targets: vec![],
    }
}

fn node(ident: &str, deps: &[(&str, DependencyKind)]) -> Node {
    Node {
        id: id(ident),
        deps: deps.iter().map(|(pkg, kind)| NodeDep { pkg: id(pkg), dep_kinds: vec![*kind] }).collect(),
    }
}

fn names(workspace: &Workspace) -> Vec<String> {
    workspace.packages().iter().map(|p| p.name.clone()).collect()
}

#[test]
fn new_workspace_is_empty() {
    let workspace = Workspace::new("/work".to_string());
    assert_eq!(workspace.root(), "/work");
    assert!(workspace.packages().is_empty());
    assert!(!workspace.is_member(&id("a")));
    assert!(workspace.get_package(&id("a")).is_none());
    assert!(workspace.package_id("a").is_none());
}

#[test]
fn first_package_with_an_id_stays() {
    let mut workspace = Workspace::new("/work".to_string());
    workspace.add_package(package("first", "same", &["x"]));
    workspace.add_package(package("second", "same", &["y"]));
    workspace.add_package(package("third", "other", &[]));
    assert_eq!(names(&workspace), vec!["first", "third"]);
    assert_eq!(workspace.get_package(&id("same")).unwrap(), &package("first", "same", &["x"]));
    assert_eq!(&workspace[&id("other")], &package("third", "other", &[]));
    assert_eq!(workspace.root(), "/work");
}

#[test]
fn membership_goes_by_id() {
    let mut workspace = Workspace::new("/work".to_string());
    workspace.add_package(package("app", "app 1", &["lib 1", "ext 1"]));
    workspace.add_package(package("lib", "lib 1", &[]));
    assert!(workspace.is_member(&id("app 1")));
    assert!(workspace.is_member(&id("lib 1")));
    assert!(!workspace.is_member(&id("ext 1")));
    assert!(!workspace.is_member(&id("app")));
    let app = workspace.get_package(&id("app 1")).unwrap();
    let members: Vec<bool> = app.dependencies.iter().map(|d| workspace.is_member(d)).collect();
    assert_eq!(members, vec![true, false]);
}

#[test]
fn specifications_match_names_before_ids() {
    let mut workspace = Workspace::new("/work".to_string());
    workspace.add_package(package("app", "lib", &[]));
    workspace.add_package(package("lib", "lib 1", &[]));
    workspace.add_package(package("lib", "lib 2", &[]));
    assert_eq!(workspace.package_id("app").unwrap(), &id("lib"));
    assert_eq!(workspace.package_id("lib").unwrap(), &id("lib 1"));
    assert_eq!(workspace.package_id("lib 2").unwrap(), &id("lib 2"));
    assert!(workspace.package_id("lib 3").is_none());
    assert!(workspace.package_id("").is_none());
}

#[test]
fn all_specifications_must_match() {
    let mut workspace = Workspace::new("/work".to_string());
    workspace.add_package(package("app", "app 1", &[]));
    workspace.add_package(package("lib", "lib 1", &[]));
    let found = workspace
        .get_package_ids(&["lib".to_string(), "app 1".to_string(), "lib".to_string()])
        .unwrap();
    assert_eq!(found, vec![&id("lib 1"), &id("app 1"), &id("lib 1")]);
    assert!(workspace.get_package_ids(&[]).unwrap().is_empty());
    let error = workspace
        .get_package_ids(&["lib".to_string(), "nope".to_string(), "neither".to_string()])
        .unwrap_err();
    match &error {
        SkeletonError::SpecNotFound(spec) => assert_eq!(spec, "nope"),
        other => panic!("unexpected error {:?}", other),
    }
    assert_eq!(
        error.message(),
        "package ID specification `nope` did not match any packages"
    );
}

#[test]
fn load_metadata_keeps_local_packages_under_the_root() {
    let metadata = Metadata {
        workspace_root: "/work".to_string(),
        packages: vec![
            meta("zapp", "zapp 1", None, "/work/zapp/Cargo.toml"),
            meta("ext", "ext 1", Some("registry+https://example.org/index"), "/cache/ext/Cargo.toml"),
            meta("elsewhere", "elsewhere 1", None, "/other/elsewhere/Cargo.toml"),
            meta("sibling", "sibling 1", None, "/workshop/sibling/Cargo.toml"),
            meta("lib", "lib 1", None, "/work/lib/Cargo.toml"),
            meta("vendored", "vendored 1", Some("git+https://example.org/v"), "/work/vendor/v/Cargo.toml"),
        ],
        resolve: Some(vec![
            node("lib 1", &[("ext 1", DependencyKind::Normal), ("dev 1", DependencyKind::Development)]),
            node("zapp 1", &[("lib 1", DependencyKind::Normal), ("elsewhere 1", DependencyKind::Normal)]),
            node("ext 1", &[]),
        ]),
    };
    let mut workspace = Workspace::new("/work".to_string());
    workspace.load_metadata(&metadata).unwrap();
    assert_eq!(
        workspace.packages(),
        &vec![
            package("lib", "lib 1", &["ext 1"]),
            package("zapp", "zapp 1", &["lib 1", "elsewhere 1"]),
        ]
    );
    assert!(!workspace.is_member(&id("ext 1")));
    assert!(!workspace.is_member(&id("elsewhere 1")));
    assert!(!workspace.is_member(&id("sibling 1")));
    assert!(!workspace.is_member(&id("vendored 1")));
}

#[test]
fn load_metadata_sorts_by_id_and_keeps_first_of_equal_ids() {
    let metadata = Metadata {
        workspace_root: "/work".to_string(),
        packages: vec![
            meta("c-first", "c", None, "/work/c/Cargo.toml"),
            meta("a", "a", None, "/work/a/Cargo.toml"),
            meta("c-second", "c", None, "/work/c2/Cargo.toml"),
            meta("b", "b", None, "/work/b/Cargo.toml"),
        ],
        resolve: Some(vec![node("a", &[]), node("b", &[]), node("c", &[])]),
    };
    let mut workspace = Workspace::new("/work".to_string());
    workspace.add_package(package("old", "b", &["kept"]));
    workspace.load_metadata(&metadata).unwrap();
    assert_eq!(names(&workspace), vec!["old", "a", "c-first"]);
    assert_eq!(workspace.get_package(&id("b")).unwrap().dependencies, vec![id("kept")]);
}

#[test]
fn load_metadata_adds_nothing_on_inconsistency() {
    let metadata = Metadata {
        workspace_root: "/work".to_string(),
        packages: vec![
            meta("b", "b", None, "/work/b/Cargo.toml"),
            meta("a", "a", None, "/work/a/Cargo.toml"),
            meta("c", "c", None, "/work/c/Cargo.toml"),
        ],
        resolve: Some(vec![node("a", &[])]),
    };
    let mut workspace = Workspace::new("/work".to_string());
    let error = workspace.load_metadata(&metadata).unwrap_err();
    match error {
        SkeletonError::GraphInconsistency(Some(named)) => assert_eq!(named, id("b")),
        other => panic!("unexpected error {:?}", other),
    }
    assert!(workspace.packages().is_empty());

    let without_graph = Metadata { resolve: None, ..metadata };
    let error = workspace.load_metadata(&without_graph).unwrap_err();
    assert!(matches!(error, SkeletonError::GraphInconsistency(None)));
    assert!(workspace.packages().is_empty());
}

#[test]
fn load_metadata_without_members_needs_no_graph() {
    let metadata = Metadata {
        workspace_root: "/work".to_string(),
        packages: vec![meta("ext", "ext 1", Some("registry"), "/work/ext/Cargo.toml")],
        resolve: None,
    };
    let mut workspace = Workspace::new("/work".to_string());
    workspace.load_metadata(&metadata).unwrap();
    assert!(workspace.packages().is_empty());
}

#[test]
fn lock_file_round_trip_gives_the_same_packages() {
    let mut workspace = Workspace::new("/work".to_string());
    workspace.add_package(package("zeta", "zeta 1", &["alpha 1", "ext 1"]));
    workspace.add_package(package("alpha", "alpha 1", &[]));
    workspace.add_package(package("mid \"quoted\"", "mid\n1", &["back\\slash"]));
    let bytes = workspace.to_lockfile().to_bytes();
    let mut loaded = Workspace::new("/elsewhere".to_string());
    loaded.load_lockfile(&bytes).unwrap();
    assert_eq!(loaded.root(), "/elsewhere");
    assert_eq!(loaded.packages().len(), 3);
    for member in workspace.packages() {
        assert_eq!(loaded.get_package(&member.id).unwrap(), member);
    }
    for member in loaded.packages() {
        assert_eq!(workspace.get_package(&member.id).unwrap(), member);
    }
}

#[test]
fn load_lockfile_refuses_corrupt_bytes() {
    let mut workspace = Workspace::new("/work".to_string());
    workspace.add_package(package("kept", "kept 1", &[]));
    let error = workspace.load_lockfile(b"[[packages]]\nname = ").unwrap_err();
    assert!(matches!(error, SkeletonError::CorruptLockfile));
    assert_eq!(names(&workspace), vec!["kept"]);
}

#[test]
fn load_lockfile_adds_records_in_file_order() {
    let lockfile = Lockfile {
        packages: vec![package("b", "b 1", &[]), package("a", "a 1", &[]), package("dup", "b 1", &[])],
    };
    let mut workspace = Workspace::new("/work".to_string());
    workspace.load_lockfile(&lockfile.to_bytes()).unwrap();
    assert_eq!(names(&workspace), vec!["b", "a"]);
}

#[test]
fn into_lockfile_sorts_by_id() {
    let mut workspace = Workspace::new("/work".to_string());
    workspace.add_package(package("one", "b", &[]));
    workspace.add_package(package("two", "a", &["b"]));
    workspace.add_package(package("three", "ab", &[]));
    let lockfile = workspace.into_lockfile();
    assert_eq!(
        lockfile.packages,
        vec![package("two", "a", &["b"]), package("three", "ab", &[]), package("one", "b", &[])]
    );
}

#[test]
fn add_packages_adds_copies_in_order() {
    let mut workspace = Workspace::new("/work".to_string());
    let added = vec![package("a", "1", &[]), package("b", "2", &[]), package("c", "1", &[])];
    workspace.add_packages(&added);
    assert_eq!(names(&workspace), vec!["a", "b"]);
}
