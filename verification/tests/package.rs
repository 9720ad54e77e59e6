use cargo_skeleton::error::SkeletonError;
use cargo_skeleton::metadata::{DependencyKind, MetaPackage, Metadata, Node, NodeDep};
use cargo_skeleton::package::{clone_ids, same_ids, Package, PackageId};

fn id(text: &str) -> PackageId {
    PackageId::from(text)
}

fn dep(pkg: &str, kinds: &[DependencyKind]) -> NodeDep {
    NodeDep { pkg: id(pkg), dep_kinds: kinds.to_vec() }
}

fn metadata(resolve: Option<Vec<Node>>) -> Metadata {
    Metadata { workspace_root: "/work".to_string(), packages: vec![], resolve }
}

fn bare(name: &str, ident: &str) -> Package {
    Package { name: name.to_string(), id: id(ident), dependencies: vec![] }
}

#[test]
fn package_id_keeps_its_text() {
    let from_str = PackageId::from("app 0.1.0 (path+file:///work/app)");
    assert_eq!(from_str.as_str(), "app 0.1.0 (path+file:///work/app)");
    let from_string = PackageId::from(String::from("lib 0.2.0"));
    assert_eq!(from_string.as_str(), "lib 0.2.0");
    assert_eq!(from_string.to_string(), "lib 0.2.0");
    assert_eq!(PackageId::from("").as_str(), "");
}

#[test]
fn package_ids_compare_by_text() {
    assert_eq!(id("a"), id("a"));
    assert_ne!(id("a"), id("b"));
    assert_ne!(id("a"), id("a "));
    assert_eq!(id("a").clone(), id("a"));
    assert!(id("a") < id("b"));
}

#[test]
fn lists_of_ids_compare_in_order() {
    let one = vec![id("a"), id("b")];
    assert!(same_ids(&one, &clone_ids(&one)));
    assert!(!same_ids(&one, &vec![id("b"), id("a")]));
    assert!(!same_ids(&one, &vec![id("a")]));
    assert!(same_ids(&vec![], &vec![]));
}

#[test]
fn packages_compare_by_all_fields() {
    let package = Package { name: "app".to_string(), id: id("app 1"), dependencies: vec![id("x")] };
    assert_eq!(package.clone(), package);
    let mut other = package.clone();
    other.dependencies.push(id("y"));
    assert_ne!(other, package);
    let mut renamed = package.clone();
    renamed.name = "other".to_string();
    assert_ne!(renamed, package);
}

#[test]
fn package_from_resolver_package_has_no_dependencies() {
    let meta = MetaPackage {
        name: "app".to_string(),
        id: id("app 1"),
        source: None,
        manifest_path: "/work/app/Cargo.toml".to_string(),
        targets: vec![],
    };
    let package = Package::from(&meta);
    assert_eq!(package, bare("app", "app 1"));
}

#[test]
fn normal_dependencies_are_loaded_in_order() {
    let nodes = vec![
        Node { id: id("other 1"), deps: vec![dep("zzz", &[DependencyKind::Normal])] },
        Node {
            id: id("app 1"),
            deps: vec![
                dep("lib 1", &[DependencyKind::Normal]),
                dep("dev 1", &[DependencyKind::Development]),
                dep("build 1", &[DependencyKind::Build]),
                dep("both 1", &[DependencyKind::Build, DependencyKind::Normal]),
                dep("none 1", &[]),
                dep("unknown 1", &[DependencyKind::Unknown]),
                dep("ext 1", &[DependencyKind::Normal, DependencyKind::Development]),
            ],
        },
        Node { id: id("app 1"), deps: vec![dep("second node", &[DependencyKind::Normal])] },
    ];
    let mut package = bare("app", "app 1");
    package.dependencies.push(id("stale"));
    package.load_metadata_dependencies(&metadata(Some(nodes))).unwrap();
    assert_eq!(package.name, "app");
    assert_eq!(package.id, id("app 1"));
    assert_eq!(package.dependencies, vec![id("lib 1"), id("both 1"), id("ext 1")]);
}

#[test]
fn missing_graph_is_an_inconsistency() {
    let mut package = bare("app", "app 1");
    package.dependencies.push(id("kept"));
    let error = package.load_metadata_dependencies(&metadata(None)).unwrap_err();
    assert!(matches!(error, SkeletonError::GraphInconsistency(None)));
    assert_eq!(error.message(), "Metadata missing deps");
    assert_eq!(package.dependencies, vec![id("kept")]);
}

#[test]
fn missing_node_is_an_inconsistency() {
    let nodes = vec![Node { id: id("other 1"), deps: vec![] }];
    let mut package = bare("app", "app 1");
    let error = package.load_metadata_dependencies(&metadata(Some(nodes))).unwrap_err();
    match &error {
        SkeletonError::GraphInconsistency(Some(named)) => assert_eq!(named.as_str(), "app 1"),
        other => panic!("unexpected error {:?}", other),
    }
    assert_eq!(error.message(), "Missing package resolution for app 1");
    assert!(package.dependencies.is_empty());
}
