use cargo_skeleton::error::SkeletonError;
use cargo_skeleton::lockfile::{deserialize, serialize, Lockfile, LOCKFILE_NAME};
use cargo_skeleton::package::{Package, PackageId};
use cargo_skeleton::workspace::Workspace;

fn package(name: &str, id: &str, dependencies: &[&str]) -> Package {
    Package {
        name: name.to_string(),
        id: PackageId::from(id),
        dependencies: dependencies.iter().map(|d| PackageId::from(*d)).collect(),
    }
}

#[test]
fn lock_file_name_is_fixed() {
    assert_eq!(LOCKFILE_NAME, "Skeleton.lock");
}

#[test]
fn empty_lock_file_is_empty_text() {
    let lockfile = Lockfile { packages: vec![] };
    assert_eq!(lockfile.to_bytes(), Vec::<u8>::new());
    let read = deserialize(b"").unwrap();
    assert!(read.packages.is_empty());
}

#[test]
fn record_is_written_as_text() {
    let lockfile = Lockfile {
        packages: vec![package("app", "app 0.1.0", &["log 0.4.0", "lib 0.1.0"])],
    };
    let text = String::from_utf8(lockfile.to_bytes()).unwrap();
    assert_eq!(
        text,
        "[[packages]]\nname = \"app\"\nid = \"app 0.1.0\"\ndependencies = [\"log 0.4.0\", \"lib 0.1.0\"]\n\n"
    );
}

#[test]
fn record_without_dependencies_has_empty_list() {
    let lockfile = Lockfile { packages: vec![package("lib", "lib 0.1.0", &[])] };
    let text = String::from_utf8(lockfile.to_bytes()).unwrap();
    assert_eq!(text, "[[packages]]\nname = \"lib\"\nid = \"lib 0.1.0\"\ndependencies = []\n\n");
}

#[test]
fn quotes_backslashes_and_line_feeds_are_escaped() {
    let lockfile = Lockfile { packages: vec![package("a\"b\\c\nd", "x", &[])] };
    let text = String::from_utf8(lockfile.to_bytes()).unwrap();
    assert_eq!(
        text,
        "[[packages]]\nname = \"a\\\"b\\\\c\\nd\"\nid = \"x\"\ndependencies = []\n\n"
    );
    let read = deserialize(text.as_bytes()).unwrap();
    assert_eq!(read.packages, lockfile.packages);
}

#[test]
fn lock_file_reads_back() {
    let packages = vec![
        package("app", "app 0.1.0 (path+file:///work/app)", &["lib 0.1.0 (path+file:///work/lib)", "log 0.4.0"]),
        package("lib", "lib 0.1.0 (path+file:///work/lib)", &[]),
        package("ünï", "ünï 1.0.0", &["日本 2.0.0"]),
    ];
    let lockfile = Lockfile { packages };
    let read = deserialize(&lockfile.to_bytes()).unwrap();
    assert_eq!(read.packages, lockfile.packages);
}

#[test]
fn serialize_sorts_members_by_id() {
    let mut workspace = Workspace::new("/work".to_string());
    workspace.add_package(package("zeta", "b-id", &[]));
    workspace.add_package(package("alpha", "c-id", &["b-id"]));
    workspace.add_package(package("mid", "a-id", &[]));
    let read = deserialize(&serialize(&workspace)).unwrap();
    let ids: Vec<&str> = read.packages.iter().map(|p| p.id.as_str()).collect();
    assert_eq!(ids, vec!["a-id", "b-id", "c-id"]);
    let names: Vec<&str> = read.packages.iter().map(|p| p.name.as_str()).collect();
    assert_eq!(names, vec!["mid", "zeta", "alpha"]);
}

#[test]
fn malformed_lock_files_are_refused() {
    let cases: Vec<&[u8]> = vec![
        b"garbage",
        b"[[packages]]\n",
        b"[[packages]]\nname = \"a\"\nid = \"b\"\ndependencies = []\n",
        b"[[packages]]\nname = \"a\"\nid = \"b\"\ndependencies = [\"c\",\"d\"]\n\n",
        b"[[packages]]\nname = \"a\"\nid = \"b\"\ndependencies = [\"c\", ]\n\n",
        b"[[packages]]\nname = \"a\\x\"\nid = \"b\"\ndependencies = []\n\n",
        b"[[packages]]\nname = \"a\nb\"\nid = \"b\"\ndependencies = []\n\n",
        b"[[packages]]\nname = \"a\"\nid = \"b\"\ndependencies = []\n\n\n",
        b"[[packages]]\nname = \"a\xff\"\nid = \"b\"\ndependencies = []\n\n",
        b"[[packages]]\nname = \"a\"\nid = \"b\"\ndependencies = [\"\xc3\"]\n\n",
    ];
    for bytes in cases {
        assert!(matches!(deserialize(bytes), Err(SkeletonError::CorruptLockfile)));
    }
}
