use cargo_skeleton::archive::{write_archive, ArchiveEntry, FileMeta};
use cargo_skeleton::create::{
    assemble, create_skeleton, fixed_file_meta, plan_skeleton, stub_entry, PlannedEntry,
    DEFAULT_OUT_PATH, EXECUTABLE_STUB, LIBRARY_STUB,
};
use cargo_skeleton::error::SkeletonError;
use cargo_skeleton::lockfile::{deserialize, serialize};
use cargo_skeleton::metadata::{
    DependencyKind, MetaPackage, Metadata, Node, NodeDep, Target, TargetKind,
};
use cargo_skeleton::package::PackageId;
use cargo_skeleton::workspace::Workspace;
use std::io::Read;

fn id(text: &str) -> PackageId {
    PackageId::from(text)
}

fn target(name: &str, kind: TargetKind, src_path: &str) -> Target {
    Target { name: name.to_string(), kind, src_path: src_path.to_string() }
}

fn meta(name: &str, ident: &str, source: Option<&str>, manifest: &str, targets: Vec<Target>) -> MetaPackage {
    MetaPackage {
        name: name.to_string(),
        id: id(ident),
        source: source.map(|s| s.to_string()),
        manifest_path: manifest.to_string(),
        targets,
    }
}

fn node(ident: &str, deps: &[&str]) -> Node {
    Node {
        id: id(ident),
        deps: deps
            .iter()
            .map(|pkg| NodeDep { pkg: id(pkg), dep_kinds: vec![DependencyKind::Normal] })
            .collect(),
    }
}

fn file(path: &str, contents: &[u8]) -> ArchiveEntry {
    ArchiveEntry {
        path: path.to_string(),
        meta: FileMeta { mode: 0o600, mtime: 1700000000, uid: 1000, gid: 100 },
        contents: contents.to_vec(),
    }
}

fn sample() -> Metadata {
    Metadata {
        workspace_root: "/work".to_string(),
        packages: vec![
            meta(
                "zapp",
                "zapp 1",
                None,
                "/work/crates/zapp/Cargo.toml",
                vec![
                    target("zapp", TargetKind::Executable, "/work/crates/zapp/src/main.rs"),
                    target("build-script-build", TargetKind::Executable, "/work/crates/zapp/build.rs"),
                    target("zapp", TargetKind::Library, "/work/crates/zapp/src/lib.rs"),
                ],
            ),
            meta("ext", "ext 1", Some("registry+https://example.org/index"), "/cache/ext/Cargo.toml", vec![
                target("ext", TargetKind::Library, "/cache/ext/src/lib.rs"),
            ]),
            meta("lib", "lib 1", None, "/work/lib/Cargo.toml", vec![
                target("lib", TargetKind::Library, "/work/lib/src/lib.rs"),
            ]),
        ],
        resolve: Some(vec![node("zapp 1", &["lib 1", "ext 1"]), node("lib 1", &[]), node("ext 1", &[])]),
    }
}

fn sample_files() -> Vec<ArchiveEntry> {
    vec![
        file("Cargo.lock", b"# lock\n"),
        file("lib/Cargo.toml", b"[package]\nname = \"lib\"\n"),
        file("unused.txt", b"unused"),
        file("Cargo.toml", b"[workspace]\n"),
        file("crates/zapp/Cargo.toml", b"[package]\nname = \"zapp\"\n"),
        file("Cargo.toml", b"second, never taken"),
    ]
}

fn loaded(metadata: &Metadata) -> Workspace {
    let mut workspace = Workspace::new(metadata.workspace_root.clone());
    workspace.load_metadata(metadata).unwrap();
    workspace
}

fn describe(plan: &[PlannedEntry]) -> Vec<String> {
    plan.iter()
        .map(|entry| match entry {
            PlannedEntry::File(path) => format!("file {}", path),
            PlannedEntry::Stub(path, TargetKind::Library) => format!("lib {}", path),
            PlannedEntry::Stub(path, TargetKind::Executable) => format!("exe {}", path),
            PlannedEntry::Lock => "lock".to_string(),
        })
        .collect()
}

fn unpacked(bytes: &[u8]) -> Vec<(String, u32, u64, u64, u64, Vec<u8>)> {
    let mut archive = tar::Archive::new(bytes);
    let mut found = Vec::new();
    for entry in archive.entries().unwrap() {
        let mut entry = entry.unwrap();
        let path = entry.path().unwrap().to_str().unwrap().to_string();
        let header = entry.header().clone();
        let mut contents = Vec::new();
        entry.read_to_end(&mut contents).unwrap();
        found.push((
            path,
            header.mode().unwrap(),
            header.mtime().unwrap(),
            header.uid().unwrap(),
            header.gid().unwrap(),
            contents,
        ));
    }
    found
}

#[test]
fn default_out_path_is_fixed() {
    assert_eq!(DEFAULT_OUT_PATH, "skeleton.tar");
}

#[test]
fn stubs_do_not_compile_and_only_executables_have_main() {
    assert!(LIBRARY_STUB.starts_with("compile_error!("));
    assert!(EXECUTABLE_STUB.starts_with("compile_error!("));
    assert!(!LIBRARY_STUB.contains("fn main"));
    assert!(EXECUTABLE_STUB.contains("fn main() {}"));
    let lib = stub_entry("src/lib.rs", TargetKind::Library);
    assert_eq!(lib.path, "src/lib.rs");
    assert_eq!(lib.contents, LIBRARY_STUB.as_bytes());
    assert_eq!(lib.meta, fixed_file_meta());
    let exe = stub_entry("src/main.rs", TargetKind::Executable);
    assert_eq!(exe.contents, EXECUTABLE_STUB.as_bytes());
    assert_eq!(fixed_file_meta(), FileMeta { mode: 0o644, mtime: 1153704088, uid: 0, gid: 0 });
}

#[test]
fn plan_lists_members_by_name_and_targets_by_name() {
    let metadata = sample();
    let plan = plan_skeleton(&loaded(&metadata), &metadata).unwrap();
    assert_eq!(
        describe(&plan),
        vec![
            "file Cargo.toml",
            "file Cargo.lock",
            "file lib/Cargo.toml",
            "lib lib/src/lib.rs",
            "file crates/zapp/Cargo.toml",
            "exe crates/zapp/build.rs",
            "exe crates/zapp/src/main.rs",
            "lib crates/zapp/src/lib.rs",
            "lock",
        ]
    );
}

#[test]
fn root_manifest_is_listed_once_where_the_root_is_a_member() {
    let metadata = Metadata {
        workspace_root: "/work".to_string(),
        packages: vec![
            meta("root", "root 1", None, "/work/Cargo.toml", vec![
                target("root", TargetKind::Library, "/work/src/lib.rs"),
            ]),
            meta("inner", "inner 1", None, "/work/inner/Cargo.toml", vec![]),
        ],
        resolve: Some(vec![node("root 1", &["inner 1"]), node("inner 1", &[])]),
    };
    let plan = plan_skeleton(&loaded(&metadata), &metadata).unwrap();
    assert_eq!(
        describe(&plan),
        vec![
            "file Cargo.lock",
            "file inner/Cargo.toml",
            "file Cargo.toml",
            "lib src/lib.rs",
            "lock",
        ]
    );
}

#[test]
fn plan_of_empty_workspace_has_root_files_and_lock() {
    let metadata = Metadata { workspace_root: "/work".to_string(), packages: vec![], resolve: None };
    let plan = plan_skeleton(&loaded(&metadata), &metadata).unwrap();
    assert_eq!(describe(&plan), vec!["file Cargo.toml", "file Cargo.lock", "lock"]);
}

#[test]
fn source_outside_the_root_is_refused() {
    let mut metadata = sample();
    metadata.packages[0].targets[2].src_path = "/elsewhere/lib.rs".to_string();
    metadata.packages[2].targets[0].src_path = "/work/lib/src/lib.rs".to_string();
    let error = plan_skeleton(&loaded(&metadata), &metadata).unwrap_err();
    match &error {
        SkeletonError::PathEscapesWorkspace(path) => assert_eq!(path, "/elsewhere/lib.rs"),
        other => panic!("unexpected error {:?}", other),
    }
    assert_eq!(error.message(), "Path `/elsewhere/lib.rs` is outside of the workspace root");
    let error = create_skeleton(&metadata, &sample_files()).unwrap_err();
    assert!(matches!(error, SkeletonError::PathEscapesWorkspace(_)));
}

#[test]
fn first_path_outside_the_root_is_reported() {
    let mut metadata = sample();
    metadata.packages[0].targets[0].src_path = "/elsewhere/main.rs".to_string();
    metadata.packages[0].targets[1].src_path = "/elsewhere/build.rs".to_string();
    metadata.packages[2].targets[0].src_path = "/other/lib.rs".to_string();
    let error = plan_skeleton(&loaded(&metadata), &metadata).unwrap_err();
    match error {
        SkeletonError::PathEscapesWorkspace(path) => assert_eq!(path, "/other/lib.rs"),
        other => panic!("unexpected error {:?}", other),
    }
}

#[test]
fn manifest_outside_the_root_is_refused_for_a_member() {
    let metadata = sample();
    let mut workspace = loaded(&metadata);
    workspace.add_package(cargo_skeleton::package::Package {
        name: "ext".to_string(),
        id: id("ext 1"),
        dependencies: vec![],
    });
    let error = plan_skeleton(&workspace, &metadata).unwrap_err();
    match error {
        SkeletonError::PathEscapesWorkspace(path) => assert_eq!(path, "/cache/ext/Cargo.toml"),
        other => panic!("unexpected error {:?}", other),
    }
}

#[test]
fn assemble_takes_first_file_with_a_path() {
    let plan = vec![
        PlannedEntry::File("Cargo.toml".to_string()),
        PlannedEntry::Stub("src/main.rs".to_string(), TargetKind::Executable),
        PlannedEntry::Lock,
    ];
    let entries = assemble(&plan, &sample_files(), b"lock bytes").unwrap();
    assert_eq!(entries.len(), 3);
    assert_eq!(entries[0].path, "Cargo.toml");
    assert_eq!(entries[0].contents, b"[workspace]\n");
    assert_eq!(entries[0].meta, FileMeta { mode: 0o600, mtime: 1700000000, uid: 1000, gid: 100 });
    assert_eq!(entries[1].path, "src/main.rs");
    assert_eq!(entries[1].contents, EXECUTABLE_STUB.as_bytes());
    assert_eq!(entries[1].meta, fixed_file_meta());
    assert_eq!(entries[2].path, "Skeleton.lock");
    assert_eq!(entries[2].contents, b"lock bytes");
    assert_eq!(entries[2].meta, fixed_file_meta());
}

#[test]
fn assemble_reports_first_missing_file() {
    let plan = vec![
        PlannedEntry::File("Cargo.toml".to_string()),
        PlannedEntry::File("a/Cargo.toml".to_string()),
        PlannedEntry::File("b/Cargo.toml".to_string()),
    ];
    let error = assemble(&plan, &sample_files(), b"").unwrap_err();
    match &error {
        SkeletonError::MissingFile(path) => assert_eq!(path, "a/Cargo.toml"),
        other => panic!("unexpected error {:?}", other),
    }
    assert_eq!(error.message(), "File `a/Cargo.toml` was not read");
}

#[test]
fn skeleton_holds_manifests_stubs_and_lock() {
    let metadata = sample();
    let bytes = create_skeleton(&metadata, &sample_files()).unwrap();
    let entries = unpacked(&bytes);
    let paths: Vec<&str> = entries.iter().map(|e| e.0.as_str()).collect();
    assert_eq!(
        paths,
        vec![
            "Cargo.toml",
            "Cargo.lock",
            "lib/Cargo.toml",
            "lib/src/lib.rs",
            "crates/zapp/Cargo.toml",
            "crates/zapp/build.rs",
            "crates/zapp/src/main.rs",
            "crates/zapp/src/lib.rs",
            "Skeleton.lock",
        ]
    );
    assert_eq!(entries[0].5, b"[workspace]\n");
    assert_eq!((entries[0].1, entries[0].2, entries[0].3, entries[0].4), (0o600, 1700000000, 1000, 100));
    assert_eq!(entries[1].5, b"# lock\n");
    assert_eq!(entries[2].5, b"[package]\nname = \"lib\"\n");
    assert_eq!(entries[3].5, LIBRARY_STUB.as_bytes());
    assert_eq!((entries[3].1, entries[3].2, entries[3].3, entries[3].4), (0o644, 1153704088, 0, 0));
    assert_eq!(entries[5].5, EXECUTABLE_STUB.as_bytes());
    assert_eq!(entries[6].5, EXECUTABLE_STUB.as_bytes());
    assert_eq!(entries[7].5, LIBRARY_STUB.as_bytes());
    assert_eq!((entries[8].1, entries[8].2, entries[8].3, entries[8].4), (0o644, 1153704088, 0, 0));
    let workspace = loaded(&metadata);
    assert_eq!(entries[8].5, serialize(&workspace));
    let lock = deserialize(&entries[8].5).unwrap();
    let names: Vec<&str> = lock.packages.iter().map(|p| p.name.as_str()).collect();
    assert_eq!(names, vec!["lib", "zapp"]);
    assert_eq!(lock.packages[1].dependencies, vec![id("lib 1"), id("ext 1")]);
}

#[test]
fn skeleton_is_the_same_every_time() {
    let first = create_skeleton(&sample(), &sample_files()).unwrap();
    let second = create_skeleton(&sample(), &sample_files()).unwrap();
    assert_eq!(first, second);
    let mut reversed = sample();
    reversed.packages.reverse();
    let third = create_skeleton(&reversed, &sample_files()).unwrap();
    assert_eq!(first, third);
}

#[test]
fn skeleton_needs_the_copied_files() {
    let mut files = sample_files();
    files.remove(1);
    let error = create_skeleton(&sample(), &files).unwrap_err();
    match error {
        SkeletonError::MissingFile(path) => assert_eq!(path, "lib/Cargo.toml"),
        other => panic!("unexpected error {:?}", other),
    }
}

#[test]
fn skeleton_fails_on_inconsistent_graph() {
    let mut metadata = sample();
    metadata.resolve = None;
    let error = create_skeleton(&metadata, &sample_files()).unwrap_err();
    assert!(matches!(error, SkeletonError::GraphInconsistency(None)));
}

#[test]
fn archive_ends_with_two_empty_blocks() {
    let bytes = write_archive(&vec![]).unwrap();
    assert_eq!(bytes, vec![0u8; 1024]);
    let bytes = write_archive(&vec![file("a.txt", b"hello")]).unwrap();
    assert_eq!(bytes.len(), 512 + 512 + 1024);
    assert_eq!(&bytes[..5], b"a.txt");
    assert_eq!(&bytes[512..517], b"hello");
}

#[test]
fn archive_takes_long_paths() {
    let long = format!("{}/file.rs", "directory".repeat(20));
    let bytes = write_archive(&vec![file(&long, b"x")]).unwrap();
    let entries = unpacked(&bytes);
    assert_eq!(entries.len(), 1);
    assert_eq!(entries[0].0, long);
    assert_eq!(entries[0].5, b"x");
}

#[test]
fn archive_refuses_paths_that_leave_the_tree() {
    let entries = vec![file("fine.txt", b""), file("../escape.txt", b""), file("/absolute", b"")];
    let error = write_archive(&entries).unwrap_err();
    match &error {
        SkeletonError::ArchiveRefused(Some(path)) => assert_eq!(path, "../escape.txt"),
        other => panic!("unexpected error {:?}", other),
    }
    assert_eq!(error.message(), "Path `../escape.txt` cannot be stored in the archive");
    let error = write_archive(&vec![file("", b"")]).unwrap_err();
    assert!(matches!(error, SkeletonError::ArchiveRefused(Some(_))));
}

#[test]
fn archive_entry_clone_is_equal() {
    let entry = file("a/b.txt", b"contents");
    let copy = entry.clone();
    assert_eq!(copy.path, entry.path);
    assert_eq!(copy.meta, entry.meta);
    assert_eq!(copy.contents, entry.contents);
}
