//! The skeleton of a workspace: an archive of the manifests, a stand-in for
//! the source of every target, and the lock file.
//!
//! The archive is made in three steps. `plan_skeleton` lists the entries of
//! the archive, with paths relative to the workspace root. The caller reads
//! the files that the plan copies. `assemble` then gives every entry its
//! contents, and `write_archive` writes the archive.

use crate::archive::{archive_of, write_archive, ArchiveEntry, EntryView, FileMeta};
use crate::error::{ErrorView, SkeletonError};
use crate::lockfile::{format_lock, serialize, LOCKFILE_NAME};
use crate::metadata::{
    MetaPackage, MetaPackageView, Metadata, MetadataView, TargetKind, TargetView,
};
use crate::order::{
    lemma_stable_order_unique, positions, reorder, sorted_positions, stable_order, texts,
};
use crate::package::{graph_error, PackageView};
use crate::paths::{path_without_prefix, strip_prefix};
use crate::text::text_eq;
use crate::views::{
    lemma_first_position, lemma_no_position, lemma_views_concat, lemma_views_push, views,
};
use crate::workspace::{
    has_member, local_members, lock_records, resolved_packages, sorted_by_id, with_packages,
    Workspace,
};
use vstd::prelude::*;
use vstd::slice::slice_to_vec;
use vstd::utf8::encode_utf8;

verus! {

/// Where the archive is written by default.
pub const DEFAULT_OUT_PATH: &'static str = "skeleton.tar";

/// The name of the manifest in the root directory of a workspace.
pub const ROOT_MANIFEST: &'static str = "Cargo.toml";

/// The name of the package manager's lock file in the root directory of a
/// workspace.
pub const ROOT_LOCKFILE: &'static str = "Cargo.lock";

/// The stand-in for the source of a target without an entry point.
pub const LIBRARY_STUB: &'static str =
    "compile_error!(\"this file stands in for a source file that the skeleton leaves out\");\n";

/// The stand-in for the source of a target with an entry point.
pub const EXECUTABLE_STUB: &'static str =
    "compile_error!(\"this file stands in for a source file that the skeleton leaves out\");\n\nfn main() {}\n";

/// The permission bits of the entries that the library makes itself.
pub const FIXED_MODE: u32 = 0o644;

/// The modification time of the entries that the library makes itself.
pub const FIXED_MTIME: u64 = 1153704088;

/// What the header records of the entries that the library makes itself.
pub open spec fn fixed_meta() -> FileMeta {
    FileMeta { mode: FIXED_MODE, mtime: FIXED_MTIME, uid: 0, gid: 0 }
}

/// An entry of the archive, before it has its contents.
#[derive(Debug)]
pub enum PlannedEntry {
    /// The file at this path is copied as it is.
    File(String),
    /// A stand-in of this kind is written in the place of the file at this
    /// path.
    Stub(String, TargetKind),
    /// The lock file of the workspace.
    Lock,
}

/// An entry of the archive before it has its contents, in contracts.
pub enum PlannedView {
    File(Seq<char>),
    Stub(Seq<char>, TargetKind),
    Lock,
}

impl View for PlannedEntry {
    type V = PlannedView;

    open spec fn view(&self) -> PlannedView {
        match self {
            PlannedEntry::File(path) => PlannedView::File(path@),
            PlannedEntry::Stub(path, kind) => PlannedView::Stub(path@, *kind),
            PlannedEntry::Lock => PlannedView::Lock,
        }
    }
}

/// The path `path` relative to `root`. A path that does not lie under the
/// root is an error.
pub open spec fn relative(path: Seq<char>, root: Seq<char>) -> Result<Seq<char>, ErrorView> {
    match path_without_prefix(path, root) {
        Some(rest) => Ok(rest),
        None => Err(ErrorView::PathEscapesWorkspace(path)),
    }
}

/// The names of a sequence of targets.
pub open spec fn target_names(targets: Seq<TargetView>) -> Seq<Seq<char>> {
    Seq::new(targets.len(), |i: int| targets[i].name)
}

/// The names of a sequence of packages of the resolution.
pub open spec fn meta_names(packages: Seq<MetaPackageView>) -> Seq<Seq<char>> {
    Seq::new(packages.len(), |i: int| packages[i].name)
}

/// A stand-in for each of the targets, in their order; or the error of the
/// first target whose source does not lie under the root.
pub open spec fn stubs(targets: Seq<TargetView>, root: Seq<char>) -> Result<
    Seq<PlannedView>,
    ErrorView,
>
    decreases targets.len(),
{
    if targets.len() == 0 {
        Ok(Seq::empty())
    } else {
        match stubs(targets.drop_last(), root) {
            Err(error) => Err(error),
            Ok(entries) => match relative(targets.last().src_path, root) {
                Err(error) => Err(error),
                Ok(path) => Ok(entries.push(PlannedView::Stub(path, targets.last().kind))),
            },
        }
    }
}

/// The entries of a package: its manifest, and a stand-in for each of its
/// targets in ascending order of name.
pub open spec fn package_plan(package: MetaPackageView, root: Seq<char>) -> Result<
    Seq<PlannedView>,
    ErrorView,
> {
    match relative(package.manifest_path, root) {
        Err(error) => Err(error),
        Ok(manifest) => match stubs(
            reorder(package.targets, stable_order(target_names(package.targets))),
            root,
        ) {
            Err(error) => Err(error),
            Ok(entries) => Ok(seq![PlannedView::File(manifest)] + entries),
        },
    }
}

/// The entries of the packages, in their order; or the error of the first
/// path that does not lie under the root.
pub open spec fn packages_plan(packages: Seq<MetaPackageView>, root: Seq<char>) -> Result<
    Seq<PlannedView>,
    ErrorView,
>
    decreases packages.len(),
{
    if packages.len() == 0 {
        Ok(Seq::empty())
    } else {
        match packages_plan(packages.drop_last(), root) {
            Err(error) => Err(error),
            Ok(entries) => match package_plan(packages.last(), root) {
                Err(error) => Err(error),
                Ok(more) => Ok(entries + more),
            },
        }
    }
}

/// The packages of the resolution that are members of the workspace, in
/// the order of the resolution.
pub open spec fn member_packages(members: Seq<PackageView>, packages: Seq<MetaPackageView>) -> Seq<
    MetaPackageView,
>
    decreases packages.len(),
{
    if packages.len() == 0 {
        Seq::empty()
    } else if has_member(members, packages.last().id) {
        member_packages(members, packages.drop_last()).push(packages.last())
    } else {
        member_packages(members, packages.drop_last())
    }
}

/// The files of the workspace root that the archive begins with: the root
/// manifest, unless it is among `entries` as the manifest of a member, and
/// the package manager's lock file.
pub open spec fn root_files(entries: Seq<PlannedView>) -> Seq<PlannedView> {
    if entries.contains(PlannedView::File(ROOT_MANIFEST@)) {
        seq![PlannedView::File(ROOT_LOCKFILE@)]
    } else {
        seq![PlannedView::File(ROOT_MANIFEST@), PlannedView::File(ROOT_LOCKFILE@)]
    }
}

/// The entries of the skeleton of a workspace with the given members and
/// root: the files of the root, the entries of the members in ascending
/// order of name, and the lock file of the workspace.
pub open spec fn skeleton_plan(
    members: Seq<PackageView>,
    packages: Seq<MetaPackageView>,
    root: Seq<char>,
) -> Result<Seq<PlannedView>, ErrorView> {
    let archived = member_packages(members, packages);
    match packages_plan(reorder(archived, stable_order(meta_names(archived))), root) {
        Err(error) => Err(error),
        Ok(entries) => Ok(root_files(entries) + entries + seq![PlannedView::Lock]),
    }
}

/// Where the stand-ins of the first `k` targets fail, the failure is that of
/// the whole sequence.
pub proof fn lemma_stubs_prefix(targets: Seq<TargetView>, root: Seq<char>, k: int)
    requires
        0 <= k <= targets.len(),
        stubs(targets.take(k), root) is Err,
    ensures
        stubs(targets, root) == stubs(targets.take(k), root),
    decreases targets.len() - k,
{
    if k == targets.len() {
        assert(targets.take(k) =~= targets);
    } else {
        assert(targets.take(k + 1).drop_last() =~= targets.take(k));
        lemma_stubs_prefix(targets, root, k + 1);
    }
}

/// Where the entries of the first `k` packages fail, the failure is that of
/// the whole sequence.
pub proof fn lemma_packages_plan_prefix(packages: Seq<MetaPackageView>, root: Seq<char>, k: int)
    requires
        0 <= k <= packages.len(),
        packages_plan(packages.take(k), root) is Err,
    ensures
        packages_plan(packages, root) == packages_plan(packages.take(k), root),
    decreases packages.len() - k,
{
    if k == packages.len() {
        assert(packages.take(k) =~= packages);
    } else {
        assert(packages.take(k + 1).drop_last() =~= packages.take(k));
        lemma_packages_plan_prefix(packages, root, k + 1);
    }
}

/// The path `path` relative to `root`.
fn relative_path(path: &str, root: &str) -> (found: Result<String, SkeletonError>)
    ensures
        match found {
            Ok(rest) => relative(path@, root@) == Ok::<_, ErrorView>(rest@),
            Err(error) => relative(path@, root@) == Err::<Seq<char>, _>(error@),
        },
{
    match strip_prefix(path, root) {
        Some(rest) => Ok(rest),
        None => Err(SkeletonError::PathEscapesWorkspace(path.to_owned())),
    }
}

/// The entries of a package: its manifest, and a stand-in for each of its
/// targets in ascending order of name.
fn plan_package(package: &MetaPackage, root: &str) -> (plan: Result<
    Vec<PlannedEntry>,
    SkeletonError,
>)
    ensures
        match plan {
            Ok(entries) => package_plan(package@, root@) == Ok::<_, ErrorView>(views(entries@)),
            Err(error) => package_plan(package@, root@) == Err::<Seq<PlannedView>, _>(error@),
        },
{
    let manifest = match relative_path(package.manifest_path.as_str(), root) {
        Ok(path) => path,
        Err(error) => {
            return Err(error);
        },
    };
    let ghost targets = package@.targets;
    let mut keys: Vec<&str> = Vec::new();
    let mut i: usize = 0;
    while i < package.targets.len()
        invariant
            i <= package.targets@.len(),
            keys@.len() == i,
            forall|j: int| 0 <= j < i ==> keys@[j]@ == package.targets@[j]@.name,
        decreases package.targets@.len() - i,
    {
        keys.push(package.targets[i].name.as_str());
        i = i + 1;
    }
    assert(texts(keys@) =~= target_names(targets));
    let order = sorted_positions(&keys);
    proof {
        lemma_stable_order_unique(positions(order@), texts(keys@));
        assert forall|j: int| 0 <= j < order@.len() implies order@[j]
            < package.targets@.len() by {
            assert(0 <= positions(order@)[j] < keys@.len());
        }
    }
    let ghost sorted = reorder(targets, stable_order(target_names(targets)));
    let ghost first = PlannedView::File(manifest@);
    let mut entries: Vec<PlannedEntry> = Vec::new();
    entries.push(PlannedEntry::File(manifest));
    let mut k: usize = 0;
    assert(sorted.take(0) =~= Seq::<TargetView>::empty());
    assert(views(entries@) =~= seq![first] + Seq::<PlannedView>::empty());
    while k < order.len()
        invariant
            k <= order@.len(),
            order@.len() == package.targets@.len(),
            targets == package@.targets,
            relative(package@.manifest_path, root@) == Ok::<_, ErrorView>(first->File_0),
            first is File,
            sorted == reorder(targets, stable_order(target_names(targets))),
            sorted == reorder(targets, positions(order@)),
            forall|j: int| 0 <= j < order@.len() ==> order@[j] < package.targets@.len(),
            stubs(sorted.take(k as int), root@) matches Ok(made) && views(entries@) == seq![first]
                + made,
        decreases order@.len() - k,
    {
        let target = &package.targets[order[k]];
        let ghost before = views(entries@);
        assert(sorted.take(k + 1).drop_last() =~= sorted.take(k as int));
        assert(sorted.take(k + 1).last() == target@);
        match relative_path(target.src_path.as_str(), root) {
            Err(error) => {
                proof {
                    lemma_stubs_prefix(sorted, root@, k + 1);
                }
                return Err(error);
            },
            Ok(path) => {
                let entry = PlannedEntry::Stub(path, target.kind);
                proof {
                    lemma_views_push(entries@, entry);
                    let made = stubs(sorted.take(k as int), root@)->Ok_0;
                    assert(before.push(entry@) =~= seq![first] + made.push(entry@));
                }
                entries.push(entry);
            },
        }
        k = k + 1;
    }
    assert(sorted.take(k as int) =~= sorted);
    Ok(entries)
}

/// Whether the manifest of the workspace root is among the entries.
fn holds_root_manifest(entries: &Vec<PlannedEntry>) -> (found: bool)
    ensures
        found == views(entries@).contains(PlannedView::File(ROOT_MANIFEST@)),
{
    let mut i: usize = 0;
    while i < entries.len()
        invariant
            i <= entries@.len(),
            forall|j: int| 0 <= j < i ==> views(entries@)[j] != PlannedView::File(ROOT_MANIFEST@),
        decreases entries@.len() - i,
    {
        match &entries[i] {
            PlannedEntry::File(path) => {
                if text_eq(path.as_str(), ROOT_MANIFEST) {
                    assert(views(entries@)[i as int] == PlannedView::File(ROOT_MANIFEST@));
                    return true;
                }
            },
            _ => {},
        }
        i = i + 1;
    }
    false
}

/// Lists the entries of the skeleton of the workspace: the manifest of the
/// root, unless the root is itself a member; the package manager's lock
/// file; for each member, in ascending order of name, its manifest and a
/// stand-in for each of its targets, in ascending order of name; and the
/// lock file of the workspace.
///
/// Manifests and targets are those that `metadata` reports for the members
/// of `workspace`. All paths are relative to the root of the workspace.
/// Fails with the first path, in the order of the entries, that does not
/// lie under the root.
pub fn plan_skeleton(workspace: &Workspace, metadata: &Metadata) -> (plan: Result<
    Vec<PlannedEntry>,
    SkeletonError,
>)
    ensures
        match plan {
            Ok(entries) => skeleton_plan(workspace@, metadata@.packages, workspace.root_text())
                == Ok::<_, ErrorView>(views(entries@)),
            Err(error) => skeleton_plan(workspace@, metadata@.packages, workspace.root_text())
                == Err::<Seq<PlannedView>, _>(error@),
        },
{
    let ghost all = metadata@.packages;
    let ghost members = workspace@;
    let root = workspace.root();
    let mut archived: Vec<&MetaPackage> = Vec::new();
    let mut keys: Vec<&str> = Vec::new();
    let mut i: usize = 0;
    assert(all.take(0) =~= Seq::<MetaPackageView>::empty());
    assert(views(archived@) =~= Seq::<MetaPackageView>::empty());
    assert(texts(keys@) =~= meta_names(views(archived@)));
    while i < metadata.packages.len()
        invariant
            i <= metadata.packages@.len(),
            all == metadata@.packages,
            members == workspace@,
            views(archived@) == member_packages(members, all.take(i as int)),
            texts(keys@) == meta_names(views(archived@)),
        decreases metadata.packages@.len() - i,
    {
        let package = &metadata.packages[i];
        let ghost before = views(archived@);
        let ghost keys_before = texts(keys@);
        assert(all.take(i + 1).drop_last() =~= all.take(i as int));
        assert(all.take(i + 1).last() == package@);
        if workspace.is_member(&package.id) {
            archived.push(package);
            keys.push(package.name.as_str());
            assert(views(archived@) =~= before.push(package@));
            assert(texts(keys@) =~= keys_before.push(package@.name));
            assert(meta_names(before.push(package@)) =~= meta_names(before).push(package@.name));
        }
        i = i + 1;
    }
    assert(all.take(i as int) =~= all);
    let order = sorted_positions(&keys);
    proof {
        lemma_stable_order_unique(positions(order@), texts(keys@));
        assert forall|j: int| 0 <= j < order@.len() implies order@[j] < archived@.len() by {
            assert(0 <= positions(order@)[j] < keys@.len());
        }
    }
    let ghost sorted = reorder(views(archived@), stable_order(meta_names(views(archived@))));
    let mut entries: Vec<PlannedEntry> = Vec::new();
    let mut k: usize = 0;
    assert(sorted.take(0) =~= Seq::<MetaPackageView>::empty());
    assert(views(entries@) =~= Seq::<PlannedView>::empty());
    while k < order.len()
        invariant
            k <= order@.len(),
            order@.len() == archived@.len(),
            root@ == workspace.root_text(),
            sorted == reorder(
                member_packages(workspace@, metadata@.packages),
                stable_order(meta_names(member_packages(workspace@, metadata@.packages))),
            ),
            sorted == reorder(views(archived@), positions(order@)),
            forall|j: int| 0 <= j < order@.len() ==> order@[j] < archived@.len(),
            packages_plan(sorted.take(k as int), root@) == Ok::<_, ErrorView>(views(entries@)),
        decreases order@.len() - k,
    {
        let ghost before = entries@;
        assert(sorted.take(k + 1).drop_last() =~= sorted.take(k as int));
        assert(sorted.take(k + 1).last() == archived@[order@[k as int] as int]@);
        match plan_package(archived[order[k]], root) {
            Err(error) => {
                proof {
                    lemma_packages_plan_prefix(sorted, root@, k + 1);
                }
                return Err(error);
            },
            Ok(more) => {
                let mut more = more;
                proof {
                    lemma_views_concat(before, more@);
                }
                entries.append(&mut more);
            },
        }
        k = k + 1;
    }
    assert(sorted.take(k as int) =~= sorted);
    let mut plan: Vec<PlannedEntry> = Vec::new();
    if !holds_root_manifest(&entries) {
        plan.push(PlannedEntry::File(ROOT_MANIFEST.to_owned()));
    }
    plan.push(PlannedEntry::File(ROOT_LOCKFILE.to_owned()));
    assert(views(plan@) =~= root_files(views(entries@)));
    proof {
        lemma_views_concat(plan@, entries@);
        lemma_views_push(plan@ + entries@, PlannedEntry::Lock);
    }
    let ghost listed = views(entries@);
    plan.append(&mut entries);
    plan.push(PlannedEntry::Lock);
    assert(views(plan@) =~= root_files(listed) + listed + seq![PlannedView::Lock]);
    Ok(plan)
}

/// The contents of the stand-in for a target of the given kind.
pub open spec fn stub_source(kind: TargetKind) -> Seq<u8> {
    match kind {
        TargetKind::Library => encode_utf8(LIBRARY_STUB@),
        TargetKind::Executable => encode_utf8(EXECUTABLE_STUB@),
    }
}

/// The paths of a sequence of files.
pub open spec fn entry_paths(files: Seq<EntryView>) -> Seq<Seq<char>> {
    Seq::new(files.len(), |i: int| files[i].path)
}

/// The first of the files that has the path `path`.
pub open spec fn find_file(files: Seq<EntryView>, path: Seq<char>) -> Option<EntryView> {
    match entry_paths(files).index_of_first(path) {
        Some(i) => Some(files[i]),
        None => None,
    }
}

/// A planned entry with its contents: a copied file as it is among
/// `files`, a stand-in and the lock file with fixed mode, time and owner.
/// A copied file that is not among `files` is an error.
pub open spec fn assembled_entry(planned: PlannedView, files: Seq<EntryView>, lock: Seq<u8>)
    -> Result<EntryView, ErrorView> {
    match planned {
        PlannedView::File(path) => match find_file(files, path) {
            Some(file) => Ok(file),
            None => Err(ErrorView::MissingFile(path)),
        },
        PlannedView::Stub(path, kind) => Ok(
            EntryView { path, meta: fixed_meta(), contents: stub_source(kind) },
        ),
        PlannedView::Lock => Ok(
            EntryView { path: LOCKFILE_NAME@, meta: fixed_meta(), contents: lock },
        ),
    }
}

/// The planned entries with their contents, in their order; or the error
/// of the first copied file that is not among `files`.
pub open spec fn assembled(plan: Seq<PlannedView>, files: Seq<EntryView>, lock: Seq<u8>)
    -> Result<Seq<EntryView>, ErrorView>
    decreases plan.len(),
{
    if plan.len() == 0 {
        Ok(Seq::empty())
    } else {
        match assembled(plan.drop_last(), files, lock) {
            Err(error) => Err(error),
            Ok(entries) => match assembled_entry(plan.last(), files, lock) {
                Err(error) => Err(error),
                Ok(entry) => Ok(entries.push(entry)),
            },
        }
    }
}

/// Where the first `k` planned entries cannot all be given their
/// contents, the failure is that of the whole plan.
pub proof fn lemma_assembled_prefix(
    plan: Seq<PlannedView>,
    files: Seq<EntryView>,
    lock: Seq<u8>,
    k: int,
)
    requires
        0 <= k <= plan.len(),
        assembled(plan.take(k), files, lock) is Err,
    ensures
        assembled(plan, files, lock) == assembled(plan.take(k), files, lock),
    decreases plan.len() - k,
{
    if k == plan.len() {
        assert(plan.take(k) =~= plan);
    } else {
        assert(plan.take(k + 1).drop_last() =~= plan.take(k));
        lemma_assembled_prefix(plan, files, lock, k + 1);
    }
}

/// What the header records of the entries that the library makes itself.
pub fn fixed_file_meta() -> (meta: FileMeta)
    ensures
        meta == fixed_meta(),
{
    FileMeta { mode: FIXED_MODE, mtime: FIXED_MTIME, uid: 0, gid: 0 }
}

/// The stand-in for the source at `path` of a target of the given kind.
pub fn stub_entry(path: &str, kind: TargetKind) -> (entry: ArchiveEntry)
    ensures
        entry@ == (EntryView { path: path@, meta: fixed_meta(), contents: stub_source(kind) }),
{
    let source = match kind {
        TargetKind::Library => LIBRARY_STUB,
        TargetKind::Executable => EXECUTABLE_STUB,
    };
    ArchiveEntry {
        path: path.to_owned(),
        meta: fixed_file_meta(),
        contents: slice_to_vec(source.as_bytes()),
    }
}

/// The first of the files that has the path `path`.
fn lookup_file<'a>(files: &'a Vec<ArchiveEntry>, path: &str) -> (found: Option<&'a ArchiveEntry>)
    ensures
        match found {
            Some(file) => find_file(views(files@), path@) == Some(file@),
            None => find_file(views(files@), path@) is None,
        },
{
    let mut i: usize = 0;
    while i < files.len()
        invariant
            i <= files@.len(),
            forall|j: int| 0 <= j < i ==> entry_paths(views(files@))[j] != path@,
        decreases files@.len() - i,
    {
        if text_eq(files[i].path.as_str(), path) {
            proof {
                lemma_first_position(entry_paths(views(files@)), path@, i as int);
            }
            return Some(&files[i]);
        }
        i = i + 1;
    }
    proof {
        lemma_no_position(entry_paths(views(files@)), path@);
    }
    None
}

/// Gives every planned entry its contents: a copied file those of the
/// first of `files` with its path, a stand-in the source that belongs to
/// its kind, the lock file the bytes `lock`.
///
/// Fails with the path of the first copied file that is not among `files`.
pub fn assemble(plan: &Vec<PlannedEntry>, files: &Vec<ArchiveEntry>, lock: &[u8]) -> (made: Result<
    Vec<ArchiveEntry>,
    SkeletonError,
>)
    ensures
        match made {
            Ok(entries) => assembled(views(plan@), views(files@), lock@) == Ok::<_, ErrorView>(
                views(entries@),
            ),
            Err(error) => assembled(views(plan@), views(files@), lock@) == Err::<
                Seq<EntryView>,
                _,
            >(error@),
        },
{
    let mut entries: Vec<ArchiveEntry> = Vec::new();
    let mut i: usize = 0;
    assert(views(plan@).take(0) =~= Seq::<PlannedView>::empty());
    assert(views(entries@) =~= Seq::<EntryView>::empty());
    while i < plan.len()
        invariant
            i <= plan@.len(),
            assembled(views(plan@).take(i as int), views(files@), lock@) == Ok::<_, ErrorView>(
                views(entries@),
            ),
        decreases plan@.len() - i,
    {
        assert(views(plan@).take(i + 1).drop_last() =~= views(plan@).take(i as int));
        assert(views(plan@).take(i + 1).last() == plan@[i as int]@);
        let entry = match &plan[i] {
            PlannedEntry::File(path) => match lookup_file(files, path.as_str()) {
                Some(file) => file.clone(),
                None => {
                    proof {
                        lemma_assembled_prefix(views(plan@), views(files@), lock@, i + 1);
                    }
                    return Err(SkeletonError::MissingFile(path.clone()));
                },
            },
            PlannedEntry::Stub(path, kind) => stub_entry(path.as_str(), *kind),
            PlannedEntry::Lock => ArchiveEntry {
                path: LOCKFILE_NAME.to_owned(),
                meta: fixed_file_meta(),
                contents: slice_to_vec(lock),
            },
        };
        proof {
            lemma_views_push(entries@, entry);
        }
        entries.push(entry);
        i = i + 1;
    }
    assert(views(plan@).take(i as int) =~= views(plan@));
    Ok(entries)
}

/// The skeleton of the workspace that `metadata` reports, with the copied
/// files taken from `files`.
pub open spec fn skeleton_archive(metadata: MetadataView, files: Seq<EntryView>) -> Result<
    Seq<u8>,
    ErrorView,
> {
    let root = metadata.workspace_root;
    match resolved_packages(sorted_by_id(local_members(metadata.packages, root)), metadata.resolve) {
        Err(id) => Err(graph_error(metadata.resolve, id)),
        Ok(made) => {
            let members = with_packages(Seq::empty(), made);
            match skeleton_plan(members, metadata.packages, root) {
                Err(error) => Err(error),
                Ok(plan) => match assembled(plan, files, format_lock(lock_records(members))) {
                    Err(error) => Err(error),
                    Ok(entries) => archive_of(entries),
                },
            }
        },
    }
}

/// The skeleton is determined by what the resolver reports and by the
/// files that are handed in: two reports that say the same, with the same
/// files, give the same archive, byte for byte, or the same error.
pub proof fn lemma_skeleton_determined(
    first: Metadata,
    first_files: Vec<ArchiveEntry>,
    second: Metadata,
    second_files: Vec<ArchiveEntry>,
)
    requires
        first@ == second@,
        views(first_files@) == views(second_files@),
    ensures
        skeleton_archive(first@, views(first_files@)) == skeleton_archive(
            second@,
            views(second_files@),
        ),
{
}

/// Makes the skeleton of the workspace that `metadata` reports: loads the
/// members of the workspace, plans the entries, gives them their contents
/// and writes the archive.
///
/// `files` holds the files that the skeleton copies, each under its path
/// relative to the workspace root.
pub fn create_skeleton(metadata: &Metadata, files: &Vec<ArchiveEntry>) -> (made: Result<
    Vec<u8>,
    SkeletonError,
>)
    ensures
        match made {
            Ok(bytes) => skeleton_archive(metadata@, views(files@)) == Ok::<_, ErrorView>(bytes@),
            Err(error) => skeleton_archive(metadata@, views(files@)) == Err::<Seq<u8>, _>(error@),
        },
{
    let mut workspace = Workspace::new(metadata.workspace_root.clone());
    match workspace.load_metadata(metadata) {
        Err(error) => {
            return Err(error);
        },
        Ok(_) => {},
    }
    let plan = match plan_skeleton(&workspace, metadata) {
        Ok(plan) => plan,
        Err(error) => {
            return Err(error);
        },
    };
    let lock = serialize(&workspace);
    let entries = match assemble(&plan, files, lock.as_slice()) {
        Ok(entries) => entries,
        Err(error) => {
            return Err(error);
        },
    };
    write_archive(&entries)
}

} // verus!
