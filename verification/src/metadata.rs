//! What the package manager's resolver reports of a workspace, as far as
//! the library reads it: the packages with their origin, manifest and
//! targets, and the resolved dependency graph.

use crate::package::PackageId;
use crate::text::text_eq;
use crate::views::views;
use vstd::prelude::*;

verus! {

/// What a dependency is needed for.
#[derive(Debug, Clone, Copy, PartialEq, Eq, Structural)]
pub enum DependencyKind {
    /// Needed to build the package itself.
    Normal,
    /// Needed for tests, examples and benchmarks only.
    Development,
    /// Needed by the build script only.
    Build,
    /// A kind that is not known.
    Unknown,
}

/// An edge of the dependency graph.
#[derive(Debug)]
pub struct NodeDep {
    /// The package depended on.
    pub pkg: PackageId,
    /// The kinds under which it is depended on.
    pub dep_kinds: Vec<DependencyKind>,
}

/// An edge of the dependency graph, in contracts.
pub struct NodeDepView {
    pub pkg: Seq<char>,
    pub dep_kinds: Seq<DependencyKind>,
}

impl View for NodeDep {
    type V = NodeDepView;

    open spec fn view(&self) -> NodeDepView {
        NodeDepView { pkg: self.pkg@, dep_kinds: self.dep_kinds@ }
    }
}

impl NodeDepView {
    /// Whether the package is depended on as a normal dependency.
    pub open spec fn is_normal(self) -> bool {
        self.dep_kinds.contains(DependencyKind::Normal)
    }
}

impl NodeDep {
    /// Whether the package is depended on as a normal dependency.
    pub fn is_normal(&self) -> (normal: bool)
        ensures
            normal == self@.is_normal(),
    {
        let mut i: usize = 0;
        while i < self.dep_kinds.len()
            invariant
                i <= self.dep_kinds@.len(),
                forall|j: int| 0 <= j < i ==> self.dep_kinds@[j] != DependencyKind::Normal,
            decreases self.dep_kinds@.len() - i,
        {
            if self.dep_kinds[i] == DependencyKind::Normal {
                return true;
            }
            i = i + 1;
        }
        false
    }
}

/// A node of the dependency graph: a package and its resolved direct
/// dependencies.
#[derive(Debug)]
pub struct Node {
    /// The package.
    pub id: PackageId,
    /// Its direct dependencies.
    pub deps: Vec<NodeDep>,
}

/// A node of the dependency graph, in contracts.
pub struct NodeView {
    pub id: Seq<char>,
    pub deps: Seq<NodeDepView>,
}

impl View for Node {
    type V = NodeView;

    open spec fn view(&self) -> NodeView {
        NodeView { id: self.id@, deps: views(self.deps@) }
    }
}

/// The two shapes of stand-in source.
#[derive(Debug, Clone, Copy, PartialEq, Eq, Structural)]
pub enum TargetKind {
    /// A target without an entry point of its own.
    Library,
    /// A target that needs an entry point.
    Executable,
}

/// Whether a target of the kind that the package manager calls `kind` is
/// built from a source with an entry point: a binary, an example or a
/// build script.
pub open spec fn needs_entry_point(kind: Seq<char>) -> bool {
    kind == "bin"@ || kind == "example"@ || kind == "custom-build"@
}

/// The stand-in for the source of a target with the given kinds: one with
/// an entry point where one of the kinds needs it.
pub open spec fn stand_in_kind(kinds: Seq<Seq<char>>) -> TargetKind {
    if exists|i: int| 0 <= i < kinds.len() && needs_entry_point(#[trigger] kinds[i]) {
        TargetKind::Executable
    } else {
        TargetKind::Library
    }
}

impl TargetKind {
    /// The stand-in for the source of a target that the package manager
    /// reports with the given kinds.
    pub fn of_kinds(kinds: &Vec<String>) -> (kind: TargetKind)
        ensures
            kind == stand_in_kind(views(kinds@)),
    {
        let mut i: usize = 0;
        while i < kinds.len()
            invariant
                i <= kinds@.len(),
                forall|j: int| 0 <= j < i ==> !needs_entry_point(#[trigger] views(kinds@)[j]),
            decreases kinds@.len() - i,
        {
            let kind = kinds[i].as_str();
            if text_eq(kind, "bin") || text_eq(kind, "example") || text_eq(kind, "custom-build") {
                assert(needs_entry_point(views(kinds@)[i as int]));
                return TargetKind::Executable;
            }
            i = i + 1;
        }
        TargetKind::Library
    }
}

/// A compilation target of a package.
#[derive(Debug)]
pub struct Target {
    /// The name of the target.
    pub name: String,
    /// Which stand-in takes the place of its source.
    pub kind: TargetKind,
    /// The path of the source file that the target is built from.
    pub src_path: String,
}

/// A compilation target, in contracts.
pub struct TargetView {
    pub name: Seq<char>,
    pub kind: TargetKind,
    pub src_path: Seq<char>,
}

impl View for Target {
    type V = TargetView;

    open spec fn view(&self) -> TargetView {
        TargetView { name: self.name@, kind: self.kind, src_path: self.src_path@ }
    }
}

/// A package that the resolver knows, member of the workspace or not.
#[derive(Debug)]
pub struct MetaPackage {
    /// The name that the manifest gives the package.
    pub name: String,
    /// The identifier of the package.
    pub id: PackageId,
    /// Where the package was fetched from; `None` for a package that lives
    /// on the local disk.
    pub source: Option<String>,
    /// The path of the package's manifest.
    pub manifest_path: String,
    /// The targets of the package.
    pub targets: Vec<Target>,
}

/// A package that the resolver knows, in contracts.
pub struct MetaPackageView {
    pub name: Seq<char>,
    pub id: Seq<char>,
    pub source: Option<Seq<char>>,
    pub manifest_path: Seq<char>,
    pub targets: Seq<TargetView>,
}

impl View for MetaPackage {
    type V = MetaPackageView;

    open spec fn view(&self) -> MetaPackageView {
        MetaPackageView {
            name: self.name@,
            id: self.id@,
            source: match self.source {
                Some(source) => Some(source@),
                None => None,
            },
            manifest_path: self.manifest_path@,
            targets: views(self.targets@),
        }
    }
}

/// The resolver's report.
#[derive(Debug)]
pub struct Metadata {
    /// The root directory of the workspace.
    pub workspace_root: String,
    /// Every package of the resolution.
    pub packages: Vec<MetaPackage>,
    /// The dependency graph, if the resolver was asked for one.
    pub resolve: Option<Vec<Node>>,
}

/// The resolver's report, in contracts.
pub struct MetadataView {
    pub workspace_root: Seq<char>,
    pub packages: Seq<MetaPackageView>,
    pub resolve: Option<Seq<NodeView>>,
}

impl View for Metadata {
    type V = MetadataView;

    open spec fn view(&self) -> MetadataView {
        MetadataView {
            workspace_root: self.workspace_root@,
            packages: views(self.packages@),
            resolve: match self.resolve {
                Some(nodes) => Some(views(nodes@)),
                None => None,
            },
        }
    }
}

/// The identifiers of the nodes of a graph.
pub open spec fn node_ids(nodes: Seq<NodeView>) -> Seq<Seq<char>> {
    Seq::new(nodes.len(), |i: int| nodes[i].id)
}

/// The first node of the graph that stands for the package `id`.
pub open spec fn find_node(nodes: Seq<NodeView>, id: Seq<char>) -> Option<NodeView> {
    match node_ids(nodes).index_of_first(id) {
        Some(i) => Some(nodes[i]),
        None => None,
    }
}

/// The packages that the edges `deps` lead to as normal dependencies, in
/// the order of the edges.
pub open spec fn normal_dependencies(deps: Seq<NodeDepView>) -> Seq<Seq<char>>
    decreases deps.len(),
{
    if deps.len() == 0 {
        Seq::empty()
    } else if deps.last().is_normal() {
        normal_dependencies(deps.drop_last()).push(deps.last().pkg)
    } else {
        normal_dependencies(deps.drop_last())
    }
}

/// The direct normal dependencies of the package `id` by the graph
/// `resolve`; `None` where there is no graph, or no node for the package.
pub open spec fn resolved_dependencies(resolve: Option<Seq<NodeView>>, id: Seq<char>) -> Option<
    Seq<Seq<char>>,
> {
    match resolve {
        None => None,
        Some(nodes) => match find_node(nodes, id) {
            None => None,
            Some(node) => Some(normal_dependencies(node.deps)),
        },
    }
}

} // verus!
