//! Workspace packages and their identifiers.

use crate::error::{ErrorView, SkeletonError};
use crate::metadata::{
    find_node, node_ids, normal_dependencies, resolved_dependencies, MetaPackage, Metadata, Node,
    NodeDep, NodeDepView, NodeView,
};
use crate::views::{lemma_first_position, lemma_no_position, views};
use vstd::prelude::*;
use vstd::std_specs::cmp::PartialEqSpecImpl;
use vstd::std_specs::convert::FromSpecImpl;

verus! {

/// What a package is, in contracts: its name, its identifier and the
/// identifiers of its direct dependencies, each as text.
pub struct PackageView {
    pub name: Seq<char>,
    pub id: Seq<char>,
    pub dependencies: Seq<Seq<char>>,
}

/// An opaque identifier for a package.
///
/// The identifier is the text that the package manager gave the package. It
/// is never taken apart: two identifiers are the same when their text is.
#[derive(Debug, Eq, Hash, PartialOrd, Ord)]
pub struct PackageId(String);

impl View for PackageId {
    type V = Seq<char>;

    closed spec fn view(&self) -> Seq<char> {
        self.0@
    }
}

impl PackageId {
    /// The text of the identifier.
    pub fn as_str(&self) -> (text: &str)
        ensures
            text@ == self@,
    {
        self.0.as_str()
    }

    /// The text of the identifier, as a string of its own.
    pub fn to_string(&self) -> (text: String)
        ensures
            text@ == self@,
    {
        self.0.clone()
    }
}

impl Clone for PackageId {
    fn clone(&self) -> (copy: Self)
        ensures
            copy@ == self@,
    {
        PackageId(self.0.clone())
    }
}

impl PartialEq for PackageId {
    fn eq(&self, other: &Self) -> (same: bool) {
        self.0 == other.0
    }
}

impl PartialEqSpecImpl for PackageId {
    open spec fn obeys_eq_spec() -> bool {
        true
    }

    open spec fn eq_spec(&self, other: &Self) -> bool {
        self@ == other@
    }
}

impl<'a> From<&'a str> for PackageId {
    fn from(text: &'a str) -> (id: Self)
        ensures
            id@ == text@,
    {
        PackageId(text.to_owned())
    }
}

impl<'a> FromSpecImpl<&'a str> for PackageId {
    open spec fn obeys_from_spec() -> bool {
        false
    }

    closed spec fn from_spec(text: &'a str) -> Self {
        arbitrary()
    }
}

impl From<String> for PackageId {
    fn from(text: String) -> (id: Self)
        ensures
            id@ == text@,
    {
        PackageId(text)
    }
}

impl FromSpecImpl<String> for PackageId {
    open spec fn obeys_from_spec() -> bool {
        true
    }

    closed spec fn from_spec(text: String) -> Self {
        PackageId(text)
    }
}

/// A copy of a list of identifiers.
pub fn clone_ids(ids: &Vec<PackageId>) -> (copy: Vec<PackageId>)
    ensures
        views(copy@) == views(ids@),
{
    let mut copy: Vec<PackageId> = Vec::new();
    let mut i: usize = 0;
    while i < ids.len()
        invariant
            i <= ids@.len(),
            copy@.len() == i,
            forall|j: int| 0 <= j < i ==> copy@[j]@ == ids@[j]@,
        decreases ids@.len() - i,
    {
        copy.push(ids[i].clone());
        i = i + 1;
    }
    assert(views(copy@) =~= views(ids@));
    copy
}

/// Whether two lists hold the same identifiers in the same order.
pub fn same_ids(a: &Vec<PackageId>, b: &Vec<PackageId>) -> (same: bool)
    ensures
        same == (views(a@) == views(b@)),
{
    if a.len() != b.len() {
        assert(views(a@).len() != views(b@).len());
        return false;
    }
    let mut i: usize = 0;
    while i < a.len()
        invariant
            i <= a@.len(),
            a@.len() == b@.len(),
            forall|j: int| 0 <= j < i ==> a@[j]@ == b@[j]@,
        decreases a@.len() - i,
    {
        if a[i] != b[i] {
            assert(views(a@)[i as int] != views(b@)[i as int]);
            return false;
        }
        i = i + 1;
    }
    assert(views(a@) =~= views(b@));
    true
}

/// A member of a workspace and its resolved direct dependencies.
#[derive(Debug, Eq)]
pub struct Package {
    /// The name that the manifest gives the package.
    pub name: String,
    /// The identifier of the package.
    pub id: PackageId,
    /// The identifiers of the direct dependencies, members or not, as they
    /// were resolved.
    pub dependencies: Vec<PackageId>,
}

impl View for Package {
    type V = PackageView;

    open spec fn view(&self) -> PackageView {
        PackageView {
            name: self.name@,
            id: self.id@,
            dependencies: views(self.dependencies@),
        }
    }
}

impl Clone for Package {
    fn clone(&self) -> (copy: Self)
        ensures
            copy@ == self@,
    {
        Package {
            name: self.name.clone(),
            id: self.id.clone(),
            dependencies: clone_ids(&self.dependencies),
        }
    }
}

impl PartialEq for Package {
    fn eq(&self, other: &Self) -> (same: bool) {
        self.name == other.name && self.id == other.id && same_ids(
            &self.dependencies,
            &other.dependencies,
        )
    }
}

impl PartialEqSpecImpl for Package {
    open spec fn obeys_eq_spec() -> bool {
        true
    }

    open spec fn eq_spec(&self, other: &Self) -> bool {
        self@ == other@
    }
}

impl<'a> From<&'a MetaPackage> for Package {
    /// The package as the resolver names it, with no dependencies yet.
    fn from(package: &'a MetaPackage) -> (made: Self)
        ensures
            made@ == (PackageView {
                name: package@.name,
                id: package@.id,
                dependencies: Seq::empty(),
            }),
    {
        let made = Package {
            name: package.name.clone(),
            id: package.id.clone(),
            dependencies: Vec::new(),
        };
        assert(views(made.dependencies@) =~= Seq::<Seq<char>>::empty());
        made
    }
}

impl<'a> FromSpecImpl<&'a MetaPackage> for Package {
    open spec fn obeys_from_spec() -> bool {
        false
    }

    closed spec fn from_spec(package: &'a MetaPackage) -> Self {
        arbitrary()
    }
}

/// The packages that `deps` lead to as normal dependencies.
fn collect_normal_dependencies(deps: &Vec<NodeDep>) -> (found: Vec<PackageId>)
    ensures
        views(found@) == normal_dependencies(views(deps@)),
{
    let mut found: Vec<PackageId> = Vec::new();
    let mut i: usize = 0;
    assert(views(deps@).take(0) =~= Seq::<NodeDepView>::empty());
    assert(views(found@) =~= Seq::<Seq<char>>::empty());
    while i < deps.len()
        invariant
            i <= deps@.len(),
            views(found@) == normal_dependencies(views(deps@).take(i as int)),
        decreases deps@.len() - i,
    {
        let ghost before = views(found@);
        assert(views(deps@).take(i + 1).drop_last() =~= views(deps@).take(i as int));
        assert(views(deps@).take(i + 1).last() == deps@[i as int]@);
        if deps[i].is_normal() {
            found.push(deps[i].pkg.clone());
            assert(views(found@) =~= before.push(deps@[i as int]@.pkg));
        }
        i = i + 1;
    }
    assert(views(deps@).take(i as int) =~= views(deps@));
    found
}

/// The first node of `nodes` that stands for the package `id`.
fn lookup_node<'a>(nodes: &'a Vec<Node>, id: &PackageId) -> (found: Option<&'a Node>)
    ensures
        match found {
            Some(node) => find_node(views(nodes@), id@) == Some(node@),
            None => find_node(views(nodes@), id@) is None,
        },
{
    let mut i: usize = 0;
    while i < nodes.len()
        invariant
            i <= nodes@.len(),
            forall|j: int| 0 <= j < i ==> node_ids(views(nodes@))[j] != id@,
        decreases nodes@.len() - i,
    {
        if nodes[i].id == *id {
            proof {
                lemma_first_position(node_ids(views(nodes@)), id@, i as int);
            }
            return Some(&nodes[i]);
        }
        i = i + 1;
    }
    proof {
        lemma_no_position(node_ids(views(nodes@)), id@);
    }
    None
}

impl Package {
    /// Sets the dependencies of the package to its direct normal
    /// dependencies by the dependency graph of `metadata`.
    ///
    /// Fails, and leaves the package as it was, where `metadata` has no
    /// graph or the graph has no node for the package.
    pub fn load_metadata_dependencies(&mut self, metadata: &Metadata) -> (done: Result<
        (),
        SkeletonError,
    >)
        ensures
            final(self)@.name == old(self)@.name,
            final(self)@.id == old(self)@.id,
            match done {
                Ok(_) => resolved_dependencies(metadata@.resolve, old(self)@.id) == Some(
                    final(self)@.dependencies,
                ),
                Err(error) => {
                    &&& resolved_dependencies(metadata@.resolve, old(self)@.id) is None
                    &&& final(self)@ == old(self)@
                    &&& error@ == graph_error(metadata@.resolve, old(self)@.id)
                },
            },
    {
        match &metadata.resolve {
            None => Err(SkeletonError::GraphInconsistency(None)),
            Some(nodes) => match lookup_node(nodes, &self.id) {
                None => Err(SkeletonError::GraphInconsistency(Some(self.id.clone()))),
                Some(node) => {
                    self.dependencies = collect_normal_dependencies(&node.deps);
                    Ok(())
                },
            },
        }
    }
}

/// What the lookup of the package `id` in the resolver's graph fails
/// with: the error names no package where there is no graph, and the
/// package where the graph has no node for it.
pub open spec fn graph_error(resolve: Option<Seq<NodeView>>, id: Seq<char>) -> ErrorView {
    match resolve {
        None => ErrorView::GraphInconsistency(None),
        Some(_) => ErrorView::GraphInconsistency(Some(id)),
    }
}

} // verus!
