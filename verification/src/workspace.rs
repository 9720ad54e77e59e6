//! The workspace: its root and its member packages.
//!
//! In contracts a workspace is the sequence of its members, in the order in
//! which they were added. No two members have the same identifier.

use crate::error::{ErrorView, SkeletonError};
use crate::lockfile::{deserialize, format_lock, lemma_parse_format, parse_lock, Lockfile};
use crate::metadata::{resolved_dependencies, MetaPackage, MetaPackageView, Metadata, NodeView};
use crate::order::{
    comes_before, lemma_ascending_no_duplicates, lemma_stable_order_covers, lemma_stable_order_exists,
    lemma_stable_order_unique, positions, reorder, sorted_positions, stable_order, texts,
};
use crate::package::{graph_error, Package, PackageId, PackageView};
use crate::paths::{path_has_prefix, starts_with};
use crate::text::{text_eq, text_lt};
use crate::views::{lemma_first_position, lemma_no_position, lemma_views_push, views};
use vstd::prelude::*;

verus! {

/// The identifiers of a sequence of packages.
pub open spec fn ids_of(members: Seq<PackageView>) -> Seq<Seq<char>> {
    Seq::new(members.len(), |i: int| members[i].id)
}

/// The names of a sequence of packages.
pub open spec fn names_of(members: Seq<PackageView>) -> Seq<Seq<char>> {
    Seq::new(members.len(), |i: int| members[i].name)
}

/// Whether no two of the packages have the same identifier.
pub open spec fn distinct_ids(members: Seq<PackageView>) -> bool {
    ids_of(members).no_duplicates()
}

/// Whether a package with the identifier `id` is among `members`.
pub open spec fn has_member(members: Seq<PackageView>, id: Seq<char>) -> bool {
    ids_of(members).contains(id)
}

/// The member with the identifier `id`.
pub open spec fn find_member(members: Seq<PackageView>, id: Seq<char>) -> Option<PackageView> {
    match ids_of(members).index_of_first(id) {
        Some(i) => Some(members[i]),
        None => None,
    }
}

/// The identifier that a package specification stands for: that of the
/// first member with that name or, where no member has that name, the
/// specification itself if it is the identifier of a member.
pub open spec fn resolve_spec(members: Seq<PackageView>, spec: Seq<char>) -> Option<Seq<char>> {
    match names_of(members).index_of_first(spec) {
        Some(i) => Some(members[i].id),
        None => if has_member(members, spec) {
            Some(spec)
        } else {
            None
        },
    }
}

/// The members after `package` was added: the first package with an
/// identifier stays, a later one with the same identifier is dropped.
pub open spec fn with_package(members: Seq<PackageView>, package: PackageView) -> Seq<
    PackageView,
> {
    if has_member(members, package.id) {
        members
    } else {
        members.push(package)
    }
}

/// The members after the packages of `added` were added one after the
/// other.
pub open spec fn with_packages(members: Seq<PackageView>, added: Seq<PackageView>) -> Seq<
    PackageView,
>
    decreases added.len(),
{
    if added.len() == 0 {
        members
    } else {
        with_package(with_packages(members, added.drop_last()), added.last())
    }
}

/// The identifiers that the specifications stand for, one for each, or the
/// first specification that stands for none.
pub open spec fn resolve_specs(members: Seq<PackageView>, specs: Seq<Seq<char>>) -> Result<
    Seq<Seq<char>>,
    Seq<char>,
>
    decreases specs.len(),
{
    if specs.len() == 0 {
        Ok(Seq::empty())
    } else {
        match resolve_specs(members, specs.drop_last()) {
            Err(spec) => Err(spec),
            Ok(ids) => match resolve_spec(members, specs.last()) {
                Some(id) => Ok(ids.push(id)),
                None => Err(specs.last()),
            },
        }
    }
}

/// Whether a package of the resolution is a member of the workspace at
/// `root`: it has no outside source, and its manifest lies under the root.
pub open spec fn is_local_member(package: MetaPackageView, root: Seq<char>) -> bool {
    package.source is None && path_has_prefix(package.manifest_path, root)
}

/// The packages of the resolution that are members of the workspace at
/// `root`, in the order of the resolution.
pub open spec fn local_members(packages: Seq<MetaPackageView>, root: Seq<char>) -> Seq<
    MetaPackageView,
>
    decreases packages.len(),
{
    if packages.len() == 0 {
        Seq::empty()
    } else if is_local_member(packages.last(), root) {
        local_members(packages.drop_last(), root).push(packages.last())
    } else {
        local_members(packages.drop_last(), root)
    }
}

/// The identifiers of a sequence of packages of the resolution.
pub open spec fn meta_ids(packages: Seq<MetaPackageView>) -> Seq<Seq<char>> {
    Seq::new(packages.len(), |i: int| packages[i].id)
}

/// The packages in ascending order of identifier; packages with the same
/// identifier keep their order.
pub open spec fn sorted_by_id(packages: Seq<MetaPackageView>) -> Seq<MetaPackageView> {
    reorder(packages, stable_order(meta_ids(packages)))
}

/// The workspace packages that the packages of the resolution become, each
/// with its direct normal dependencies by the graph `resolve`; or the
/// identifier of the first package that the graph has no node for.
pub open spec fn resolved_packages(
    packages: Seq<MetaPackageView>,
    resolve: Option<Seq<NodeView>>,
) -> Result<Seq<PackageView>, Seq<char>>
    decreases packages.len(),
{
    if packages.len() == 0 {
        Ok(Seq::empty())
    } else {
        match resolved_packages(packages.drop_last(), resolve) {
            Err(id) => Err(id),
            Ok(made) => match resolved_dependencies(resolve, packages.last().id) {
                Some(dependencies) => Ok(
                    made.push(
                        PackageView {
                            name: packages.last().name,
                            id: packages.last().id,
                            dependencies,
                        },
                    ),
                ),
                None => Err(packages.last().id),
            },
        }
    }
}

/// Where the first `k` packages cannot all be resolved, the failure is that
/// of the whole sequence.
pub proof fn lemma_resolved_packages_prefix(
    packages: Seq<MetaPackageView>,
    resolve: Option<Seq<NodeView>>,
    k: int,
)
    requires
        0 <= k <= packages.len(),
        resolved_packages(packages.take(k), resolve) is Err,
    ensures
        resolved_packages(packages, resolve) == resolved_packages(packages.take(k), resolve),
    decreases packages.len() - k,
{
    if k == packages.len() {
        assert(packages.take(k) =~= packages);
    } else {
        assert(packages.take(k + 1).drop_last() =~= packages.take(k));
        lemma_resolved_packages_prefix(packages, resolve, k + 1);
    }
}

/// The records of the lock file of a workspace: its members in ascending
/// order of identifier.
pub open spec fn lock_records(members: Seq<PackageView>) -> Seq<PackageView> {
    reorder(members, stable_order(ids_of(members)))
}

/// Copies of the packages, in the given order.
fn reordered(packages: &Vec<Package>, order: &Vec<usize>) -> (taken: Vec<Package>)
    requires
        forall|i: int| 0 <= i < order@.len() ==> order@[i] < packages@.len(),
    ensures
        views(taken@) == reorder(views(packages@), positions(order@)),
{
    let mut taken: Vec<Package> = Vec::new();
    let mut i: usize = 0;
    while i < order.len()
        invariant
            i <= order@.len(),
            taken@.len() == i,
            forall|j: int| 0 <= j < order@.len() ==> order@[j] < packages@.len(),
            forall|j: int| 0 <= j < i ==> taken@[j]@ == packages@[order@[j] as int]@,
        decreases order@.len() - i,
    {
        taken.push(packages[order[i]].clone());
        i = i + 1;
    }
    assert(views(taken@) =~= reorder(views(packages@), positions(order@)));
    taken
}

/// Adding a package keeps the identifiers distinct.
pub proof fn lemma_with_package_distinct(members: Seq<PackageView>, package: PackageView)
    requires
        distinct_ids(members),
    ensures
        distinct_ids(with_package(members, package)),
{
    if !has_member(members, package.id) {
        let after = members.push(package);
        assert forall|i: int, j: int|
            0 <= i < after.len() && 0 <= j < after.len() && i != j implies ids_of(after)[i]
            != ids_of(after)[j] by {
            if i < members.len() && j < members.len() {
                assert(ids_of(members)[i] != ids_of(members)[j]);
            } else if i < members.len() {
                assert(ids_of(members)[i] == members[i].id);
            } else {
                assert(ids_of(members)[j] == members[j].id);
            }
        }
    }
}

/// Adding packages keeps the identifiers distinct.
pub proof fn lemma_with_packages_distinct(members: Seq<PackageView>, added: Seq<PackageView>)
    requires
        distinct_ids(members),
    ensures
        distinct_ids(with_packages(members, added)),
    decreases added.len(),
{
    if added.len() > 0 {
        lemma_with_packages_distinct(members, added.drop_last());
        lemma_with_package_distinct(with_packages(members, added.drop_last()), added.last());
    }
}

/// Packages with distinct identifiers are all kept where they are added to
/// an empty workspace.
pub proof fn lemma_with_packages_keeps_distinct(added: Seq<PackageView>)
    requires
        distinct_ids(added),
    ensures
        with_packages(Seq::empty(), added) == added,
    decreases added.len(),
{
    if added.len() == 0 {
        assert(added =~= Seq::<PackageView>::empty());
    } else {
        let before = added.drop_last();
        assert forall|i: int, j: int|
            0 <= i < before.len() && 0 <= j < before.len() && i != j implies ids_of(before)[i]
            != ids_of(before)[j] by {
            assert(ids_of(added)[i] != ids_of(added)[j]);
        }
        lemma_with_packages_keeps_distinct(before);
        assert(!has_member(before, added.last().id)) by {
            if has_member(before, added.last().id) {
                let i = choose|i: int|
                    0 <= i < ids_of(before).len() && ids_of(before)[i] == added.last().id;
                assert(ids_of(added)[i] == ids_of(added)[added.len() - 1]);
            }
        }
        assert(before.push(added.last()) =~= added);
    }
}

/// The records of the lock file of a workspace are its members, each once,
/// in strictly ascending order of identifier.
pub proof fn lemma_lock_records(members: Seq<PackageView>)
    requires
        distinct_ids(members),
    ensures
        lock_records(members).len() == members.len(),
        lock_records(members).to_set() == members.to_set(),
        distinct_ids(lock_records(members)),
        forall|i: int, j: int|
            0 <= i < j < members.len() ==> text_lt(
                #[trigger] lock_records(members)[i].id,
                #[trigger] lock_records(members)[j].id,
            ),
{
    let keys = ids_of(members);
    let order = stable_order(keys);
    let records = lock_records(members);
    lemma_stable_order_exists(keys);
    lemma_ascending_no_duplicates(order, keys);
    assert forall|package: PackageView| records.contains(package) <==> members.contains(
        package,
    ) by {
        if records.contains(package) {
            let i = choose|i: int| 0 <= i < records.len() && records[i] == package;
            assert(0 <= order[i] < members.len());
            assert(members[order[i]] == package);
        }
        if members.contains(package) {
            let v = choose|v: int| 0 <= v < members.len() && members[v] == package;
            lemma_stable_order_covers(order, keys, v);
            let i = choose|i: int| 0 <= i < order.len() && order[i] == v;
            assert(records[i] == package);
        }
    }
    assert(records.to_set() =~= members.to_set());
    assert forall|i: int, j: int| 0 <= i < j < members.len() implies text_lt(
        #[trigger] records[i].id,
        #[trigger] records[j].id,
    ) by {
        assert(0 <= order[i] < members.len());
        assert(0 <= order[j] < members.len());
        assert(comes_before(keys, order[i], order[j]));
        assert(order[i] != order[j]);
        assert(ids_of(members)[order[i]] != ids_of(members)[order[j]]);
    }
    assert forall|i: int, j: int|
        0 <= i < records.len() && 0 <= j < records.len() && i != j implies ids_of(records)[i]
        != ids_of(records)[j] by {
        assert(0 <= order[i] < members.len());
        assert(0 <= order[j] < members.len());
        assert(order[i] != order[j]);
        assert(ids_of(members)[order[i]] != ids_of(members)[order[j]]);
    }
}

/// Writing the lock file of a workspace, reading it and loading what was
/// read into an empty workspace gives a workspace with the same packages:
/// the same names, identifiers and dependencies.
pub proof fn lemma_lock_round_trip(members: Seq<PackageView>)
    requires
        distinct_ids(members),
    ensures
        parse_lock(format_lock(lock_records(members))) matches Some(records) && with_packages(
            Seq::empty(),
            records,
        ).to_set() == members.to_set(),
{
    let records = lock_records(members);
    lemma_parse_format(records);
    lemma_lock_records(members);
    lemma_with_packages_keeps_distinct(records);
}

/// A package of a workspace to which packages were added was a member
/// before, or is one of those that were added.
pub proof fn lemma_with_packages_origin(
    members: Seq<PackageView>,
    added: Seq<PackageView>,
    package: PackageView,
)
    requires
        with_packages(members, added).contains(package),
    ensures
        members.contains(package) || added.contains(package),
    decreases added.len(),
{
    if added.len() > 0 {
        let before = with_packages(members, added.drop_last());
        if before.contains(package) {
            lemma_with_packages_origin(members, added.drop_last(), package);
            if added.drop_last().contains(package) {
                let i = choose|i: int|
                    0 <= i < added.drop_last().len() && added.drop_last()[i] == package;
                assert(added[i] == package);
            }
        } else {
            let after = with_package(before, added.last());
            let i = choose|i: int| 0 <= i < after.len() && after[i] == package;
            if i < before.len() {
                assert(before[i] == package);
            }
            assert(added[added.len() - 1] == package);
        }
    }
}

/// Each of the members among the packages of a resolution has no outside
/// source, has its manifest under the root, and is a package of the
/// resolution.
pub proof fn lemma_local_members(packages: Seq<MetaPackageView>, root: Seq<char>, i: int)
    requires
        0 <= i < local_members(packages, root).len(),
    ensures
        is_local_member(local_members(packages, root)[i], root),
        packages.contains(local_members(packages, root)[i]),
    decreases packages.len(),
{
    if packages.len() > 0 {
        let before = local_members(packages.drop_last(), root);
        if i < before.len() {
            lemma_local_members(packages.drop_last(), root, i);
            let k = choose|k: int|
                0 <= k < packages.drop_last().len() && packages.drop_last()[k] == before[i];
            assert(packages[k] == before[i]);
        } else {
            assert(packages[packages.len() - 1] == packages.last());
        }
    }
}

/// The workspace packages that packages of a resolution become keep the
/// names and identifiers, one for one, and have the dependencies that the
/// graph gives.
pub proof fn lemma_resolved_packages_items(
    packages: Seq<MetaPackageView>,
    resolve: Option<Seq<NodeView>>,
)
    requires
        resolved_packages(packages, resolve) is Ok,
    ensures
        resolved_packages(packages, resolve)->Ok_0.len() == packages.len(),
        forall|i: int|
            0 <= i < packages.len() ==> {
                let made = #[trigger] resolved_packages(packages, resolve)->Ok_0[i];
                &&& made.name == packages[i].name
                &&& made.id == packages[i].id
                &&& resolved_dependencies(resolve, packages[i].id) == Some(made.dependencies)
            },
    decreases packages.len(),
{
    if packages.len() > 0 {
        lemma_resolved_packages_items(packages.drop_last(), resolve);
        let before = resolved_packages(packages.drop_last(), resolve)->Ok_0;
        let all = resolved_packages(packages, resolve)->Ok_0;
        assert forall|i: int| 0 <= i < packages.len() implies {
            let made = #[trigger] all[i];
            &&& made.name == packages[i].name
            &&& made.id == packages[i].id
            &&& resolved_dependencies(resolve, packages[i].id) == Some(made.dependencies)
        } by {
            if i < packages.len() - 1 {
                assert(all[i] == before[i]);
                assert(packages.drop_last()[i] == packages[i]);
            }
        }
    }
}

/// Loading a resolution adds no package that has an outside source or
/// whose manifest lies outside the root of the workspace: every member
/// that was no member before is, by name and identifier, a package of the
/// resolution without outside source and with its manifest under the
/// root.
pub proof fn lemma_loaded_members_are_local(
    members: Seq<PackageView>,
    packages: Seq<MetaPackageView>,
    resolve: Option<Seq<NodeView>>,
    root: Seq<char>,
    package: PackageView,
)
    requires
        resolved_packages(sorted_by_id(local_members(packages, root)), resolve) matches Ok(made)
            && with_packages(members, made).contains(package),
        !members.contains(package),
    ensures
        exists|i: int|
            0 <= i < packages.len() && is_local_member(#[trigger] packages[i], root)
                && packages[i].id == package.id && packages[i].name == package.name,
{
    let local = local_members(packages, root);
    let sorted = sorted_by_id(local);
    let made = resolved_packages(sorted, resolve)->Ok_0;
    lemma_with_packages_origin(members, made, package);
    let k = choose|k: int| 0 <= k < made.len() && made[k] == package;
    lemma_resolved_packages_items(sorted, resolve);
    lemma_stable_order_exists(meta_ids(local));
    let order = stable_order(meta_ids(local));
    assert(0 <= order[k] < local.len());
    lemma_local_members(packages, root, order[k]);
    let i = choose|i: int| 0 <= i < packages.len() && packages[i] == local[order[k]];
    assert(sorted[k] == local[order[k]]);
    assert(is_local_member(packages[i], root));
}

/// A workspace of packages.
#[derive(Debug)]
pub struct Workspace {
    /// The path of the root directory of the workspace.
    workspace_root: String,
    /// The members, in the order in which they were added.
    packages: Vec<Package>,
}

impl View for Workspace {
    type V = Seq<PackageView>;

    closed spec fn view(&self) -> Seq<PackageView> {
        views(self.packages@)
    }
}

impl Workspace {
    /// The path of the root directory, as text.
    pub closed spec fn root_text(&self) -> Seq<char> {
        self.workspace_root@
    }

    /// No two members have the same identifier.
    #[verifier::type_invariant]
    pub closed spec fn well_formed(&self) -> bool {
        distinct_ids(views(self.packages@))
    }

    /// A workspace without members.
    pub fn new(workspace_root: String) -> (workspace: Self)
        ensures
            workspace@ == Seq::<PackageView>::empty(),
            workspace.root_text() == workspace_root@,
    {
        let workspace = Workspace { workspace_root, packages: Vec::new() };
        assert(views(workspace.packages@) =~= Seq::<PackageView>::empty());
        workspace
    }

    /// The path of the root directory of the workspace.
    pub fn root(&self) -> (root: &str)
        ensures
            root@ == self.root_text(),
    {
        self.workspace_root.as_str()
    }

    /// The members of the workspace, in the order in which they were added.
    pub fn packages(&self) -> (members: &Vec<Package>)
        ensures
            views(members@) == self@,
            distinct_ids(self@),
    {
        proof {
            use_type_invariant(self);
        }
        &self.packages
    }

    /// The position of the member with the identifier `id`.
    fn position_of(&self, id: &PackageId) -> (found: Option<usize>)
        ensures
            match found {
                Some(i) => ids_of(self@).index_of_first(id@) == Some(i as int) && i
                    < self.packages@.len(),
                None => ids_of(self@).index_of_first(id@) is None && !has_member(self@, id@),
            },
    {
        let mut i: usize = 0;
        while i < self.packages.len()
            invariant
                i <= self.packages@.len(),
                forall|j: int| 0 <= j < i ==> ids_of(self@)[j] != id@,
            decreases self.packages@.len() - i,
        {
            if self.packages[i].id == *id {
                proof {
                    lemma_first_position(ids_of(self@), id@, i as int);
                }
                return Some(i);
            }
            i = i + 1;
        }
        proof {
            lemma_no_position(ids_of(self@), id@);
        }
        None
    }

    /// Whether the workspace has a member with the identifier `id`.
    pub fn is_member(&self, id: &PackageId) -> (member: bool)
        ensures
            member == has_member(self@, id@),
    {
        let found = self.position_of(id);
        proof {
            ids_of(self@).index_of_first_ensures(id@);
        }
        found.is_some()
    }

    /// The member with the identifier `id`.
    pub fn get_package(&self, id: &PackageId) -> (found: Option<&Package>)
        ensures
            match found {
                Some(package) => find_member(self@, id@) == Some(package@),
                None => find_member(self@, id@) is None,
            },
            found is Some <==> has_member(self@, id@),
    {
        proof {
            ids_of(self@).index_of_first_ensures(id@);
        }
        match self.position_of(id) {
            Some(i) => Some(&self.packages[i]),
            None => None,
        }
    }

    /// Adds a package to the workspace, unless a member has its identifier
    /// already.
    pub fn add_package(&mut self, package: Package)
        ensures
            final(self)@ == with_package(old(self)@, package@),
            final(self).root_text() == old(self).root_text(),
    {
        proof {
            use_type_invariant(&*self);
        }
        if self.is_member(&package.id) {
            return ;
        }
        proof {
            lemma_with_package_distinct(self@, package@);
            lemma_views_push(self.packages@, package);
        }
        let mut packages: Vec<Package> = Vec::new();
        assert(views(packages@) =~= Seq::<PackageView>::empty());
        std::mem::swap(&mut self.packages, &mut packages);
        packages.push(package);
        std::mem::swap(&mut self.packages, &mut packages);
    }

    /// The identifier of the member that the specification `spec` stands
    /// for: the first member with that name or, where there is none, the
    /// member with that identifier.
    pub fn package_id(&self, spec: &str) -> (found: Option<&PackageId>)
        ensures
            match found {
                Some(id) => resolve_spec(self@, spec@) == Some(id@) && has_member(self@, id@),
                None => resolve_spec(self@, spec@) is None,
            },
    {
        let mut i: usize = 0;
        while i < self.packages.len()
            invariant
                i <= self.packages@.len(),
                forall|j: int| 0 <= j < i ==> names_of(self@)[j] != spec@,
            decreases self.packages@.len() - i,
        {
            if text_eq(self.packages[i].name.as_str(), spec) {
                proof {
                    lemma_first_position(names_of(self@), spec@, i as int);
                    assert(ids_of(self@)[i as int] == self.packages@[i as int]@.id);
                }
                return Some(&self.packages[i].id);
            }
            i = i + 1;
        }
        proof {
            lemma_no_position(names_of(self@), spec@);
        }
        let mut k: usize = 0;
        while k < self.packages.len()
            invariant
                k <= self.packages@.len(),
                names_of(self@).index_of_first(spec@) is None,
                forall|j: int| 0 <= j < k ==> ids_of(self@)[j] != spec@,
            decreases self.packages@.len() - k,
        {
            if text_eq(self.packages[k].id.as_str(), spec) {
                assert(ids_of(self@)[k as int] == spec@);
                return Some(&self.packages[k].id);
            }
            k = k + 1;
        }
        proof {
            lemma_no_position(ids_of(self@), spec@);
        }
        None
    }

    /// The identifiers of the members that the specifications stand for, in
    /// the order of the specifications.
    ///
    /// Fails with the first specification that stands for no member.
    pub fn get_package_ids(&self, specs: &[String]) -> (found: Result<
        Vec<&PackageId>,
        SkeletonError,
    >)
        ensures
            match found {
                Ok(ids) => resolve_specs(self@, views(specs@)) == Ok::<_, Seq<char>>(views(ids@)),
                Err(error) => resolve_specs(self@, views(specs@)) matches Err(spec) && error@
                    == ErrorView::SpecNotFound(spec),
            },
            found matches Ok(ids) ==> forall|i: int|
                0 <= i < ids@.len() ==> has_member(self@, #[trigger] ids@[i]@),
    {
        let mut ids: Vec<&PackageId> = Vec::new();
        let mut i: usize = 0;
        assert(views(specs@).take(0) =~= Seq::<Seq<char>>::empty());
        assert(views(ids@) =~= Seq::<Seq<char>>::empty());
        while i < specs.len()
            invariant
                i <= specs@.len(),
                resolve_specs(self@, views(specs@).take(i as int)) == Ok::<_, Seq<char>>(
                    views(ids@),
                ),
                forall|j: int| 0 <= j < ids@.len() ==> has_member(self@, #[trigger] ids@[j]@),
            decreases specs@.len() - i,
        {
            let ghost before = views(ids@);
            assert(views(specs@).take(i + 1).drop_last() =~= views(specs@).take(i as int));
            assert(views(specs@).take(i + 1).last() == specs@[i as int]@);
            match self.package_id(specs[i].as_str()) {
                Some(id) => {
                    ids.push(id);
                    assert(views(ids@) =~= before.push(id@));
                },
                None => {
                    proof {
                        lemma_resolve_specs_prefix(self@, views(specs@), i + 1);
                    }
                    return Err(SkeletonError::SpecNotFound(specs[i].clone()));
                },
            }
            i = i + 1;
        }
        assert(views(specs@).take(i as int) =~= views(specs@));
        Ok(ids)
    }

    /// Adds the members of the workspace among the packages of a
    /// resolution.
    ///
    /// A package of the resolution is a member where it has no outside
    /// source and its manifest lies under the root of the workspace. The
    /// members are taken in ascending order of identifier, each with its
    /// direct normal dependencies by the graph of the resolution, and added
    /// one after the other. Where the graph has no node for one of them,
    /// nothing is added.
    pub fn load_metadata(&mut self, metadata: &Metadata) -> (done: Result<(), SkeletonError>)
        ensures
            final(self).root_text() == old(self).root_text(),
            match done {
                Ok(_) => resolved_packages(
                    sorted_by_id(local_members(metadata@.packages, old(self).root_text())),
                    metadata@.resolve,
                ) matches Ok(made) && final(self)@ == with_packages(old(self)@, made),
                Err(error) => resolved_packages(
                    sorted_by_id(local_members(metadata@.packages, old(self).root_text())),
                    metadata@.resolve,
                ) matches Err(id) && final(self)@ == old(self)@ && error@ == graph_error(
                    metadata@.resolve,
                    id,
                ),
            },
    {
        let ghost all = metadata@.packages;
        let ghost root = self.root_text();
        let mut local: Vec<&MetaPackage> = Vec::new();
        let mut keys: Vec<&str> = Vec::new();
        let mut i: usize = 0;
        assert(all.take(0) =~= Seq::<MetaPackageView>::empty());
        assert(views(local@) =~= Seq::<MetaPackageView>::empty());
        assert(texts(keys@) =~= meta_ids(views(local@)));
        while i < metadata.packages.len()
            invariant
                i <= metadata.packages@.len(),
                all == metadata@.packages,
                root == self.root_text(),
                self@ == old(self)@,
                self.root_text() == old(self).root_text(),
                views(local@) == local_members(all.take(i as int), root),
                texts(keys@) == meta_ids(views(local@)),
            decreases metadata.packages@.len() - i,
        {
            let package = &metadata.packages[i];
            let ghost before = views(local@);
            assert(all.take(i + 1).drop_last() =~= all.take(i as int));
            assert(all.take(i + 1).last() == package@);
            if package.source.is_none() && starts_with(
                package.manifest_path.as_str(),
                self.root(),
            ) {
                let ghost keys_before = texts(keys@);
                local.push(package);
                keys.push(package.id.as_str());
                assert(views(local@) =~= before.push(package@));
                assert(texts(keys@) =~= keys_before.push(package@.id));
                assert(meta_ids(before.push(package@)) =~= meta_ids(before).push(package@.id));
            }
            i = i + 1;
        }
        assert(all.take(i as int) =~= all);
        let order = sorted_positions(&keys);
        proof {
            lemma_stable_order_unique(positions(order@), texts(keys@));
            assert forall|j: int| 0 <= j < order@.len() implies order@[j] < local@.len() by {
                assert(0 <= positions(order@)[j] < keys@.len());
            }
        }
        let ghost sorted = sorted_by_id(views(local@));
        let mut made: Vec<Package> = Vec::new();
        let mut k: usize = 0;
        assert(sorted.take(0) =~= Seq::<MetaPackageView>::empty());
        assert(views(made@) =~= Seq::<PackageView>::empty());
        while k < order.len()
            invariant
                k <= order@.len(),
                order@.len() == local@.len(),
                self@ == old(self)@,
                self.root_text() == old(self).root_text(),
                sorted == sorted_by_id(
                    local_members(metadata@.packages, old(self).root_text()),
                ),
                sorted == reorder(views(local@), positions(order@)),
                forall|j: int| 0 <= j < order@.len() ==> order@[j] < local@.len(),
                resolved_packages(sorted.take(k as int), metadata@.resolve) == Ok::<
                    _,
                    Seq<char>,
                >(views(made@)),
            decreases order@.len() - k,
        {
            let ghost before = views(made@);
            assert(sorted.take(k + 1).drop_last() =~= sorted.take(k as int));
            assert(sorted.take(k + 1).last() == local@[order@[k as int] as int]@);
            let mut package = Package::from(local[order[k]]);
            assert(package@.id == sorted[k as int].id);
            assert(package@.name == sorted[k as int].name);
            match package.load_metadata_dependencies(metadata) {
                Ok(_) => {
                    made.push(package);
                    assert(views(made@) =~= before.push(package@));
                },
                Err(error) => {
                    proof {
                        assert(resolved_packages(sorted.take(k + 1), metadata@.resolve) == Err::<
                            Seq<PackageView>,
                            _,
                        >(sorted[k as int].id));
                        lemma_resolved_packages_prefix(sorted, metadata@.resolve, k + 1);
                    }
                    return Err(error);
                },
            }
            k = k + 1;
        }
        assert(sorted.take(k as int) =~= sorted);
        self.add_packages(&made);
        Ok(())
    }

    /// The lock file of the workspace: a record for each member, in
    /// ascending order of identifier.
    pub fn to_lockfile(&self) -> (lockfile: Lockfile)
        ensures
            lockfile@ == lock_records(self@),
    {
        let mut keys: Vec<&str> = Vec::new();
        let mut i: usize = 0;
        while i < self.packages.len()
            invariant
                i <= self.packages@.len(),
                keys@.len() == i,
                forall|j: int| 0 <= j < i ==> keys@[j]@ == self.packages@[j]@.id,
            decreases self.packages@.len() - i,
        {
            keys.push(self.packages[i].id.as_str());
            i = i + 1;
        }
        assert(texts(keys@) =~= ids_of(self@));
        let order = sorted_positions(&keys);
        proof {
            lemma_stable_order_unique(positions(order@), texts(keys@));
            assert forall|j: int| 0 <= j < order@.len() implies order@[j]
                < self.packages@.len() by {
                assert(0 <= positions(order@)[j] < keys@.len());
            }
        }
        Lockfile { packages: reordered(&self.packages, &order) }
    }

    /// The lock file of the workspace: a record for each member, in
    /// ascending order of identifier.
    pub fn into_lockfile(self) -> (lockfile: Lockfile)
        ensures
            lockfile@ == lock_records(self@),
    {
        self.to_lockfile()
    }

    /// Adds the packages that the lock file `bytes` records, in the order
    /// of the file.
    ///
    /// Fails, and adds nothing, where `bytes` is no lock file.
    pub fn load_lockfile(&mut self, bytes: &[u8]) -> (done: Result<(), SkeletonError>)
        ensures
            final(self).root_text() == old(self).root_text(),
            match done {
                Ok(_) => parse_lock(bytes@) matches Some(records) && final(self)@
                    == with_packages(old(self)@, records),
                Err(error) => {
                    &&& parse_lock(bytes@) is None
                    &&& error@ == ErrorView::CorruptLockfile
                    &&& final(self)@ == old(self)@
                },
            },
    {
        match deserialize(bytes) {
            Ok(lockfile) => {
                self.add_packages(&lockfile.packages);
                Ok(())
            },
            Err(error) => Err(error),
        }
    }

    /// Adds copies of the packages, one after the other.
    pub fn add_packages(&mut self, packages: &Vec<Package>)
        ensures
            final(self)@ == with_packages(old(self)@, views(packages@)),
            final(self).root_text() == old(self).root_text(),
    {
        let mut i: usize = 0;
        assert(views(packages@).take(0) =~= Seq::<PackageView>::empty());
        while i < packages.len()
            invariant
                i <= packages@.len(),
                self.root_text() == old(self).root_text(),
                self@ == with_packages(old(self)@, views(packages@).take(i as int)),
            decreases packages@.len() - i,
        {
            assert(views(packages@).take(i + 1).drop_last() =~= views(packages@).take(i as int));
            assert(views(packages@).take(i + 1).last() == packages@[i as int]@);
            self.add_package(packages[i].clone());
            i = i + 1;
        }
        assert(views(packages@).take(i as int) =~= views(packages@));
    }
}

impl<'a> std::ops::Index<&'a PackageId> for Workspace {
    type Output = Package;

    /// The member with the identifier `id`, which the workspace has.
    fn index(&self, id: &'a PackageId) -> (package: &Package)
        ensures
            find_member(self@, id@) == Some(package@),
    {
        self.get_package(id).unwrap()
    }
}

impl<'a> vstd::std_specs::core::IndexSpecImpl<&'a PackageId> for Workspace {
    open spec fn index_req(&self, id: &&'a PackageId) -> bool {
        has_member(self@, id@)
    }
}

/// Where the first `k` specifications do not all stand for a member, the
/// failure is that of the whole sequence.
pub proof fn lemma_resolve_specs_prefix(members: Seq<PackageView>, specs: Seq<Seq<char>>, k: int)
    requires
        0 <= k <= specs.len(),
        resolve_specs(members, specs.take(k)) is Err,
    ensures
        resolve_specs(members, specs) == resolve_specs(members, specs.take(k)),
    decreases specs.len() - k,
{
    if k == specs.len() {
        assert(specs.take(k) =~= specs);
    } else {
        assert(specs.take(k + 1).drop_last() =~= specs.take(k));
        lemma_resolve_specs_prefix(members, specs, k + 1);
    }
}

} // verus!
