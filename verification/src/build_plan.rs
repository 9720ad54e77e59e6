//! Choosing what to build from an unpacked skeleton.
//!
//! The packages to build are the requested members that are not excluded,
//! each with the members that it depends on directly. For each of them the
//! external compiler is run once, and told to build the dependencies of the
//! package that are not members of the workspace.

use crate::error::{ErrorView, SkeletonError};
use crate::package::{Package, PackageId, PackageView};
use crate::views::{lemma_views_push, views};
use crate::workspace::{find_member, has_member, ids_of, resolve_specs, Workspace};
use vstd::prelude::*;

verus! {

/// What to build, and how.
#[derive(Debug)]
pub struct BuildOptions {
    /// The path of the manifest of the skeleton.
    pub manifest_path: Option<String>,
    /// The packages to build; all members where there are none.
    pub packages: Vec<String>,
    /// The packages to leave out.
    pub exclude: Vec<String>,
    /// Build all members of the workspace.
    pub all: bool,
    /// Further arguments for the external compiler.
    pub args: Vec<String>,
}

impl Default for BuildOptions {
    fn default() -> (options: Self)
        ensures
            options.manifest_path is None,
            options.packages@.len() == 0,
            options.exclude@.len() == 0,
            !options.all,
            options.args@.len() == 0,
    {
        BuildOptions {
            manifest_path: None,
            packages: Vec::new(),
            exclude: Vec::new(),
            all: false,
            args: Vec::new(),
        }
    }
}

/// One run of the external compiler.
#[derive(Debug)]
pub struct Invocation {
    /// The package whose dependencies the run builds.
    pub package: PackageId,
    /// The arguments of the run.
    pub arguments: Vec<String>,
}

/// One run of the external compiler, in contracts.
pub struct InvocationView {
    pub package: Seq<char>,
    pub arguments: Seq<Seq<char>>,
}

impl View for Invocation {
    type V = InvocationView;

    open spec fn view(&self) -> InvocationView {
        InvocationView { package: self.package@, arguments: views(self.arguments@) }
    }
}

/// The identifiers of `ids` that are not among `excluded`, in their order.
pub open spec fn without(ids: Seq<Seq<char>>, excluded: Seq<Seq<char>>) -> Seq<Seq<char>>
    decreases ids.len(),
{
    if ids.len() == 0 {
        Seq::empty()
    } else if excluded.contains(ids.last()) {
        without(ids.drop_last(), excluded)
    } else {
        without(ids.drop_last(), excluded).push(ids.last())
    }
}

/// Those of `dependencies` that are members of the workspace, in their
/// order.
pub open spec fn member_dependencies(
    members: Seq<PackageView>,
    dependencies: Seq<Seq<char>>,
) -> Seq<Seq<char>>
    decreases dependencies.len(),
{
    if dependencies.len() == 0 {
        Seq::empty()
    } else if has_member(members, dependencies.last()) {
        member_dependencies(members, dependencies.drop_last()).push(dependencies.last())
    } else {
        member_dependencies(members, dependencies.drop_last())
    }
}

/// Those of `dependencies` that are no members of the workspace, in their
/// order.
pub open spec fn external_dependencies(
    members: Seq<PackageView>,
    dependencies: Seq<Seq<char>>,
) -> Seq<Seq<char>>
    decreases dependencies.len(),
{
    if dependencies.len() == 0 {
        Seq::empty()
    } else if has_member(members, dependencies.last()) {
        external_dependencies(members, dependencies.drop_last())
    } else {
        external_dependencies(members, dependencies.drop_last()).push(dependencies.last())
    }
}

/// The members that the package `id` depends on directly, and then the
/// package itself.
pub open spec fn with_dependencies(members: Seq<PackageView>, id: Seq<char>) -> Seq<Seq<char>> {
    match find_member(members, id) {
        Some(package) => member_dependencies(members, package.dependencies).push(id),
        None => seq![id],
    }
}

/// Each of the packages `ids` behind the members that it depends on
/// directly. The dependencies of those members are not followed.
pub open spec fn expanded(members: Seq<PackageView>, ids: Seq<Seq<char>>) -> Seq<Seq<char>>
    decreases ids.len(),
{
    if ids.len() == 0 {
        Seq::empty()
    } else {
        expanded(members, ids.drop_last()) + with_dependencies(members, ids.last())
    }
}

/// The identifiers of `ids`, each where it occurs first.
pub open spec fn first_occurrences(ids: Seq<Seq<char>>) -> Seq<Seq<char>>
    decreases ids.len(),
{
    if ids.len() == 0 {
        Seq::empty()
    } else if first_occurrences(ids.drop_last()).contains(ids.last()) {
        first_occurrences(ids.drop_last())
    } else {
        first_occurrences(ids.drop_last()).push(ids.last())
    }
}

/// The packages that are asked for: every member where all are asked for
/// or none is named, else the members that the specifications stand for.
pub open spec fn selected(members: Seq<PackageView>, requested: Seq<Seq<char>>, all: bool)
    -> Result<Seq<Seq<char>>, ErrorView> {
    if all || requested.len() == 0 {
        Ok(ids_of(members))
    } else {
        match resolve_specs(members, requested) {
            Ok(ids) => Ok(ids),
            Err(spec) => Err(ErrorView::SpecNotFound(spec)),
        }
    }
}

/// The packages to build: those asked for and not excluded, each behind
/// the members that it depends on directly, every package once.
///
/// Fails with the first specification that stands for no member, those of
/// `excluded` before those of `requested`, and where no package is left.
pub open spec fn packages_to_build(
    members: Seq<PackageView>,
    requested: Seq<Seq<char>>,
    excluded: Seq<Seq<char>>,
    all: bool,
) -> Result<Seq<Seq<char>>, ErrorView> {
    match resolve_specs(members, excluded) {
        Err(spec) => Err(ErrorView::SpecNotFound(spec)),
        Ok(left_out) => match selected(members, requested, all) {
            Err(error) => Err(error),
            Ok(chosen) => {
                let set = first_occurrences(expanded(members, without(chosen, left_out)));
                if set.len() == 0 {
                    Err(ErrorView::NothingToBuild)
                } else {
                    Ok(set)
                }
            },
        },
    }
}

/// `-p` before each of the identifiers.
pub open spec fn selectors(ids: Seq<Seq<char>>) -> Seq<Seq<char>>
    decreases ids.len(),
{
    if ids.len() == 0 {
        Seq::empty()
    } else {
        selectors(ids.drop_last()).push("-p"@).push(ids.last())
    }
}

/// The arguments of the run of the external compiler for a package with
/// the given dependencies: `build`, a selector for each dependency that is
/// no member of the workspace, and the arguments of the caller.
pub open spec fn arguments_for(
    members: Seq<PackageView>,
    dependencies: Seq<Seq<char>>,
    extra: Seq<Seq<char>>,
) -> Seq<Seq<char>> {
    seq!["build"@] + selectors(external_dependencies(members, dependencies)) + extra
}

/// The run of the external compiler for the member `id`.
pub open spec fn invocation(members: Seq<PackageView>, id: Seq<char>, extra: Seq<Seq<char>>)
    -> InvocationView {
    InvocationView {
        package: id,
        arguments: match find_member(members, id) {
            Some(package) => arguments_for(members, package.dependencies, extra),
            None => arguments_for(members, Seq::empty(), extra),
        },
    }
}

/// The runs of the external compiler for the packages `ids`, in their
/// order.
pub open spec fn invocations(
    members: Seq<PackageView>,
    ids: Seq<Seq<char>>,
    extra: Seq<Seq<char>>,
) -> Seq<InvocationView> {
    Seq::new(ids.len(), |i: int| invocation(members, ids[i], extra))
}

/// Nothing is left out where nothing is excluded.
pub proof fn lemma_without_nothing(ids: Seq<Seq<char>>)
    ensures
        without(ids, Seq::empty()) == ids,
    decreases ids.len(),
{
    if ids.len() == 0 {
        assert(without(ids, Seq::empty()) =~= ids);
    } else {
        lemma_without_nothing(ids.drop_last());
        assert(ids.drop_last().push(ids.last()) =~= ids);
    }
}

/// Nothing is left where everything is excluded.
pub proof fn lemma_without_all(ids: Seq<Seq<char>>, excluded: Seq<Seq<char>>)
    requires
        forall|i: int| 0 <= i < ids.len() ==> excluded.contains(#[trigger] ids[i]),
    ensures
        without(ids, excluded) == Seq::<Seq<char>>::empty(),
    decreases ids.len(),
{
    if ids.len() > 0 {
        assert(excluded.contains(ids[ids.len() - 1]));
        assert forall|i: int| 0 <= i < ids.drop_last().len() implies excluded.contains(
            #[trigger] ids.drop_last()[i],
        ) by {
            assert(ids.drop_last()[i] == ids[i]);
        }
        lemma_without_all(ids.drop_last(), excluded);
    }
}

/// The dependencies of a package that are members are members.
pub proof fn lemma_member_dependencies(
    members: Seq<PackageView>,
    dependencies: Seq<Seq<char>>,
    id: Seq<char>,
)
    requires
        member_dependencies(members, dependencies).contains(id),
    ensures
        has_member(members, id),
        dependencies.contains(id),
    decreases dependencies.len(),
{
    if dependencies.len() > 0 {
        let before = member_dependencies(members, dependencies.drop_last());
        if before.contains(id) {
            lemma_member_dependencies(members, dependencies.drop_last(), id);
            let i = choose|i: int|
                0 <= i < dependencies.drop_last().len() && dependencies.drop_last()[i] == id;
            assert(dependencies[i] == id);
        } else {
            let found = member_dependencies(members, dependencies);
            let i = choose|i: int| 0 <= i < found.len() && found[i] == id;
            if i < before.len() {
                assert(before[i] == id);
            }
            assert(dependencies[dependencies.len() - 1] == id);
        }
    }
}

/// What the expansion of `ids` holds: the packages of `ids`, and members
/// of the workspace.
pub proof fn lemma_expanded(members: Seq<PackageView>, ids: Seq<Seq<char>>, id: Seq<char>)
    ensures
        ids.contains(id) ==> expanded(members, ids).contains(id),
        expanded(members, ids).contains(id) ==> ids.contains(id) || has_member(members, id),
    decreases ids.len(),
{
    if ids.len() > 0 {
        let before = expanded(members, ids.drop_last());
        let more = with_dependencies(members, ids.last());
        let all = expanded(members, ids);
        lemma_expanded(members, ids.drop_last(), id);
        assert(more.last() == ids.last());
        if ids.contains(id) {
            let i = choose|i: int| 0 <= i < ids.len() && ids[i] == id;
            if i < ids.len() - 1 {
                assert(ids.drop_last()[i] == id);
                let k = choose|k: int| 0 <= k < before.len() && before[k] == id;
                assert(all[k] == id);
            } else {
                assert(all[all.len() - 1] == id);
            }
        }
        if all.contains(id) {
            let k = choose|k: int| 0 <= k < all.len() && all[k] == id;
            if k < before.len() {
                assert(before[k] == id);
                if ids.drop_last().contains(id) {
                    let i = choose|i: int| 0 <= i < ids.drop_last().len() && ids.drop_last()[i] == id;
                    assert(ids[i] == id);
                }
            } else {
                let m = k - before.len();
                assert(more[m] == id);
                if m == more.len() - 1 {
                    assert(ids[ids.len() - 1] == id);
                } else {
                    let package = find_member(members, ids.last())->Some_0;
                    let found = member_dependencies(members, package.dependencies);
                    assert(found[m] == id);
                    lemma_member_dependencies(members, package.dependencies, id);
                }
            }
        }
    }
}

/// Keeping the first occurrences loses no identifier and adds none.
pub proof fn lemma_first_occurrences(ids: Seq<Seq<char>>, id: Seq<char>)
    ensures
        first_occurrences(ids).contains(id) <==> ids.contains(id),
    decreases ids.len(),
{
    if ids.len() > 0 {
        let before = first_occurrences(ids.drop_last());
        let all = first_occurrences(ids);
        lemma_first_occurrences(ids.drop_last(), id);
        lemma_first_occurrences(ids.drop_last(), ids.last());
        if all.contains(id) {
            let k = choose|k: int| 0 <= k < all.len() && all[k] == id;
            if k < before.len() {
                assert(before[k] == id);
                let i = choose|i: int| 0 <= i < ids.drop_last().len() && ids.drop_last()[i] == id;
                assert(ids[i] == id);
            } else {
                assert(ids[ids.len() - 1] == id);
            }
        }
        if ids.contains(id) {
            let i = choose|i: int| 0 <= i < ids.len() && ids[i] == id;
            if i < ids.len() - 1 {
                assert(ids.drop_last()[i] == id);
                let k = choose|k: int| 0 <= k < before.len() && before[k] == id;
                assert(all[k] == id);
            } else if before.contains(id) {
            } else {
                assert(all[all.len() - 1] == id);
            }
        }
    }
}

/// Where all packages are asked for, or none is named, and none is
/// excluded, every member of the workspace is built and nothing else; the
/// selection fails only for a workspace without members, as empty.
pub proof fn lemma_build_all(members: Seq<PackageView>, requested: Seq<Seq<char>>, all: bool)
    requires
        all || requested.len() == 0,
    ensures
        match packages_to_build(members, requested, Seq::empty(), all) {
            Ok(ids) => members.len() > 0 && forall|id: Seq<char>|
                ids.contains(id) <==> has_member(members, id),
            Err(error) => members.len() == 0 && error == ErrorView::NothingToBuild,
        },
        packages_to_build(members, requested, Seq::empty(), all) == packages_to_build(
            members,
            Seq::empty(),
            Seq::empty(),
            true,
        ),
{
    let chosen = ids_of(members);
    lemma_without_nothing(chosen);
    let wide = expanded(members, chosen);
    let set = first_occurrences(wide);
    assert forall|id: Seq<char>| set.contains(id) <==> has_member(members, id) by {
        lemma_first_occurrences(wide, id);
        lemma_expanded(members, chosen, id);
    }
    if members.len() > 0 {
        assert(chosen[0] == members[0].id);
        assert(has_member(members, members[0].id));
        assert(set.contains(members[0].id));
    } else {
        assert(chosen =~= Seq::<Seq<char>>::empty());
    }
}

/// Where every package that is asked for is excluded, nothing is left to
/// build.
pub proof fn lemma_excluded_requests(
    members: Seq<PackageView>,
    requested: Seq<Seq<char>>,
    excluded: Seq<Seq<char>>,
    all: bool,
)
    requires
        resolve_specs(members, excluded) matches Ok(left_out) && selected(
            members,
            requested,
            all,
        ) matches Ok(chosen) && forall|i: int|
            0 <= i < chosen.len() ==> left_out.contains(#[trigger] chosen[i]),
    ensures
        packages_to_build(members, requested, excluded, all) == Err::<Seq<Seq<char>>, _>(
            ErrorView::NothingToBuild,
        ),
{
    let left_out = resolve_specs(members, excluded)->Ok_0;
    let chosen = selected(members, requested, all)->Ok_0;
    lemma_without_all(chosen, left_out);
}

/// Whether `id` is among `ids`.
fn holds(ids: &Vec<&PackageId>, id: &PackageId) -> (found: bool)
    ensures
        found == views(ids@).contains(id@),
{
    let mut i: usize = 0;
    while i < ids.len()
        invariant
            i <= ids@.len(),
            forall|j: int| 0 <= j < i ==> views(ids@)[j] != id@,
        decreases ids@.len() - i,
    {
        if *ids[i] == *id {
            assert(views(ids@)[i as int] == id@);
            return true;
        }
        i = i + 1;
    }
    false
}

/// The identifiers of all members, in the order of the workspace.
fn all_members(workspace: &Workspace) -> (ids: Vec<&PackageId>)
    ensures
        views(ids@) == ids_of(workspace@),
{
    let packages = workspace.packages();
    let mut ids: Vec<&PackageId> = Vec::new();
    let mut i: usize = 0;
    while i < packages.len()
        invariant
            i <= packages@.len(),
            ids@.len() == i,
            forall|j: int| 0 <= j < i ==> ids@[j]@ == packages@[j]@.id,
        decreases packages@.len() - i,
    {
        ids.push(&packages[i].id);
        i = i + 1;
    }
    assert(views(ids@) =~= ids_of(views(packages@)));
    ids
}

/// Adds `id` to `set`, unless it is there.
fn add_once<'a>(set: &mut Vec<&'a PackageId>, id: &'a PackageId)
    ensures
        views(final(set)@) == if views(old(set)@).contains(id@) {
            views(old(set)@)
        } else {
            views(old(set)@).push(id@)
        },
{
    if !holds(set, id) {
        proof {
            lemma_views_push(set@, id);
        }
        set.push(id);
    }
}

/// The packages to build: those asked for and not excluded, each behind
/// the members that it depends on directly, every package once.
pub fn build_set(workspace: &Workspace, options: &BuildOptions) -> (chosen: Result<
    Vec<PackageId>,
    SkeletonError,
>)
    ensures
        match chosen {
            Ok(ids) => packages_to_build(
                workspace@,
                views(options.packages@),
                views(options.exclude@),
                options.all,
            ) == Ok::<_, ErrorView>(views(ids@)),
            Err(error) => packages_to_build(
                workspace@,
                views(options.packages@),
                views(options.exclude@),
                options.all,
            ) == Err::<Seq<Seq<char>>, _>(error@),
        },
        chosen matches Ok(ids) ==> forall|i: int|
            0 <= i < ids@.len() ==> has_member(workspace@, #[trigger] ids@[i]@),
{
    let ghost members = workspace@;
    let left_out = match workspace.get_package_ids(options.exclude.as_slice()) {
        Ok(ids) => ids,
        Err(error) => {
            return Err(error);
        },
    };
    let chosen = if options.all || options.packages.len() == 0 {
        all_members(workspace)
    } else {
        match workspace.get_package_ids(options.packages.as_slice()) {
            Ok(ids) => ids,
            Err(error) => {
                return Err(error);
            },
        }
    };
    proof {
        assert forall|i: int| 0 <= i < chosen@.len() implies has_member(
            members,
            #[trigger] chosen@[i]@,
        ) by {
            if options.all || options.packages@.len() == 0 {
                assert(ids_of(members)[i] == chosen@[i]@);
            }
        }
    }
    let mut set: Vec<&PackageId> = Vec::new();
    let mut i: usize = 0;
    assert(views(chosen@).take(0) =~= Seq::<Seq<char>>::empty());
    assert(views(set@) =~= Seq::<Seq<char>>::empty());
    while i < chosen.len()
        invariant
            i <= chosen@.len(),
            members == workspace@,
            forall|j: int| 0 <= j < chosen@.len() ==> has_member(members, #[trigger] chosen@[j]@),
            forall|j: int|
                0 <= j < views(set@).len() ==> has_member(members, #[trigger] views(set@)[j]),
            views(set@) == first_occurrences(
                expanded(members, without(views(chosen@).take(i as int), views(left_out@))),
            ),
        decreases chosen@.len() - i,
    {
        let id = chosen[i];
        let ghost kept = without(views(chosen@).take(i as int), views(left_out@));
        assert(views(chosen@).take(i + 1).drop_last() =~= views(chosen@).take(i as int));
        assert(views(chosen@).take(i + 1).last() == id@);
        if !holds(&left_out, id) {
            assert(has_member(members, chosen@[i as int]@));
            match workspace.get_package(id) {
                None => {
                    assert(false);
                },
                Some(package) => {
                    let mut k: usize = 0;
                    let ghost before = expanded(members, kept);
                    let ghost dependencies = package@.dependencies;
                    assert(dependencies.take(0) =~= Seq::<Seq<char>>::empty());
                    assert(before + Seq::<Seq<char>>::empty() =~= before);
                    while k < package.dependencies.len()
                        invariant
                            k <= package.dependencies@.len(),
                            members == workspace@,
                            dependencies == views(package.dependencies@),
                            forall|j: int|
                                0 <= j < views(set@).len() ==> has_member(
                                    members,
                                    #[trigger] views(set@)[j],
                                ),
                            views(set@) == first_occurrences(
                                before + member_dependencies(members, dependencies.take(k as int)),
                            ),
                        decreases package.dependencies@.len() - k,
                    {
                        let dependency = &package.dependencies[k];
                        let ghost found = member_dependencies(
                            members,
                            dependencies.take(k as int),
                        );
                        assert(dependencies.take(k + 1).drop_last() =~= dependencies.take(
                            k as int,
                        ));
                        assert(dependencies.take(k + 1).last() == dependency@);
                        if workspace.is_member(dependency) {
                            assert((before + found.push(dependency@)).drop_last() =~= before
                                + found);
                            assert((before + found.push(dependency@)).last() == dependency@);
                            add_once(&mut set, dependency);
                        }
                        k = k + 1;
                    }
                    assert(dependencies.take(k as int) =~= dependencies);
                    let ghost found = member_dependencies(members, dependencies);
                    assert((before + found.push(id@)).drop_last() =~= before + found);
                    assert((before + found.push(id@)).last() == id@);
                    assert(with_dependencies(members, id@) == found.push(id@));
                    assert(kept.push(id@).drop_last() =~= kept);
                    assert(expanded(members, kept.push(id@)) == before + found.push(id@));
                    add_once(&mut set, id);
                },
            }
        }
        i = i + 1;
    }
    assert(views(chosen@).take(i as int) =~= views(chosen@));
    if set.len() == 0 {
        return Err(SkeletonError::NothingToBuild);
    }
    let mut ids: Vec<PackageId> = Vec::new();
    let mut n: usize = 0;
    while n < set.len()
        invariant
            n <= set@.len(),
            ids@.len() == n,
            forall|j: int| 0 <= j < n ==> ids@[j]@ == set@[j]@,
        decreases set@.len() - n,
    {
        ids.push(set[n].clone());
        n = n + 1;
    }
    assert(views(ids@) =~= views(set@));
    assert forall|j: int| 0 <= j < ids@.len() implies has_member(
        workspace@,
        #[trigger] ids@[j]@,
    ) by {
        assert(views(set@)[j] == ids@[j]@);
    }
    Ok(ids)
}

/// The arguments of the run of the external compiler for `package`:
/// `build`, a selector for each of its dependencies that is no member of
/// the workspace, and the arguments of the caller.
pub fn build_arguments(workspace: &Workspace, package: &Package, extra: &Vec<String>) -> (arguments:
    Vec<String>)
    ensures
        views(arguments@) == arguments_for(
            workspace@,
            package@.dependencies,
            views(extra@),
        ),
{
    let ghost members = workspace@;
    let ghost dependencies = package@.dependencies;
    let mut arguments: Vec<String> = Vec::new();
    arguments.push("build".to_owned());
    assert(views(arguments@) =~= seq!["build"@] + selectors(
        external_dependencies(members, dependencies.take(0)),
    )) by {
        assert(dependencies.take(0) =~= Seq::<Seq<char>>::empty());
    }
    let mut i: usize = 0;
    while i < package.dependencies.len()
        invariant
            i <= package.dependencies@.len(),
            members == workspace@,
            dependencies == views(package.dependencies@),
            views(arguments@) == seq!["build"@] + selectors(
                external_dependencies(members, dependencies.take(i as int)),
            ),
        decreases package.dependencies@.len() - i,
    {
        let dependency = &package.dependencies[i];
        let ghost before = views(arguments@);
        let ghost found = external_dependencies(members, dependencies.take(i as int));
        assert(dependencies.take(i + 1).drop_last() =~= dependencies.take(i as int));
        assert(dependencies.take(i + 1).last() == dependency@);
        if !workspace.is_member(dependency) {
            arguments.push("-p".to_owned());
            arguments.push(dependency.as_str().to_owned());
            assert(found.push(dependency@).drop_last() =~= found);
            assert(views(arguments@) =~= before.push("-p"@).push(dependency@));
            assert(views(arguments@) =~= seq!["build"@] + selectors(found.push(dependency@)));
        }
        i = i + 1;
    }
    assert(dependencies.take(i as int) =~= dependencies);
    let ghost chosen = views(arguments@);
    let mut k: usize = 0;
    assert(views(extra@).take(0) =~= Seq::<Seq<char>>::empty());
    assert(chosen + Seq::<Seq<char>>::empty() =~= chosen);
    while k < extra.len()
        invariant
            k <= extra@.len(),
            views(arguments@) == chosen + views(extra@).take(k as int),
        decreases extra@.len() - k,
    {
        let ghost before = views(arguments@);
        arguments.push(extra[k].clone());
        assert(views(arguments@) =~= before.push(extra@[k as int]@));
        assert(views(arguments@) =~= chosen + views(extra@).take(k + 1));
        k = k + 1;
    }
    assert(views(extra@).take(k as int) =~= views(extra@));
    arguments
}

/// The runs of the external compiler that build the dependencies of the
/// packages to build, one run for each package, in the order of
/// `build_set`.
pub fn plan_build(workspace: &Workspace, options: &BuildOptions) -> (plan: Result<
    Vec<Invocation>,
    SkeletonError,
>)
    ensures
        match plan {
            Ok(runs) => packages_to_build(
                workspace@,
                views(options.packages@),
                views(options.exclude@),
                options.all,
            ) matches Ok(ids) && views(runs@) == invocations(workspace@, ids, views(options.args@)),
            Err(error) => packages_to_build(
                workspace@,
                views(options.packages@),
                views(options.exclude@),
                options.all,
            ) == Err::<Seq<Seq<char>>, _>(error@),
        },
{
    let ids = match build_set(workspace, options) {
        Ok(ids) => ids,
        Err(error) => {
            return Err(error);
        },
    };
    let mut runs: Vec<Invocation> = Vec::new();
    let mut i: usize = 0;
    while i < ids.len()
        invariant
            i <= ids@.len(),
            runs@.len() == i,
            forall|j: int| 0 <= j < ids@.len() ==> has_member(workspace@, #[trigger] ids@[j]@),
            forall|j: int|
                0 <= j < i ==> #[trigger] runs@[j]@ == invocation(
                    workspace@,
                    ids@[j]@,
                    views(options.args@),
                ),
        decreases ids@.len() - i,
    {
        assert(has_member(workspace@, ids@[i as int]@));
        match workspace.get_package(&ids[i]) {
            None => {
                assert(false);
            },
            Some(package) => {
                let arguments = build_arguments(workspace, package, &options.args);
                runs.push(Invocation { package: ids[i].clone(), arguments });
            },
        }
        i = i + 1;
    }
    assert(views(runs@) =~= invocations(workspace@, views(ids@), views(options.args@)));
    Ok(runs)
}

/// What follows a run of the external compiler: the next run where it
/// succeeded, the end of the build where it failed.
pub fn after_run(succeeded: bool) -> (done: Result<(), SkeletonError>)
    ensures
        match done {
            Ok(_) => succeeded,
            Err(error) => !succeeded && error@ == ErrorView::ExternalProcessFailed,
        },
{
    if succeeded {
        Ok(())
    } else {
        Err(SkeletonError::ExternalProcessFailed)
    }
}

} // verus!
