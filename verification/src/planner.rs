//! Selection grouping and command-plan construction.

use std::cmp::Ordering;

use vstd::prelude::*;

use crate::adapters::{ManagerAdapter, package_verdict, SearchReplyView, validate_package_id};
use crate::adapters::lang::crates_io::lemma_usable_crates;
use crate::adapters::lang::node::npm::{entry_keys, lemma_entry_candidates};
use crate::adapters::registry::{
    Adapter, law_planned_variables_are_in_order, registered, Registry, takes_spec,
};
use crate::context::{ContextView, ProjectContext};
use crate::error::{Error, ErrorKind, ErrorView, failure, outcome, outcome_list, verdict};
use crate::host::{Host, HostView};
use crate::json::records_of;
use crate::model::{
    CommandSpec, CommandView, env_ordered, InstallPlan, InstanceView, ManagerInstance, ManagerKind, PlanView,
    Selection, SelectionView,
};
use crate::order::{compare_text, text_order};
use crate::text::{cat3, concat, concat_texts, distinct, has_text, list_of, same, views};

verus! {

broadcast use crate::text::group_views;

// ---------------------------------------------------------------------------
// Specifications
// ---------------------------------------------------------------------------

/// What a manager is told to install: the package, pinned to the version that was
/// found where the manager can be told of one.
pub open spec fn package_spec(selection: SelectionView) -> Seq<char> {
    match (selection.candidate.manager, selection.candidate.version) {
        (ManagerKind::Pip | ManagerKind::Uv, Some(version)) => selection.candidate.package + "=="@
            + version,
        (ManagerKind::Cargo | ManagerKind::Npm, Some(version)) => selection.candidate.package
            + "@"@ + version,
        _ => selection.candidate.package,
    }
}

pub fn resolved_spec(selection: &Selection) -> (r: String)
    ensures
        r@ == package_spec(selection@),
{
    match (selection.candidate.manager, &selection.candidate.version) {
        (ManagerKind::Pip | ManagerKind::Uv, Some(version)) => cat3(
            selection.candidate.package.as_str(),
            "==",
            version.as_str(),
        ),
        (ManagerKind::Cargo | ManagerKind::Npm, Some(version)) => cat3(
            selection.candidate.package.as_str(),
            "@",
            version.as_str(),
        ),
        _ => selection.candidate.package.clone(),
    }
}

// ---------------------------------------------------------------------------
// New targets
// ---------------------------------------------------------------------------

/// The instance that creates the target `id`, if one of `selections` makes one.
pub open spec fn creator(selections: Seq<SelectionView>, id: Seq<char>) -> Option<Seq<char>>
    decreases selections.len(),
{
    if selections.len() == 0 {
        None
    } else if !selections.last().target.exists && selections.last().target.id == id {
        Some(selections.last().candidate.manager_instance_id)
    } else {
        creator(selections.drop_last(), id)
    }
}

pub open spec fn shared_target(
    target: Seq<char>,
    previous: Seq<char>,
    instance: Seq<char>,
) -> ErrorView {
    failure(
        ErrorKind::SharedNewTarget,
        concat(
            seq![
                "new target "@,
                target,
                " cannot be created by multiple manager instances ("@,
                previous,
                " and "@,
                instance,
                ") in one plan"@,
            ],
        ),
    )
}

/// Refuses selections of which two have different instances create one target.
pub open spec fn ownership(selections: Seq<SelectionView>) -> Result<(), ErrorView>
    decreases selections.len(),
{
    if selections.len() == 0 {
        Ok(())
    } else {
        let last = selections.last();
        match ownership(selections.drop_last()) {
            Err(e) => Err(e),
            Ok(_) => if last.target.exists {
                Ok(())
            } else {
                match creator(selections.drop_last(), last.target.id) {
                    Some(previous) => if previous == last.candidate.manager_instance_id {
                        Ok(())
                    } else {
                        Err(
                            shared_target(
                                last.target.id,
                                previous,
                                last.candidate.manager_instance_id,
                            ),
                        )
                    },
                    None => Ok(()),
                }
            },
        }
    }
}

proof fn lemma_ownership_stops(selections: Seq<SelectionView>, n: int)
    requires
        0 <= n <= selections.len(),
        ownership(selections.take(n)) is Err,
    ensures
        ownership(selections) == ownership(selections.take(n)),
    decreases selections.len() - n,
{
    if n < selections.len() {
        assert(selections.take(n + 1).drop_last() =~= selections.take(n));
        lemma_ownership_stops(selections, n + 1);
    } else {
        assert(selections.take(n) =~= selections);
    }
}

/// The index of the last of the first `n` selections that creates the target `id`.
fn find_creator(selections: &Vec<Selection>, n: usize, id: &str) -> (r: Option<usize>)
    requires
        n <= selections@.len(),
    ensures
        match r {
            Some(k) => k < n && creator(views(selections@).take(n as int), id@) == Some(
                selections@[k as int]@.candidate.manager_instance_id,
            ),
            None => creator(views(selections@).take(n as int), id@) is None,
        },
{
    let ghost all = views(selections@);
    let mut k: usize = n;
    while k > 0
        invariant
            k <= n <= selections@.len(),
            all == views(selections@),
            creator(all.take(n as int), id@) == creator(all.take(k as int), id@),
        decreases k,
    {
        proof {
            assert(all.take(k as int).drop_last() =~= all.take(k - 1));
            assert(all.take(k as int).last() == selections@[k - 1]@);
        }
        k = k - 1;
        if !selections[k].target.exists && same(selections[k].target.id.as_str(), id) {
            return Some(k);
        }
    }
    None
}

pub fn validate_new_target_ownership(selections: &Vec<Selection>) -> (r: Result<(), Error>)
    ensures
        verdict(r) == ownership(views(selections@)),
{
    let ghost all = views(selections@);
    let n: usize = selections.len();
    for i in 0..n
        invariant
            n == selections@.len(),
            all == views(selections@),
            ownership(all.take(i as int)) == Ok::<(), ErrorView>(()),
    {
        proof {
            assert(all.take(i + 1).drop_last() =~= all.take(i as int));
            assert(all.take(i + 1).last() == selections@[i as int]@);
        }
        if !selections[i].target.exists {
            if let Some(k) = find_creator(selections, i, selections[i].target.id.as_str()) {
                let previous = selections[k].candidate.manager_instance_id.as_str();
                let instance_id = selections[i].candidate.manager_instance_id.as_str();
                if !same(previous, instance_id) {
                    let parts = list_of(
                        &[
                            "new target ",
                            selections[i].target.id.as_str(),
                            " cannot be created by multiple manager instances (",
                            previous,
                            " and ",
                            instance_id,
                            ") in one plan",
                        ],
                    );
                    proof {
                        assert(views(parts@) =~= seq![
                            "new target "@,
                            selections@[i as int]@.target.id,
                            " cannot be created by multiple manager instances ("@,
                            previous@,
                            " and "@,
                            instance_id@,
                            ") in one plan"@,
                        ]);
                        lemma_ownership_stops(all, i + 1);
                    }
                    return Err(
                        Error::new(ErrorKind::SharedNewTarget, concat_texts(&parts).as_str()),
                    );
                }
            }
        }
    }
    assert(all.take(n as int) =~= all);
    Ok(())
}

/// A plan that passes creates no target with two instances.
pub proof fn law_new_targets_have_one_creator(selections: Seq<SelectionView>, i: int, j: int)
    requires
        ownership(selections) is Ok,
        0 <= i < selections.len(),
        0 <= j < selections.len(),
        !selections[i].target.exists,
        !selections[j].target.exists,
        selections[i].target.id == selections[j].target.id,
    ensures
        selections[i].candidate.manager_instance_id == selections[j].candidate.manager_instance_id,
    decreases selections.len(),
{
    let rest = selections.drop_last();
    if i < rest.len() && j < rest.len() {
        law_new_targets_have_one_creator(rest, i, j);
    } else if i < rest.len() {
        lemma_creator(rest, i);
    } else if j < rest.len() {
        lemma_creator(rest, j);
    }
}

proof fn lemma_creator(selections: Seq<SelectionView>, i: int)
    requires
        ownership(selections) is Ok,
        0 <= i < selections.len(),
        !selections[i].target.exists,
    ensures
        creator(selections, selections[i].target.id) == Some(
            selections[i].candidate.manager_instance_id,
        ),
    decreases selections.len(),
{
    let rest = selections.drop_last();
    if i < rest.len() {
        assert(rest[i] == selections[i]);
        lemma_creator(rest, i);
    }
}

// ---------------------------------------------------------------------------
// Groups
// ---------------------------------------------------------------------------

/// The selections that one instance installs into one target.
#[derive(Debug)]
pub struct Group {
    pub instance_id: String,
    pub target_id: String,
    pub selections: Vec<Selection>,
}

#[verifier::ext_equal]
pub struct GroupView {
    pub instance_id: Seq<char>,
    pub target_id: Seq<char>,
    pub selections: Seq<SelectionView>,
}

impl View for Group {
    type V = GroupView;

    open spec fn view(&self) -> GroupView {
        GroupView {
            instance_id: self.instance_id@,
            target_id: self.target_id@,
            selections: views(self.selections@),
        }
    }
}

/// The order of groups: by the instance, then by the target.
pub open spec fn group_order(
    instance: Seq<char>,
    target: Seq<char>,
    other_instance: Seq<char>,
    other_target: Seq<char>,
) -> Ordering {
    match text_order(instance, other_instance) {
        Ordering::Equal => text_order(target, other_target),
        order => order,
    }
}

pub open spec fn group_of_one(selection: SelectionView) -> GroupView {
    GroupView {
        instance_id: selection.candidate.manager_instance_id,
        target_id: selection.target.id,
        selections: seq![selection],
    }
}

/// `groups` with `selection` at the end of its group, which is made in its place if
/// it is not there.
pub open spec fn with_selection(groups: Seq<GroupView>, selection: SelectionView) -> Seq<GroupView>
    decreases groups.len(),
{
    if groups.len() == 0 {
        seq![group_of_one(selection)]
    } else {
        match group_order(
            selection.candidate.manager_instance_id,
            selection.target.id,
            groups[0].instance_id,
            groups[0].target_id,
        ) {
            Ordering::Less => seq![group_of_one(selection)] + groups,
            Ordering::Equal => seq![
                GroupView { selections: groups[0].selections.push(selection), ..groups[0] },
            ] + groups.drop_first(),
            Ordering::Greater => seq![groups[0]] + with_selection(groups.drop_first(), selection),
        }
    }
}

/// The groups of `selections`, in order.
pub open spec fn grouped(selections: Seq<SelectionView>) -> Seq<GroupView>
    decreases selections.len(),
{
    if selections.len() == 0 {
        Seq::empty()
    } else {
        with_selection(grouped(selections.drop_last()), selections.last())
    }
}

fn compare_group(selection: &Selection, group: &Group) -> (r: Ordering)
    ensures
        r == group_order(
            selection@.candidate.manager_instance_id,
            selection@.target.id,
            group@.instance_id,
            group@.target_id,
        ),
{
    match compare_text(
        selection.candidate.manager_instance_id.as_str(),
        group.instance_id.as_str(),
    ) {
        Ordering::Equal => compare_text(selection.target.id.as_str(), group.target_id.as_str()),
        order => order,
    }
}

fn make_group(selection: &Selection) -> (r: Group)
    ensures
        r@ == group_of_one(selection@),
{
    let mut selections: Vec<Selection> = Vec::new();
    selections.push(selection.clone());
    assert(views(selections@) =~= seq![selection@]);
    Group {
        instance_id: selection.candidate.manager_instance_id.clone(),
        target_id: selection.target.id.clone(),
        selections,
    }
}

fn add_selection(groups: &mut Vec<Group>, selection: &Selection)
    ensures
        views(final(groups)@) == with_selection(views(old(groups)@), selection@),
{
    let ghost all = views(groups@);
    let n: usize = groups.len();
    let mut i: usize = 0;
    assert(all.take(0) + with_selection(all.skip(0), selection@) =~= with_selection(
        all,
        selection@,
    )) by {
        assert(all.skip(0) =~= all);
    }
    while i < n
        invariant
            n == groups@.len(),
            all == views(groups@),
            all == views(old(groups)@),
            i <= n,
            all.take(i + 0) + with_selection(all.skip(i + 0), selection@) == with_selection(
                all,
                selection@,
            ),
        decreases n - i,
    {
        let ghost rest = all.skip(i + 0);
        assert(rest[0] == groups@[i + 0]@);
        match compare_group(selection, &groups[i]) {
            Ordering::Less => {
                let group = make_group(selection);
                groups.insert(i, group);
                assert(views(groups@) =~= all.take(i + 0) + (seq![group@] + rest));
                return ;
            },
            Ordering::Equal => {
                let mut selections = crate::text::clone_list(&groups[i].selections);
                selections.push(selection.clone());
                let group = Group {
                    instance_id: groups[i].instance_id.clone(),
                    target_id: groups[i].target_id.clone(),
                    selections,
                };
                assert(group@ =~= GroupView {
                    selections: rest[0].selections.push(selection@),
                    ..rest[0]
                });
                groups.set(i, group);
                assert(views(groups@) =~= all.take(i + 0) + (seq![group@] + rest.drop_first()));
                return ;
            },
            Ordering::Greater => {
                assert(all.skip(i + 1) =~= rest.drop_first());
                assert(all.take(i + 1) + with_selection(all.skip(i + 1), selection@) =~= all.take(
                    i + 0,
                ) + (seq![rest[0]] + with_selection(rest.drop_first(), selection@)));
                i = i + 1;
            },
        }
    }
    let group = make_group(selection);
    groups.push(group);
    assert(all.skip(i + 0) =~= Seq::<GroupView>::empty());
    assert(views(groups@) =~= all.take(i + 0) + seq![group@]);
}

fn group_selections(selections: &Vec<Selection>) -> (r: Vec<Group>)
    ensures
        views(r@) == grouped(views(selections@)),
{
    let ghost all = views(selections@);
    let mut r: Vec<Group> = Vec::new();
    let n: usize = selections.len();
    assert(views(r@) =~= grouped(all.take(0)));
    for i in 0..n
        invariant
            n == selections@.len(),
            all == views(selections@),
            views(r@) == grouped(all.take(i as int)),
    {
        proof {
            assert(all.take(i + 1).drop_last() =~= all.take(i as int));
            assert(all.take(i + 1).last() == selections@[i as int]@);
        }
        add_selection(&mut r, &selections[i]);
    }
    assert(all.take(n as int) =~= all);
    r
}

// ---------------------------------------------------------------------------
// Steps
// ---------------------------------------------------------------------------

/// The first instance with this id.
pub open spec fn find_instance(instances: Seq<InstanceView>, id: Seq<char>) -> Option<InstanceView>
    decreases instances.len(),
{
    if instances.len() == 0 {
        None
    } else if instances[0].id == id {
        Some(instances[0])
    } else {
        find_instance(instances.drop_first(), id)
    }
}

/// The first instance with this id.
pub fn instance_with_id<'a>(instances: &'a Vec<ManagerInstance>, id: &str) -> (r: Option<
    &'a ManagerInstance,
>)
    ensures
        match r {
            Some(instance) => find_instance(views(instances@), id@) == Some(instance@),
            None => find_instance(views(instances@), id@) is None,
        },
{
    let ghost all = views(instances@);
    let n: usize = instances.len();
    let mut i: usize = 0;
    assert(all.skip(0) =~= all);
    while i < n
        invariant
            n == instances@.len(),
            all == views(instances@),
            i <= n,
            find_instance(all, id@) == find_instance(all.skip(i as int), id@),
        decreases n - i,
    {
        assert(all.skip(i as int)[0] == instances@[i as int]@);
        assert(all.skip(i as int).drop_first() =~= all.skip(i + 1));
        if same(instances[i].id.as_str(), id) {
            return Some(&instances[i]);
        }
        i = i + 1;
    }
    None
}

/// What a group installs, each thing once.
pub open spec fn group_packages(selections: Seq<SelectionView>) -> Seq<Seq<char>> {
    distinct(selections.map_values(|selection: SelectionView| package_spec(selection)))
}

/// What is wrong with the first package that something is wrong with.
pub open spec fn packages_verdict(packages: Seq<Seq<char>>) -> Result<(), ErrorView>
    decreases packages.len(),
{
    if packages.len() == 0 {
        Ok(())
    } else {
        match packages_verdict(packages.drop_last()) {
            Err(e) => Err(e),
            Ok(_) => package_verdict(packages.last()),
        }
    }
}

/// What a plan is made with.
pub struct Setting {
    pub host: HostView,
    pub adapters: Seq<Adapter>,
    pub instances: Seq<InstanceView>,
    pub context: ContextView,
}

/// The steps that install a group.
pub open spec fn group_steps(setting: Setting, group: GroupView) -> Result<
    Seq<CommandView>,
    ErrorView,
> {
    match find_instance(setting.instances, group.instance_id) {
        None => Err(
            failure(
                ErrorKind::InstanceMissing,
                "manager instance "@ + group.instance_id + " disappeared"@,
            ),
        ),
        Some(instance) => match registered(setting.adapters, instance.kind) {
            Err(e) => Err(e),
            Ok(adapter) => match packages_verdict(group_packages(group.selections)) {
                Err(e) => Err(e),
                Ok(_) => adapter.plans(
                    setting.host,
                    instance,
                    group_packages(group.selections),
                    group.selections[0].target,
                    setting.context,
                ),
            },
        },
    }
}

/// The steps that install all groups.
pub open spec fn all_steps(setting: Setting, groups: Seq<GroupView>) -> Result<
    Seq<CommandView>,
    ErrorView,
>
    decreases groups.len(),
{
    if groups.len() == 0 {
        Ok(Seq::empty())
    } else {
        match all_steps(setting, groups.drop_last()) {
            Err(e) => Err(e),
            Ok(before) => match group_steps(setting, groups.last()) {
                Err(e) => Err(e),
                Ok(steps) => Ok(before + steps),
            },
        }
    }
}

/// The plan that installs `selections`.
pub open spec fn plan_of(setting: Setting, selections: Seq<SelectionView>) -> Result<
    PlanView,
    ErrorView,
> {
    match ownership(selections) {
        Err(e) => Err(e),
        Ok(_) => match all_steps(setting, grouped(selections)) {
            Err(e) => Err(e),
            Ok(steps) => Ok(PlanView { selections, steps }),
        },
    }
}

proof fn lemma_all_steps_stop(setting: Setting, groups: Seq<GroupView>, n: int)
    requires
        0 <= n <= groups.len(),
        all_steps(setting, groups.take(n)) is Err,
    ensures
        all_steps(setting, groups) == all_steps(setting, groups.take(n)),
    decreases groups.len() - n,
{
    if n < groups.len() {
        assert(groups.take(n + 1).drop_last() =~= groups.take(n));
        lemma_all_steps_stop(setting, groups, n + 1);
    } else {
        assert(groups.take(n) =~= groups);
    }
}

proof fn lemma_packages_verdict_stops(packages: Seq<Seq<char>>, n: int)
    requires
        0 <= n <= packages.len(),
        packages_verdict(packages.take(n)) is Err,
    ensures
        packages_verdict(packages) == packages_verdict(packages.take(n)),
    decreases packages.len() - n,
{
    if n < packages.len() {
        assert(packages.take(n + 1).drop_last() =~= packages.take(n));
        lemma_packages_verdict_stops(packages, n + 1);
    } else {
        assert(packages.take(n) =~= packages);
    }
}

fn validate_packages(packages: &Vec<String>) -> (r: Result<(), Error>)
    ensures
        verdict(r) == packages_verdict(views(packages@)),
{
    let ghost all = views(packages@);
    let n: usize = packages.len();
    for i in 0..n
        invariant
            n == packages@.len(),
            all == views(packages@),
            packages_verdict(all.take(i as int)) == Ok::<(), ErrorView>(()),
    {
        proof {
            assert(all.take(i + 1).drop_last() =~= all.take(i as int));
            assert(all.take(i + 1).last() == packages@[i as int]@);
        }
        match validate_package_id(packages[i].as_str()) {
            Ok(_) => {},
            Err(e) => {
                proof {
                    lemma_packages_verdict_stops(all, i + 1);
                }
                return Err(e);
            },
        }
    }
    assert(all.take(n as int) =~= all);
    Ok(())
}

fn packages_of(selections: &Vec<Selection>) -> (r: Vec<String>)
    ensures
        views(r@) == group_packages(views(selections@)),
{
    let ghost all = views(selections@).map_values(
        |selection: SelectionView| package_spec(selection),
    );
    let mut r: Vec<String> = Vec::new();
    let n: usize = selections.len();
    assert(views(r@) =~= distinct(all.take(0)));
    for i in 0..n
        invariant
            n == selections@.len(),
            all == views(selections@).map_values(
                |selection: SelectionView| package_spec(selection),
            ),
            views(r@) == distinct(all.take(i as int)),
    {
        let package = resolved_spec(&selections[i]);
        proof {
            assert(all.take(i + 1).drop_last() =~= all.take(i as int));
            assert(all.take(i + 1).last() == package@);
        }
        if !has_text(&r, package.as_str()) {
            r.push(package);
        }
    }
    assert(all.take(n as int) =~= all);
    r
}

/// Whether a group holds a selection, as every group does.
pub open spec fn filled(groups: Seq<GroupView>) -> bool {
    forall|i: int| 0 <= i < groups.len() ==> (#[trigger] groups[i]).selections.len() > 0
}

proof fn lemma_with_selection_filled(groups: Seq<GroupView>, selection: SelectionView)
    requires
        filled(groups),
    ensures
        filled(with_selection(groups, selection)),
    decreases groups.len(),
{
    if groups.len() > 0 {
        let rest = groups.drop_first();
        assert(filled(rest)) by {
            assert forall|i: int| 0 <= i < rest.len() implies (
            #[trigger] rest[i]).selections.len() > 0 by {
                assert(rest[i] == groups[i + 1]);
            }
        }
        lemma_with_selection_filled(rest, selection);
        let r = with_selection(groups, selection);
        let q = with_selection(rest, selection);
        assert forall|i: int| 0 <= i < r.len() implies (#[trigger] r[i]).selections.len() > 0 by {
            match group_order(
                selection.candidate.manager_instance_id,
                selection.target.id,
                groups[0].instance_id,
                groups[0].target_id,
            ) {
                Ordering::Less => {
                    if i > 0 {
                        assert(r[i] == groups[i - 1]);
                    }
                },
                Ordering::Equal => {
                    if i > 0 {
                        assert(r[i] == rest[i - 1]);
                    }
                },
                Ordering::Greater => {
                    if i > 0 {
                        assert(r[i] == q[i - 1]);
                    } else {
                        assert(r[0] == groups[0]);
                    }
                },
            }
        }
    }
}

proof fn lemma_grouped_filled(selections: Seq<SelectionView>)
    ensures
        filled(grouped(selections)),
    decreases selections.len(),
{
    if selections.len() > 0 {
        lemma_grouped_filled(selections.drop_last());
        lemma_with_selection_filled(grouped(selections.drop_last()), selections.last());
    }
}

fn plan_group(
    registry: &Registry,
    host: &Host,
    instances: &Vec<ManagerInstance>,
    group: &Group,
    context: &ProjectContext,
) -> (r: Result<Vec<CommandSpec>, Error>)
    requires
        group.selections@.len() > 0,
    ensures
        outcome_list(r) == group_steps(
            Setting {
                host: host@,
                adapters: registry@,
                instances: views(instances@),
                context: context@,
            },
            group@,
        ),
{
    let instance = match instance_with_id(instances, group.instance_id.as_str()) {
        Some(instance) => instance,
        None => {
            return Err(
                Error::new(
                    ErrorKind::InstanceMissing,
                    cat3("manager instance ", group.instance_id.as_str(), " disappeared").as_str(),
                ),
            );
        },
    };
    let adapter = match registry.adapter(instance.kind) {
        Ok(adapter) => adapter,
        Err(e) => {
            return Err(e);
        },
    };
    let packages = packages_of(&group.selections);
    match validate_packages(&packages) {
        Ok(_) => {},
        Err(e) => {
            return Err(e);
        },
    }
    assert(group@.selections[0] == group.selections@[0]@);
    adapter.plan(host, instance, &packages, &group.selections[0].target, context)
}

fn append_steps(list: &mut Vec<CommandSpec>, more: &Vec<CommandSpec>)
    ensures
        views(final(list)@) == views(old(list)@) + views(more@),
{
    let ghost start = views(list@);
    let ghost all = views(more@);
    let n: usize = more.len();
    assert(views(list@) =~= start + all.take(0));
    for i in 0..n
        invariant
            n == more@.len(),
            all == views(more@),
            views(list@) == start + all.take(i as int),
    {
        list.push(more[i].clone());
        assert(views(list@) =~= start + all.take(i + 1));
    }
    assert(all.take(n as int) =~= all);
}

pub fn build_plan(
    registry: &Registry,
    host: &Host,
    instances: &Vec<ManagerInstance>,
    selections: Vec<Selection>,
    context: &ProjectContext,
) -> (r: Result<InstallPlan, Error>)
    ensures
        outcome(r) == plan_of(
            Setting {
                host: host@,
                adapters: registry@,
                instances: views(instances@),
                context: context@,
            },
            views(selections@),
        ),
{
    let ghost setting = Setting {
        host: host@,
        adapters: registry@,
        instances: views(instances@),
        context: context@,
    };
    match validate_new_target_ownership(&selections) {
        Ok(_) => {},
        Err(e) => {
            return Err(e);
        },
    }
    let groups = group_selections(&selections);
    let ghost all = views(groups@);
    proof {
        lemma_grouped_filled(views(selections@));
    }
    let mut steps: Vec<CommandSpec> = Vec::new();
    let n: usize = groups.len();
    for i in 0..n
        invariant
            n == groups@.len(),
            all == views(groups@),
            all == grouped(views(selections@)),
            filled(all),
            ownership(views(selections@)) is Ok,
            setting == (Setting {
                host: host@,
                adapters: registry@,
                instances: views(instances@),
                context: context@,
            }),
            all_steps(setting, all.take(i as int)) == Ok::<Seq<CommandView>, ErrorView>(
                views(steps@),
            ),
    {
        proof {
            assert(all.take(i + 1).drop_last() =~= all.take(i as int));
            assert(all.take(i + 1).last() == groups@[i as int]@);
            assert(all[i as int].selections.len() > 0);
        }
        match plan_group(registry, host, instances, &groups[i], context) {
            Ok(more) => {
                append_steps(&mut steps, &more);
            },
            Err(e) => {
                proof {
                    lemma_all_steps_stop(setting, all, i + 1);
                }
                return Err(e);
            },
        }
    }
    assert(all.take(n as int) =~= all);
    Ok(InstallPlan { selections, steps })
}

// ---------------------------------------------------------------------------
// Laws
// ---------------------------------------------------------------------------

/// Whether one of `groups` is the one of `selection` and holds it.
pub open spec fn holds(groups: Seq<GroupView>, selection: SelectionView) -> bool {
    exists|g: int|
        0 <= g < groups.len() && (#[trigger] groups[g]).instance_id
            == selection.candidate.manager_instance_id && groups[g].target_id
            == selection.target.id && groups[g].selections.contains(selection)
}

proof fn lemma_with_selection_holds(
    groups: Seq<GroupView>,
    selection: SelectionView,
    other: SelectionView,
)
    requires
        other == selection || holds(groups, other),
    ensures
        holds(with_selection(groups, selection), other),
    decreases groups.len(),
{
    let r = with_selection(groups, selection);
    if groups.len() == 0 {
        assert(r[0].selections[0] == selection);
    } else {
        let rest = groups.drop_first();
        crate::order::lemma_text_order(
            selection.candidate.manager_instance_id,
            groups[0].instance_id,
        );
        crate::order::lemma_text_order(selection.target.id, groups[0].target_id);
        match group_order(
            selection.candidate.manager_instance_id,
            selection.target.id,
            groups[0].instance_id,
            groups[0].target_id,
        ) {
            Ordering::Less => {
                if other == selection {
                    assert(r[0].selections[0] == selection);
                } else {
                    let g = choose|g: int|
                        0 <= g < groups.len() && (#[trigger] groups[g]).instance_id
                            == other.candidate.manager_instance_id && groups[g].target_id
                            == other.target.id && groups[g].selections.contains(other);
                    assert(r[g + 1] == groups[g]);
                }
            },
            Ordering::Equal => {
                if other == selection {
                    assert(r[0].selections[groups[0].selections.len() + 0int] == selection);
                } else {
                    let g = choose|g: int|
                        0 <= g < groups.len() && (#[trigger] groups[g]).instance_id
                            == other.candidate.manager_instance_id && groups[g].target_id
                            == other.target.id && groups[g].selections.contains(other);
                    if g == 0 {
                        let k = choose|k: int|
                            0 <= k < groups[0].selections.len() && groups[0].selections[k] == other;
                        assert(r[0].selections[k] == other);
                    } else {
                        assert(r[g] == groups[g]);
                    }
                }
            },
            Ordering::Greater => {
                if other != selection {
                    let g = choose|g: int|
                        0 <= g < groups.len() && (#[trigger] groups[g]).instance_id
                            == other.candidate.manager_instance_id && groups[g].target_id
                            == other.target.id && groups[g].selections.contains(other);
                    if g == 0 {
                        assert(r[0] == groups[0]);
                    } else {
                        assert(rest[g - 1] == groups[g]);
                        lemma_with_selection_holds(rest, selection, other);
                    }
                } else {
                    lemma_with_selection_holds(rest, selection, other);
                }
                let q = with_selection(rest, selection);
                if holds(q, other) {
                    let g = choose|g: int|
                        0 <= g < q.len() && (#[trigger] q[g]).instance_id
                            == other.candidate.manager_instance_id && q[g].target_id
                            == other.target.id && q[g].selections.contains(other);
                    assert(r[g + 1] == q[g]);
                }
            },
        }
    }
}

/// Every selection is in the group of its instance and target.
pub proof fn law_grouping_loses_nothing(selections: Seq<SelectionView>, i: int)
    requires
        0 <= i < selections.len(),
    ensures
        holds(grouped(selections), selections[i]),
    decreases selections.len(),
{
    let rest = selections.drop_last();
    if i < rest.len() {
        assert(rest[i] == selections[i]);
        law_grouping_loses_nothing(rest, i);
    }
    lemma_with_selection_holds(grouped(rest), selections.last(), selections[i]);
}

proof fn lemma_group_in_plan(setting: Setting, groups: Seq<GroupView>, g: int)
    requires
        all_steps(setting, groups) is Ok,
        0 <= g < groups.len(),
    ensures
        group_steps(setting, groups[g]) is Ok,
        forall|k: int|
            0 <= k < group_steps(setting, groups[g])->Ok_0.len() ==> all_steps(
                setting,
                groups,
            )->Ok_0.contains(#[trigger] group_steps(setting, groups[g])->Ok_0[k]),
    decreases groups.len(),
{
    let rest = groups.drop_last();
    let all = all_steps(setting, groups)->Ok_0;
    let before = all_steps(setting, rest)->Ok_0;
    if g < rest.len() {
        assert(rest[g] == groups[g]);
        lemma_group_in_plan(setting, rest, g);
        let steps = group_steps(setting, groups[g])->Ok_0;
        assert forall|k: int| 0 <= k < steps.len() implies all.contains(#[trigger] steps[k]) by {
            assert(before.contains(steps[k]));
            let m = choose|m: int| 0 <= m < before.len() && before[m] == steps[k];
            assert(all[m] == steps[k]);
        }
    } else {
        let steps = group_steps(setting, groups[g])->Ok_0;
        assert forall|k: int| 0 <= k < steps.len() implies all.contains(#[trigger] steps[k]) by {
            assert(all[before.len() + k] == steps[k]);
        }
    }
}

/// Each step of a plan names the variables that it sets once and in order.
pub proof fn law_steps_set_variables_in_order(setting: Setting, selections: Seq<SelectionView>)
    ensures
        plan_of(setting, selections) matches Ok(plan) ==> forall|k: int|
            0 <= k < plan.steps.len() ==> env_ordered((#[trigger] plan.steps[k]).env),
{
    lemma_steps_set_variables_in_order(setting, grouped(selections));
}

proof fn lemma_steps_set_variables_in_order(setting: Setting, groups: Seq<GroupView>)
    ensures
        all_steps(setting, groups) matches Ok(steps) ==> forall|k: int|
            0 <= k < steps.len() ==> env_ordered((#[trigger] steps[k]).env),
    decreases groups.len(),
{
    if groups.len() > 0 {
        lemma_steps_set_variables_in_order(setting, groups.drop_last());
        let group = groups.last();
        if let Some(instance) = find_instance(setting.instances, group.instance_id) {
            if let Ok(adapter) = registered(setting.adapters, instance.kind) {
                law_planned_variables_are_in_order(
                    adapter,
                    setting.host,
                    instance,
                    group_packages(group.selections),
                    group.selections[0].target,
                    setting.context,
                );
            }
        }
    }
}

proof fn lemma_packages_verdict(packages: Seq<Seq<char>>, package: Seq<char>)
    requires
        packages_verdict(packages) is Ok,
        packages.contains(package),
    ensures
        package_verdict(package) is Ok,
    decreases packages.len(),
{
    let rest = packages.drop_last();
    let k = choose|k: int| 0 <= k < packages.len() && packages[k] == package;
    if k < rest.len() {
        assert(rest[k] == package);
        lemma_packages_verdict(rest, package);
    }
}

/// Whether some step of a plan runs `program` with `arg`.
pub open spec fn some_step_runs(
    steps: Seq<CommandView>,
    program: crate::path::PathView,
    arg: Seq<char>,
) -> bool {
    exists|k: int|
        0 <= k < steps.len() && (#[trigger] steps[k]).program == program && steps[k].args.contains(
            arg,
        )
}

/// A plan installs everything that was selected: for each selection the executable
/// of its instance is told of the package, as pinned as it can be; and no package
/// in it is blank, looks like an option or holds a control character.
pub proof fn law_plan_installs_every_selection(
    setting: Setting,
    selections: Seq<SelectionView>,
    i: int,
)
    requires
        plan_of(setting, selections) is Ok,
        0 <= i < selections.len(),
    ensures
        find_instance(
            setting.instances,
            selections[i].candidate.manager_instance_id,
        ) matches Some(instance) && some_step_runs(
            plan_of(setting, selections)->Ok_0.steps,
            instance.executable,
            package_spec(selections[i]),
        ),
        package_verdict(package_spec(selections[i])) is Ok,
{
    let groups = grouped(selections);
    let selection = selections[i];
    law_grouping_loses_nothing(selections, i);
    let g = choose|g: int|
        0 <= g < groups.len() && (#[trigger] groups[g]).instance_id
            == selection.candidate.manager_instance_id && groups[g].target_id
            == selection.target.id && groups[g].selections.contains(selection);
    let group = groups[g];
    lemma_group_in_plan(setting, groups, g);
    let steps = group_steps(setting, group)->Ok_0;
    let all = all_steps(setting, groups)->Ok_0;
    let specs = group.selections.map_values(|s: SelectionView| package_spec(s));
    let packages = group_packages(group.selections);
    let package = package_spec(selection);
    let k = choose|k: int| 0 <= k < group.selections.len() && group.selections[k] == selection;
    assert(specs[k] == package);
    assert(specs =~= group.selections.map_values(
        |selection: SelectionView| package_spec(selection),
    ));
    crate::text::lemma_distinct(specs);
    assert(packages.contains(package));
    lemma_packages_verdict(packages, package);
    let instance = find_instance(setting.instances, group.instance_id)->0;
    let adapter = registered(setting.adapters, instance.kind)->Ok_0;
    crate::adapters::registry::law_plans_install_all_packages(
        adapter,
        setting.host,
        instance,
        packages,
        group.selections[0].target,
        setting.context,
    );
    let m = choose|m: int| 0 <= m < packages.len() && packages[m] == package;
    assert(crate::adapters::registry::some_step_has(steps, packages[m]));
    let s = choose|s: int| 0 <= s < steps.len() && (#[trigger] steps[s]).args.contains(package);
    assert(all.contains(steps[s]));
    let n = choose|n: int| 0 <= n < all.len() && all[n] == steps[s];
    assert(all[n].program == instance.executable && all[n].args.contains(package));
}

/// What a search of a language's manager finds has a version, and a plan pins the
/// package to it.
pub proof fn law_found_packages_are_pinned(
    adapter: Adapter,
    instance: InstanceView,
    query: Seq<char>,
    reply: SearchReplyView,
    selection: SelectionView,
)
    requires
        adapter is Cargo || adapter is Npm || adapter is Pip || adapter is Uv,
        adapter.finds(instance, query, reply) matches Ok(found) && found.contains(
            selection.candidate,
        ),
    ensures
        selection.candidate.manager == adapter.manager(),
        selection.candidate.version matches Some(version) && package_spec(selection)
            == selection.candidate.package + (if adapter is Cargo || adapter is Npm {
            "@"@
        } else {
            "=="@
        }) + version,
{
    let found = adapter.finds(instance, query, reply)->Ok_0;
    let k = choose|k: int| 0 <= k < found.len() && found[k] == selection.candidate;
    if adapter is Npm {
        let records = records_of(reply->Output_0.stdout, entry_keys());
        lemma_entry_candidates(records->Ok_0->0, query, instance.id, k);
    }
}

/// What a search of Cargo or npm finds can be planned: the specification that a plan
/// makes of it is one that the manager takes.
pub proof fn law_found_packages_can_be_planned(
    adapter: Adapter,
    instance: InstanceView,
    query: Seq<char>,
    reply: SearchReplyView,
    selection: SelectionView,
)
    requires
        adapter.manager() == ManagerKind::Cargo || adapter.manager() == ManagerKind::Npm,
        adapter.finds(instance, query, reply) matches Ok(found) && found.contains(
            selection.candidate,
        ),
    ensures
        package_verdict(package_spec(selection)) is Ok,
        takes_spec(adapter.manager(), package_spec(selection)),
{
    let found = adapter.finds(instance, query, reply)->Ok_0;
    let k = choose|k: int| 0 <= k < found.len() && found[k] == selection.candidate;
    match reply {
        SearchReplyView::Crates(entries) => {
            lemma_usable_crates(entries, k);
            crate::adapters::lang::cargo::lemma_pinned_spec(
                selection.candidate.package,
                selection.candidate.version->0,
            );
        },
        SearchReplyView::Output(output) => {
            let records = records_of(output.stdout, entry_keys());
            lemma_entry_candidates(records->Ok_0->0, query, instance.id, k);
            crate::adapters::lang::node::npm::lemma_pinned_spec(
                selection.candidate.package,
                selection.candidate.version->0,
            );
        },
        _ => {},
    }
}

/// What a manager is told to install: the package with its version behind `==` for the
/// managers of Python, and behind `@` for Cargo and npm; the bare package for others, or
/// if no version was found.
pub proof fn law_packages_are_pinned_by_manager(selection: SelectionView)
    ensures
        ({
            let c = selection.candidate;
            &&& c.version is None ==> package_spec(selection) == c.package
            &&& c.manager == ManagerKind::Apt || c.manager == ManagerKind::Pacman || c.manager
                == ManagerKind::Brew || c.manager == ManagerKind::Npx ==> package_spec(selection)
                == c.package
            &&& (c.manager == ManagerKind::Pip || c.manager == ManagerKind::Uv) && c.version is Some
                ==> package_spec(selection) == c.package + seq!['=', '='] + c.version->0
            &&& (c.manager == ManagerKind::Cargo || c.manager == ManagerKind::Npm)
                && c.version is Some ==> package_spec(selection) == c.package + seq!['@']
                + c.version->0
        }),
{
    reveal_strlit("==");
    reveal_strlit("@");
    assert("=="@ =~= seq!['=', '=']);
    assert("@"@ =~= seq!['@']);
}

/// The instance that an id names is the first that has it.
pub proof fn law_first_instance_with_an_id(instances: Seq<InstanceView>, id: Seq<char>, k: int)
    ensures
        0 <= k < instances.len() && instances[k].id == id && (forall|j: int|
            0 <= j < k ==> (#[trigger] instances[j]).id != id) ==> find_instance(instances, id)
            == Some(instances[k]),
        (forall|j: int| 0 <= j < instances.len() ==> (#[trigger] instances[j]).id != id)
            ==> find_instance(instances, id) is None,
    decreases instances.len(),
{
    if instances.len() > 0 {
        let rest = instances.drop_first();
        assert(forall|j: int| 0 <= j < rest.len() ==> #[trigger] rest[j] == instances[j + 1]);
        law_first_instance_with_an_id(rest, id, k - 1);
        if 0 < k < instances.len() {
            assert(rest[k - 1] == instances[k]);
        }
    }
}

/// Two instances may not create one target: a plan is refused for this if and only if two
/// of the selections have different instances and the same target, which neither finds.
pub proof fn law_ownership_is_checked(selections: Seq<SelectionView>)
    ensures
        ownership(selections) is Ok <==> forall|i: int, j: int|
            0 <= i < selections.len() && 0 <= j < selections.len() && !(
            #[trigger] selections[i]).target.exists && !(#[trigger] selections[j]).target.exists
                && selections[i].target.id == selections[j].target.id
                ==> selections[i].candidate.manager_instance_id
                == selections[j].candidate.manager_instance_id,
        ownership(selections) matches Err(e) ==> e.kind == ErrorKind::SharedNewTarget,
    decreases selections.len(),
{
    if selections.len() > 0 {
        let rest = selections.drop_last();
        let n = selections.len() - 1;
        let last = selections[n];
        law_ownership_is_checked(rest);
        lemma_creator_is_one(rest, last.target.id);
        if ownership(selections) is Ok {
            assert forall|i: int, j: int|
                0 <= i < selections.len() && 0 <= j < selections.len() && !(
                #[trigger] selections[i]).target.exists && !(#[trigger] selections[j]).target.exists
                    && selections[i].target.id == selections[j].target.id implies
                selections[i].candidate.manager_instance_id
                == selections[j].candidate.manager_instance_id by {
                if i < n && j < n {
                    assert(rest[i] == selections[i] && rest[j] == selections[j]);
                } else if i < n {
                    assert(rest[i] == selections[i]);
                } else if j < n {
                    assert(rest[j] == selections[j]);
                }
            }
        } else if ownership(rest) is Err {
            let (i, j) = choose|i: int, j: int|
                0 <= i < rest.len() && 0 <= j < rest.len() && !(#[trigger] rest[i]).target.exists
                    && !(#[trigger] rest[j]).target.exists && rest[i].target.id == rest[j].target.id
                    && rest[i].candidate.manager_instance_id
                    != rest[j].candidate.manager_instance_id;
            assert(rest[i] == selections[i] && rest[j] == selections[j]);
        } else {
            let previous = creator(rest, last.target.id)->0;
            let i = choose|i: int|
                0 <= i < rest.len() && !(#[trigger] rest[i]).target.exists && rest[i].target.id
                    == last.target.id && rest[i].candidate.manager_instance_id == previous;
            assert(rest[i] == selections[i]);
            assert(selections[n] == last);
        }
    }
}

proof fn lemma_creator_is_one(selections: Seq<SelectionView>, id: Seq<char>)
    ensures
        creator(selections, id) matches Some(instance) ==> exists|i: int|
            0 <= i < selections.len() && !(#[trigger] selections[i]).target.exists
                && selections[i].target.id == id && selections[i].candidate.manager_instance_id
                == instance,
        creator(selections, id) is None ==> forall|i: int|
            0 <= i < selections.len() ==> !(!(#[trigger] selections[i]).target.exists
                && selections[i].target.id == id),
        ownership(selections) is Ok ==> (creator(selections, id) matches Some(instance) ==> forall|
            i: int,
        |
            0 <= i < selections.len() && !(#[trigger] selections[i]).target.exists
                && selections[i].target.id == id ==> selections[i].candidate.manager_instance_id
                == instance),
    decreases selections.len(),
{
    if selections.len() > 0 {
        let rest = selections.drop_last();
        let n = selections.len() - 1;
        lemma_creator_is_one(rest, id);
        assert(selections[n] == selections.last());
        if !selections[n].target.exists && selections[n].target.id == id {
        } else if let Some(instance) = creator(rest, id) {
            let i = choose|i: int|
                0 <= i < rest.len() && !(#[trigger] rest[i]).target.exists && rest[i].target.id == id
                    && rest[i].candidate.manager_instance_id == instance;
            assert(selections[i] == rest[i]);
        }
        assert(forall|i: int| 0 <= i < n ==> #[trigger] selections[i] == rest[i]);
    }
}

/// Whether a selection is of this instance and this target.
pub open spec fn belongs(selection: SelectionView, instance: Seq<char>, target: Seq<char>) -> bool {
    selection.candidate.manager_instance_id == instance && selection.target.id == target
}

/// Selections are put into one group for each instance and target, in the order of the
/// instances and then of the targets. A group holds the selections of its instance and
/// target, all of them and in the order in which they came.
pub proof fn law_groups_are_by_instance_and_target(selections: Seq<SelectionView>)
    ensures
        ({
            let groups = grouped(selections);
            &&& forall|g: int|
                0 <= g < groups.len() ==> (#[trigger] groups[g]).selections == selections.filter(
                    |s: SelectionView| belongs(s, groups[g].instance_id, groups[g].target_id),
                ) && groups[g].selections.len() > 0
            &&& forall|g: int, h: int|
                0 <= g < h < groups.len() ==> group_order(
                    (#[trigger] groups[g]).instance_id,
                    groups[g].target_id,
                    (#[trigger] groups[h]).instance_id,
                    groups[h].target_id,
                ) == Ordering::Less
            &&& forall|i: int|
                0 <= i < selections.len() ==> exists|g: int|
                    0 <= g < groups.len() && belongs(
                        #[trigger] selections[i],
                        (#[trigger] groups[g]).instance_id,
                        groups[g].target_id,
                    )
        }),
    decreases selections.len(),
{
    if selections.len() > 0 {
        let rest = selections.drop_last();
        let last = selections.last();
        law_groups_are_by_instance_and_target(rest);
        lemma_grouped_filled(rest);
        lemma_grouped_filled(selections);
        let before = grouped(rest);
        let groups = grouped(selections);
        lemma_with_selection_sorted(before, last);
        lemma_group_of_selection(before, last);
        assert forall|g: int| 0 <= g < groups.len() implies (#[trigger] groups[g]).selections
            == selections.filter(
            |s: SelectionView| belongs(s, groups[g].instance_id, groups[g].target_id),
        ) && groups[g].selections.len() > 0 by {
            let instance = groups[g].instance_id;
            let target = groups[g].target_id;
            let keep = |s: SelectionView| belongs(s, instance, target);
            lemma_filter_step(selections, keep);
            if belongs(last, instance, target) {
                if exists|h: int|
                    0 <= h < before.len() && (#[trigger] before[h]).instance_id == instance
                        && before[h].target_id == target {
                    let h = choose|h: int|
                        0 <= h < before.len() && (#[trigger] before[h]).instance_id == instance
                            && before[h].target_id == target;
                    assert(groups[g].selections == before[h].selections.push(last));
                    assert(before[h].selections == rest.filter(
                        |s: SelectionView| belongs(s, before[h].instance_id, before[h].target_id),
                    ));
                    assert(rest.filter(
                        |s: SelectionView| belongs(s, before[h].instance_id, before[h].target_id),
                    ) == rest.filter(keep));
                } else {
                    assert(groups[g].selections == seq![last]);
                    lemma_nothing_kept(rest, before, instance, target);
                    assert(rest.filter(keep).push(last) =~= seq![last]);
                }
            } else {
                let h = choose|h: int| 0 <= h < before.len() && before[h] == groups[g];
                assert(before[h].selections == rest.filter(
                    |s: SelectionView| belongs(s, before[h].instance_id, before[h].target_id),
                ));
                assert(rest.filter(
                    |s: SelectionView| belongs(s, before[h].instance_id, before[h].target_id),
                ) == rest.filter(keep));
            }
        }
        assert forall|i: int| 0 <= i < selections.len() implies exists|g: int|
            0 <= g < groups.len() && belongs(
                #[trigger] selections[i],
                (#[trigger] groups[g]).instance_id,
                groups[g].target_id,
            ) by {
            law_grouping_loses_nothing(selections, i);
            let g = choose|g: int|
                0 <= g < groups.len() && (#[trigger] groups[g]).instance_id
                    == selections[i].candidate.manager_instance_id && groups[g].target_id
                    == selections[i].target.id && groups[g].selections.contains(selections[i]);
            assert(belongs(selections[i], groups[g].instance_id, groups[g].target_id));
        }
    }
}

proof fn lemma_filter_step(selections: Seq<SelectionView>, keep: spec_fn(SelectionView) -> bool)
    requires
        selections.len() > 0,
    ensures
        selections.filter(keep) == if keep(selections.last()) {
            selections.drop_last().filter(keep).push(selections.last())
        } else {
            selections.drop_last().filter(keep)
        },
{
    reveal(Seq::filter);
}

proof fn lemma_nothing_kept(
    selections: Seq<SelectionView>,
    groups: Seq<GroupView>,
    instance: Seq<char>,
    target: Seq<char>,
)
    requires
        forall|i: int|
            0 <= i < selections.len() ==> exists|g: int|
                0 <= g < groups.len() && belongs(
                    #[trigger] selections[i],
                    (#[trigger] groups[g]).instance_id,
                    groups[g].target_id,
                ),
        forall|h: int|
            0 <= h < groups.len() ==> !((#[trigger] groups[h]).instance_id == instance
                && groups[h].target_id == target),
    ensures
        selections.filter(|s: SelectionView| belongs(s, instance, target)).len() == 0,
    decreases selections.len(),
{
    reveal(Seq::filter);
    if selections.len() > 0 {
        let rest = selections.drop_last();
        assert forall|i: int| 0 <= i < rest.len() implies exists|g: int|
            0 <= g < groups.len() && belongs(
                #[trigger] rest[i],
                (#[trigger] groups[g]).instance_id,
                groups[g].target_id,
            ) by {
            assert(rest[i] == selections[i]);
        }
        lemma_nothing_kept(rest, groups, instance, target);
        let last = selections[selections.len() - 1];
        let g = choose|g: int|
            0 <= g < groups.len() && belongs(
                last,
                (#[trigger] groups[g]).instance_id,
                groups[g].target_id,
            );
        assert(!belongs(last, instance, target));
    }
}

proof fn lemma_group_order(a: Seq<char>, b: Seq<char>, c: Seq<char>, d: Seq<char>)
    ensures
        group_order(a, b, c, d) == Ordering::Equal <==> a == c && b == d,
        group_order(c, d, a, b) == crate::order::flip(group_order(a, b, c, d)),
{
    crate::order::lemma_text_order(a, c);
    crate::order::lemma_text_order(b, d);
}

proof fn lemma_group_transitive(
    a: Seq<char>,
    b: Seq<char>,
    c: Seq<char>,
    d: Seq<char>,
    e: Seq<char>,
    f: Seq<char>,
)
    requires
        group_order(a, b, c, d) == Ordering::Less,
        group_order(c, d, e, f) == Ordering::Less,
    ensures
        group_order(a, b, e, f) == Ordering::Less,
{
    crate::order::lemma_text_order(a, c);
    crate::order::lemma_text_order(c, e);
    crate::order::lemma_text_order(a, e);
    if text_order(a, c) == Ordering::Less && text_order(c, e) == Ordering::Less {
        crate::order::lemma_text_transitive(a, c, e);
    }
    if a == c && c == e {
        crate::order::lemma_text_transitive(b, d, f);
    }
}

spec fn groups_sorted(groups: Seq<GroupView>) -> bool {
    forall|g: int, h: int|
        0 <= g < h < groups.len() ==> group_order(
            (#[trigger] groups[g]).instance_id,
            groups[g].target_id,
            (#[trigger] groups[h]).instance_id,
            groups[h].target_id,
        ) == Ordering::Less
}

/// Putting a selection into its group keeps groups in order.
proof fn lemma_with_selection_sorted(groups: Seq<GroupView>, selection: SelectionView)
    requires
        groups_sorted(groups),
    ensures
        groups_sorted(with_selection(groups, selection)),
        forall|g: int|
            0 <= g < with_selection(groups, selection).len() ==> (belongs(
                selection,
                (#[trigger] with_selection(groups, selection)[g]).instance_id,
                with_selection(groups, selection)[g].target_id,
            ) || exists|h: int|
                0 <= h < groups.len() && groups[h] == with_selection(groups, selection)[g]),
    decreases groups.len(),
{
    let instance = selection.candidate.manager_instance_id;
    let target = selection.target.id;
    let r = with_selection(groups, selection);
    if groups.len() > 0 {
        let rest = groups.drop_first();
        assert(forall|g: int| 0 <= g < rest.len() ==> #[trigger] rest[g] == groups[g + 1]);
        assert(groups_sorted(rest));
        lemma_group_order(instance, target, groups[0].instance_id, groups[0].target_id);
        match group_order(instance, target, groups[0].instance_id, groups[0].target_id) {
            Ordering::Less => {
                assert forall|g: int, h: int| 0 <= g < h < r.len() implies group_order(
                    (#[trigger] r[g]).instance_id,
                    r[g].target_id,
                    (#[trigger] r[h]).instance_id,
                    r[h].target_id,
                ) == Ordering::Less by {
                    assert(r[h] == groups[h - 1]);
                    if g > 0 {
                        assert(r[g] == groups[g - 1]);
                    } else if h > 1 {
                        assert(group_order(
                            groups[0].instance_id,
                            groups[0].target_id,
                            groups[h - 1].instance_id,
                            groups[h - 1].target_id,
                        ) == Ordering::Less);
                        lemma_group_transitive(
                            instance,
                            target,
                            groups[0].instance_id,
                            groups[0].target_id,
                            groups[h - 1].instance_id,
                            groups[h - 1].target_id,
                        );
                    }
                }
                assert forall|g: int| 0 <= g < r.len() implies (belongs(
                    selection,
                    (#[trigger] r[g]).instance_id,
                    r[g].target_id,
                ) || exists|h: int| 0 <= h < groups.len() && groups[h] == r[g]) by {
                    if g > 0 {
                        assert(groups[g - 1] == r[g]);
                    }
                }
            },
            Ordering::Equal => {
                assert forall|g: int, h: int| 0 <= g < h < r.len() implies group_order(
                    (#[trigger] r[g]).instance_id,
                    r[g].target_id,
                    (#[trigger] r[h]).instance_id,
                    r[h].target_id,
                ) == Ordering::Less by {
                    assert(r[h] == groups[h]);
                    if g > 0 {
                        assert(r[g] == groups[g]);
                    }
                    assert(group_order(
                        groups[g].instance_id,
                        groups[g].target_id,
                        groups[h].instance_id,
                        groups[h].target_id,
                    ) == Ordering::Less);
                }
                assert forall|g: int| 0 <= g < r.len() implies (belongs(
                    selection,
                    (#[trigger] r[g]).instance_id,
                    r[g].target_id,
                ) || exists|h: int| 0 <= h < groups.len() && groups[h] == r[g]) by {
                    if g > 0 {
                        assert(groups[g] == r[g]);
                    }
                }
            },
            Ordering::Greater => {
                let below = with_selection(rest, selection);
                lemma_with_selection_sorted(rest, selection);
                assert(r == seq![groups[0]] + below);
                assert forall|g: int, h: int| 0 <= g < h < r.len() implies group_order(
                    (#[trigger] r[g]).instance_id,
                    r[g].target_id,
                    (#[trigger] r[h]).instance_id,
                    r[h].target_id,
                ) == Ordering::Less by {
                    assert(r[h] == below[h - 1]);
                    if g > 0 {
                        assert(r[g] == below[g - 1]);
                    } else if !belongs(selection, r[h].instance_id, r[h].target_id) {
                        let m = choose|m: int| 0 <= m < rest.len() && rest[m] == below[h - 1];
                        assert(groups[m + 1] == r[h]);
                    }
                }
                assert forall|g: int| 0 <= g < r.len() implies (belongs(
                    selection,
                    (#[trigger] r[g]).instance_id,
                    r[g].target_id,
                ) || exists|h: int| 0 <= h < groups.len() && groups[h] == r[g]) by {
                    if g == 0 {
                        assert(groups[0] == r[g]);
                    } else {
                        assert(r[g] == below[g - 1]);
                        if !belongs(selection, r[g].instance_id, r[g].target_id) {
                            let m = choose|m: int| 0 <= m < rest.len() && rest[m] == below[g - 1];
                            assert(groups[m + 1] == r[g]);
                        }
                    }
                }
            },
        }
    }
}

/// The group of a selection holds what it held and then the selection.
proof fn lemma_group_of_selection(groups: Seq<GroupView>, selection: SelectionView)
    requires
        groups_sorted(groups),
    ensures
        forall|g: int, h: int|
            0 <= g < with_selection(groups, selection).len() && 0 <= h < groups.len() && belongs(
                selection,
                (#[trigger] with_selection(groups, selection)[g]).instance_id,
                with_selection(groups, selection)[g].target_id,
            ) && belongs(selection, (#[trigger] groups[h]).instance_id, groups[h].target_id)
                ==> with_selection(groups, selection)[g].selections == groups[h].selections.push(
                selection,
            ),
        (forall|h: int|
            0 <= h < groups.len() ==> !belongs(
                selection,
                (#[trigger] groups[h]).instance_id,
                groups[h].target_id,
            )) ==> forall|g: int|
            0 <= g < with_selection(groups, selection).len() && belongs(
                selection,
                (#[trigger] with_selection(groups, selection)[g]).instance_id,
                with_selection(groups, selection)[g].target_id,
            ) ==> with_selection(groups, selection)[g].selections == seq![selection],
    decreases groups.len(),
{
    let instance = selection.candidate.manager_instance_id;
    let target = selection.target.id;
    let r = with_selection(groups, selection);
    if groups.len() > 0 {
        let rest = groups.drop_first();
        assert(forall|g: int| 0 <= g < rest.len() ==> #[trigger] rest[g] == groups[g + 1]);
        assert(groups_sorted(rest));
        lemma_with_selection_sorted(groups, selection);
        lemma_group_order(instance, target, groups[0].instance_id, groups[0].target_id);
        lemma_group_order(instance, target, instance, target);
        match group_order(instance, target, groups[0].instance_id, groups[0].target_id) {
            Ordering::Less => {
                assert forall|h: int| 0 <= h < groups.len() implies !belongs(
                    selection,
                    (#[trigger] groups[h]).instance_id,
                    groups[h].target_id,
                ) by {
                    if h > 0 {
                        lemma_group_transitive(
                            instance,
                            target,
                            groups[0].instance_id,
                            groups[0].target_id,
                            groups[h].instance_id,
                            groups[h].target_id,
                        );
                    }
                    lemma_group_order(
                        instance,
                        target,
                        groups[h].instance_id,
                        groups[h].target_id,
                    );
                }
                assert forall|g: int|
                    0 <= g < r.len() && belongs(
                        selection,
                        (#[trigger] r[g]).instance_id,
                        r[g].target_id,
                    ) implies r[g].selections == seq![selection] by {
                    if g > 0 {
                        assert(r[g] == groups[g - 1]);
                    }
                }
            },
            Ordering::Equal => {
                assert forall|g: int, h: int|
                    0 <= g < r.len() && 0 <= h < groups.len() && belongs(
                        selection,
                        (#[trigger] r[g]).instance_id,
                        r[g].target_id,
                    ) && belongs(
                        selection,
                        (#[trigger] groups[h]).instance_id,
                        groups[h].target_id,
                    ) implies r[g].selections == groups[h].selections.push(selection) by {
                    if g > 0 {
                        assert(group_order(
                            r[0].instance_id,
                            r[0].target_id,
                            r[g].instance_id,
                            r[g].target_id,
                        ) == Ordering::Less);
                    }
                    if h > 0 {
                        assert(group_order(
                            groups[0].instance_id,
                            groups[0].target_id,
                            groups[h].instance_id,
                            groups[h].target_id,
                        ) == Ordering::Less);
                    }
                }
                assert(belongs(selection, groups[0].instance_id, groups[0].target_id));
            },
            Ordering::Greater => {
                let below = with_selection(rest, selection);
                lemma_group_of_selection(rest, selection);
                assert(r == seq![groups[0]] + below);
                assert(!belongs(selection, groups[0].instance_id, groups[0].target_id));
                assert forall|g: int, h: int|
                    0 <= g < r.len() && 0 <= h < groups.len() && belongs(
                        selection,
                        (#[trigger] r[g]).instance_id,
                        r[g].target_id,
                    ) && belongs(
                        selection,
                        (#[trigger] groups[h]).instance_id,
                        groups[h].target_id,
                    ) implies r[g].selections == groups[h].selections.push(selection) by {
                    assert(g > 0 && h > 0);
                    assert(r[g] == below[g - 1]);
                    assert(groups[h] == rest[h - 1]);
                }
                if forall|h: int|
                    0 <= h < groups.len() ==> !belongs(
                        selection,
                        (#[trigger] groups[h]).instance_id,
                        groups[h].target_id,
                    ) {
                    assert forall|h: int| 0 <= h < rest.len() implies !belongs(
                        selection,
                        (#[trigger] rest[h]).instance_id,
                        rest[h].target_id,
                    ) by {
                        assert(rest[h] == groups[h + 1]);
                    }
                    assert forall|g: int|
                        0 <= g < r.len() && belongs(
                            selection,
                            (#[trigger] r[g]).instance_id,
                            r[g].target_id,
                        ) implies r[g].selections == seq![selection] by {
                        assert(g > 0);
                        assert(r[g] == below[g - 1]);
                    }
                }
            },
        }
    }
}

/// A plan is made group by group, in the order of the groups: for each, the manager of the
/// instance plans all packages of the group, each once and in the order in which they were
/// selected, into the target of the group. What goes wrong first counts.
pub proof fn law_plan_is_made_group_by_group(
    setting: Setting,
    selections: Seq<SelectionView>,
    groups: Seq<GroupView>,
    group: GroupView,
)
    ensures
        ownership(selections) matches Err(e) ==> plan_of(setting, selections) == Err::<
            PlanView,
            ErrorView,
        >(e),
        ownership(selections) is Ok ==> match all_steps(setting, grouped(selections)) {
            Ok(steps) => plan_of(setting, selections) matches Ok(plan) && plan.steps == steps
                && plan.selections == selections,
            Err(e) => plan_of(setting, selections) == Err::<PlanView, ErrorView>(e),
        },
        all_steps(setting, Seq::empty()) == Ok::<Seq<CommandView>, ErrorView>(Seq::empty()),
        all_steps(setting, groups) matches Err(e) ==> all_steps(setting, groups.push(group)) == Err::<
            Seq<CommandView>,
            ErrorView,
        >(e),
        all_steps(setting, groups) matches Ok(before) ==> {
            let packages = distinct(
                group.selections.map_values(|selection: SelectionView| package_spec(selection)),
            );
            let after = all_steps(setting, groups.push(group));
            match find_instance(setting.instances, group.instance_id) {
                None => after matches Err(e) && e.kind == ErrorKind::InstanceMissing,
                Some(instance) => match registered(setting.adapters, instance.kind) {
                    Err(e) => after == Err::<Seq<CommandView>, ErrorView>(e),
                    Ok(adapter) => {
                        &&& (forall|i: int|
                            0 <= i < packages.len() ==> package_verdict(
                                #[trigger] packages[i],
                            ) is Ok) ==> match adapter.plans(
                            setting.host,
                            instance,
                            packages,
                            group.selections[0].target,
                            setting.context,
                        ) {
                            Ok(steps) => after == Ok::<Seq<CommandView>, ErrorView>(before + steps),
                            Err(e) => after == Err::<Seq<CommandView>, ErrorView>(e),
                        }
                        &&& !(forall|i: int|
                            0 <= i < packages.len() ==> package_verdict(
                                #[trigger] packages[i],
                            ) is Ok) ==> after is Err
                    },
                },
            }
        },
{
    assert(groups.push(group).drop_last() =~= groups);
    let packages = group_packages(group.selections);
    if forall|i: int| 0 <= i < packages.len() ==> package_verdict(#[trigger] packages[i]) is Ok {
        lemma_all_packages_pass(packages);
    } else {
        let i = choose|i: int|
            0 <= i < packages.len() && !(package_verdict(#[trigger] packages[i]) is Ok);
        if packages_verdict(packages) is Ok {
            assert(packages.contains(packages[i]));
            lemma_packages_verdict(packages, packages[i]);
        }
    }
}

proof fn lemma_all_packages_pass(packages: Seq<Seq<char>>)
    requires
        forall|i: int| 0 <= i < packages.len() ==> package_verdict(#[trigger] packages[i]) is Ok,
    ensures
        packages_verdict(packages) is Ok,
    decreases packages.len(),
{
    if packages.len() > 0 {
        let rest = packages.drop_last();
        assert forall|i: int| 0 <= i < rest.len() implies package_verdict(
            #[trigger] rest[i],
        ) is Ok by {
            assert(rest[i] == packages[i]);
        }
        lemma_all_packages_pass(rest);
        assert(package_verdict(packages[packages.len() - 1]) is Ok);
    }
}

} // verus!
