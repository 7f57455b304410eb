//! The laws of the library: what holds of the policies, of an inspection
//! and of a whole run, for every input.

use vstd::prelude::*;
use crate::lister::{ListProgressView, ListerView};
use crate::model::{GranteeType, PermissionView, ResourceView, Role};
use crate::policy::Policy;
use crate::sanitizer::{AttemptView, SanitizeStage, SanitizerView};
use crate::service::{continuation, ActionView, DeleteReply, EventView, ListingView};
use crate::soundness::{
    failed, failed_listing, lemma_clean_walk_seals, lemma_drive_calm, lemma_drive_keeps_hierarchy,
    lemma_drive_sound, lemma_drive_spares, lemma_paths_are_claimed, lemma_start_calm,
    lemma_start_sound, listed, listing_failure, settled, sound, unshadowed,
};
use crate::progress::lemma_run_ends;
use crate::traversal::{
    FailureView, LedgerView, Operation, PhaseView, RevocationView, TraversalView,
};
use crate::world::{drive, World};

verus! {

/// The public-grant policy forbids the grants to anyone, the reader-grant
/// policy forbids the read grants, and neither forbids an owner's grant.
pub proof fn law_policy_scope(permission: PermissionView)
    ensures
        Policy::PublicGrant.matches(permission) <==> permission.grantee == GranteeType::Anyone
            && permission.role != Role::Owner,
        Policy::ReaderGrant.matches(permission) <==> permission.role == Role::Reader,
        permission.role == Role::Owner ==> !Policy::PublicGrant.matches(permission)
            && !Policy::ReaderGrant.matches(permission),
{
}

/// The targets of a policy among a list of permissions are the
/// permissions of the list that the policy forbids, and no others.
pub proof fn law_targets_are_the_matches(
    policy: Policy,
    listed: Seq<PermissionView>,
    permission: PermissionView,
)
    ensures
        policy.targets(listed).contains(permission) <==> listed.contains(permission)
            && policy.matches(permission),
{
    let targets = policy.targets(listed);
    if targets.contains(permission) {
        let i = choose|i: int| 0 <= i < targets.len() && targets[i] == permission;
        listed.lemma_filter_pred(policy.matcher(), i);
        listed.lemma_filter_contains_rev(policy.matcher(), permission);
    }
    if listed.contains(permission) && policy.matches(permission) {
        let i = choose|i: int| 0 <= i < listed.len() && listed[i] == permission;
        listed.lemma_filter_contains(policy.matcher(), i);
    }
}

/// The items of the pages `pages`, in order.
pub open spec fn all_items<T>(pages: Seq<ListingView<T>>) -> Seq<T>
    decreases pages.len(),
{
    if pages.len() == 0 {
        Seq::empty()
    } else {
        all_items(pages.drop_last()) + match pages.last() {
            ListingView::Page { items, .. } => items,
            _ => Seq::empty(),
        }
    }
}

/// Whether `pages` is a listing as the service pages it: one page or
/// more, each but the last with a token to go on with, and the last with
/// none.
pub open spec fn is_paged_listing<T>(pages: Seq<ListingView<T>>) -> bool {
    &&& pages.len() > 0
    &&& forall|i: int|
        0 <= i < pages.len() ==> (#[trigger] pages[i] matches ListingView::Page {
            next_page_token,
            ..
        } && (continuation(next_page_token) is None <==> i == pages.len() - 1))
}

/// The state of an inspection after the answers `pages` to its listing
/// calls, taken in order.
pub open spec fn after_pages(
    sanitizer: SanitizerView,
    pages: Seq<ListingView<PermissionView>>,
) -> SanitizerView
    decreases pages.len(),
{
    if pages.len() == 0 {
        sanitizer
    } else {
        after_pages(sanitizer, pages.drop_last()).on_permissions(pages.last())
    }
}

/// The state of an inspection after the answers `replies` to its delete
/// calls, taken in order.
pub open spec fn after_deletions(sanitizer: SanitizerView, replies: Seq<DeleteReply>) -> SanitizerView
    decreases replies.len(),
{
    if replies.len() == 0 {
        sanitizer
    } else {
        after_deletions(sanitizer, replies.drop_last()).on_deletion(replies.last())
    }
}

proof fn lemma_pages_accumulate(
    resource: Seq<char>,
    policy: Policy,
    pages: Seq<ListingView<PermissionView>>,
)
    requires
        forall|i: int|
            0 <= i < pages.len() ==> (#[trigger] pages[i] matches ListingView::Page {
                next_page_token,
                ..
            } && continuation(next_page_token) is Some),
    ensures
        ({
            let state = after_pages(SanitizerView::start(resource, policy), pages);
            &&& state.stage == SanitizeStage::Listing
            &&& state.listed == all_items(pages)
            &&& state == SanitizerView {
                page_token: state.page_token,
                listed: state.listed,
                ..SanitizerView::start(resource, policy)
            }
        }),
    decreases pages.len(),
{
    if pages.len() > 0 {
        let front = pages.drop_last();
        assert forall|i: int| 0 <= i < front.len() implies (#[trigger] front[i] matches ListingView::Page {
            next_page_token,
            ..
        } && continuation(next_page_token) is Some) by {
            assert(front[i] == pages[i]);
        }
        lemma_pages_accumulate(resource, policy, front);
        assert(pages[pages.len() - 1] is Page);
    }
}

/// However the service pages the permission list of a resource, the
/// inspection keeps listing until the last page, and then takes for its
/// targets the forbidden permissions of all pages: the first delete call
/// is for the first of them, and nothing is due where there is none.
pub proof fn law_every_page_is_inspected(
    resource: Seq<char>,
    policy: Policy,
    pages: Seq<ListingView<PermissionView>>,
)
    requires
        is_paged_listing(pages),
    ensures
        ({
            let state = after_pages(SanitizerView::start(resource, policy), pages);
            let targets = policy.targets(all_items(pages));
            &&& state.wf()
            &&& state.listed == all_items(pages)
            &&& state.targets == targets
            &&& state.attempts.len() == 0
            &&& state.listing_error is None
            &&& state.pending() == if targets.len() == 0 {
                ActionView::Finish
            } else {
                ActionView::DeletePermission { resource, permission: targets[0].id }
            }
        }),
{
    let front = pages.drop_last();
    assert forall|i: int| 0 <= i < front.len() implies (#[trigger] front[i] matches ListingView::Page {
        next_page_token,
        ..
    } && continuation(next_page_token) is Some) by {
        assert(front[i] == pages[i]);
    }
    lemma_pages_accumulate(resource, policy, front);
    assert(pages[pages.len() - 1] is Page);
}

/// Once the targets of an inspection are known, one answer for each of
/// them ends the inspection, whatever the answers are: every target has
/// had its delete call, in order, and the answer is on record against it.
pub proof fn law_every_target_is_attempted(sanitizer: SanitizerView, replies: Seq<DeleteReply>)
    requires
        sanitizer.wf(),
        sanitizer.stage == SanitizeStage::Revoking,
        sanitizer.attempts.len() == 0,
        replies.len() <= sanitizer.targets.len(),
    ensures
        ({
            let state = after_deletions(sanitizer, replies);
            &&& state.wf()
            &&& state.targets == sanitizer.targets
            &&& state.attempts.len() == replies.len()
            &&& forall|i: int|
                0 <= i < replies.len() ==> #[trigger] state.attempts[i] == AttemptView {
                    permission: sanitizer.targets[i].id,
                    reply: replies[i],
                }
            &&& state.stage == if replies.len() == sanitizer.targets.len() {
                SanitizeStage::Done
            } else {
                SanitizeStage::Revoking
            }
            &&& state.resource == sanitizer.resource
            &&& state.listing_error is None
        }),
    decreases replies.len(),
{
    if replies.len() > 0 {
        let front = replies.drop_last();
        law_every_target_is_attempted(sanitizer, front);
        let before = after_deletions(sanitizer, front);
        before.lemma_step_wf(EventView::Deletion(replies.last()));
        let state = after_deletions(sanitizer, replies);
        assert forall|i: int| 0 <= i < replies.len() implies #[trigger] state.attempts[i]
            == (AttemptView { permission: sanitizer.targets[i].id, reply: replies[i] }) by {
            if i < front.len() {
                assert(state.attempts[i] == before.attempts[i]);
                assert(front[i] == replies[i]);
            }
        }
    }
}

/// Where the listing of a folder stands after the answers `pages`, taken
/// in order: an answer that ends the listing ends it for good.
pub open spec fn listing_after(lister: ListerView, pages: Seq<ListingView<ResourceView>>) -> ListProgressView
    decreases pages.len(),
{
    if pages.len() == 0 {
        ListProgressView::More(lister)
    } else {
        match listing_after(lister, pages.drop_last()) {
            ListProgressView::More(next) => next.on_children(pages.last()),
            over => over,
        }
    }
}

proof fn lemma_children_accumulate(folder: Seq<char>, pages: Seq<ListingView<ResourceView>>)
    requires
        forall|i: int|
            0 <= i < pages.len() ==> (#[trigger] pages[i] matches ListingView::Page {
                next_page_token,
                ..
            } && continuation(next_page_token) is Some),
    ensures
        listing_after(ListerView::start(folder), pages) matches ListProgressView::More(lister)
            && lister.children == all_items(pages) && lister.folder == folder,
    decreases pages.len(),
{
    if pages.len() > 0 {
        let front = pages.drop_last();
        assert forall|i: int| 0 <= i < front.len() implies (#[trigger] front[i] matches ListingView::Page {
            next_page_token,
            ..
        } && continuation(next_page_token) is Some) by {
            assert(front[i] == pages[i]);
        }
        lemma_children_accumulate(folder, front);
        assert(pages[pages.len() - 1] is Page);
    }
}

/// However the service pages the children of a folder, the listing is
/// complete with the last page and holds the children of all pages, in
/// order.
pub proof fn law_every_child_is_listed(folder: Seq<char>, pages: Seq<ListingView<ResourceView>>)
    requires
        is_paged_listing(pages),
    ensures
        listing_after(ListerView::start(folder), pages) == ListProgressView::Complete(
            all_items(pages),
        ),
{
    let front = pages.drop_last();
    assert forall|i: int| 0 <= i < front.len() implies (#[trigger] front[i] matches ListingView::Page {
        next_page_token,
        ..
    } && continuation(next_page_token) is Some) by {
        assert(front[i] == pages[i]);
    }
    lemma_children_accumulate(folder, front);
    assert(pages[pages.len() - 1] is Page);
}

/// A failed page voids the listing of a folder, wherever it comes: the
/// children of the pages before it are not handed out.
pub proof fn law_failed_page_voids_the_listing(
    folder: Seq<char>,
    pages: Seq<ListingView<ResourceView>>,
    kind: crate::service::ErrorKind,
)
    requires
        forall|i: int|
            0 <= i < pages.len() ==> (#[trigger] pages[i] matches ListingView::Page {
                next_page_token,
                ..
            } && continuation(next_page_token) is Some),
    ensures
        listing_after(ListerView::start(folder), pages.push(ListingView::Failed(kind)))
            == ListProgressView::Failed(kind),
{
    lemma_children_accumulate(folder, pages);
    assert(pages.push(ListingView::Failed(kind)).drop_last() =~= pages);
}

/// No resource is inspected twice in a run: the identifiers on which an
/// inspection was begun are all different, every call on a resource's
/// permissions is a call on the one claimed last, and an answer adds at
/// most one identifier to those claimed and takes none away.
pub proof fn law_nothing_is_inspected_twice(run: TraversalView, event: EventView)
    requires
        run.wf(),
    ensures
        run.inspected().no_duplicates(),
        match run.pending() {
            ActionView::ListPermissions { resource, .. } => resource == run.inspected().last(),
            ActionView::DeletePermission { resource, .. } => resource == run.inspected().last(),
            _ => true,
        },
        run.step(event).wf(),
        run.ledger.claimed.is_prefix_of(run.step(event).ledger.claimed),
        run.step(event).ledger.claimed.len() <= run.ledger.claimed.len() + 1,
{
    run.lemma_step_wf(event);
    run.lemma_step_extends(event);
}

/// Whatever the service answers, the answer is put on record once and the
/// run goes on: a failed call leaves one failure against the resource that
/// it was made on, a delete call that leaves its permission absent leaves
/// one revocation, and every other answer leaves the records as they are.
/// One answer alone ends a run before its walk is over: the failed listing
/// of the root.
pub proof fn law_every_answer_is_put_on_record(run: TraversalView, event: EventView)
    requires
        run.wf(),
    ensures
        ({
            let next = run.step(event);
            let revoked = run.ledger.revoked;
            let failures = run.ledger.failures;
            match (run.pending(), event) {
                (
                    ActionView::ListChildren { folder, .. },
                    EventView::Children(ListingView::Failed(kind)),
                ) => {
                    &&& next.ledger.revoked == revoked
                    &&& if folder == run.ledger.root {
                        next.phase == PhaseView::Aborted(kind) && next.ledger.failures == failures
                    } else {
                        !(next.phase is Aborted) && next.ledger.failures == failures.push(
                            FailureView {
                                resource: folder,
                                permission: None,
                                operation: Operation::ListChildren,
                                kind,
                            },
                        )
                    }
                },
                (
                    ActionView::ListPermissions { resource, .. },
                    EventView::Permissions(ListingView::Failed(kind)),
                ) => {
                    &&& !(next.phase is Aborted)
                    &&& next.ledger.revoked == revoked
                    &&& next.ledger.failures == failures.push(
                        FailureView {
                            resource,
                            permission: None,
                            operation: Operation::ListPermissions,
                            kind,
                        },
                    )
                },
                (
                    ActionView::DeletePermission { resource, permission },
                    EventView::Deletion(DeleteReply::Failed(kind)),
                ) => {
                    &&& !(next.phase is Aborted)
                    &&& next.ledger.revoked == revoked
                    &&& next.ledger.failures == failures.push(
                        FailureView {
                            resource,
                            permission: Some(permission),
                            operation: Operation::DeletePermission,
                            kind,
                        },
                    )
                },
                (ActionView::DeletePermission { resource, permission }, EventView::Deletion(_)) => {
                    &&& !(next.phase is Aborted)
                    &&& next.ledger.revoked == revoked.push(RevocationView { resource, permission })
                    &&& next.ledger.failures == failures
                },
                _ => {
                    &&& next.phase is Aborted ==> run.phase is Aborted
                    &&& next.ledger.revoked == revoked
                    &&& next.ledger.failures == failures
                },
            }
        }),
{
    let ledger = run.ledger;
    run.lemma_step_wf(event);
    match (run.phase, event) {
        (PhaseView::Listing(lister), EventView::Children(reply)) => {
            match lister.on_children(reply) {
                ListProgressView::Complete(children) => {
                    ledger.lemma_settle_extends(children, 0);
                    ledger.lemma_settle_wf(children, 0);
                    lemma_settle_goes_on(ledger, children, 0);
                },
                ListProgressView::Failed(kind) => {},
                ListProgressView::More(_) => {},
            }
        },
        (PhaseView::Inspecting { siblings, cursor, sanitizer }, EventView::Permissions(reply)) => {
            if sanitizer.stage == SanitizeStage::Listing {
                let later = sanitizer.on_permissions(reply);
                let marked = match later.listing_error {
                    Some(kind) => ledger.with_failure(
                        FailureView {
                            resource: sanitizer.resource,
                            permission: None,
                            operation: Operation::ListPermissions,
                            kind,
                        },
                    ),
                    None => ledger,
                };
                marked.lemma_settle_extends(siblings, cursor + 1);
                lemma_settle_goes_on(marked, siblings, cursor + 1);
            }
        },
        (PhaseView::Inspecting { siblings, cursor, sanitizer }, EventView::Deletion(reply)) => {
            if sanitizer.stage == SanitizeStage::Revoking {
                let permission = sanitizer.targets[sanitizer.attempts.len() as int].id;
                let marked = match reply {
                    DeleteReply::Failed(kind) => ledger.with_failure(
                        FailureView {
                            resource: sanitizer.resource,
                            permission: Some(permission),
                            operation: Operation::DeletePermission,
                            kind,
                        },
                    ),
                    _ => ledger.with_revocation(
                        RevocationView { resource: sanitizer.resource, permission },
                    ),
                };
                marked.lemma_settle_extends(siblings, cursor + 1);
                lemma_settle_goes_on(marked, siblings, cursor + 1);
            }
        },
        _ => {},
    }
}

proof fn lemma_settle_goes_on(ledger: LedgerView, siblings: Seq<ResourceView>, from: int)
    ensures
        !(ledger.settle(siblings, from).phase is Aborted),
    decreases siblings.len() - from,
{
    if from < 0 || from >= siblings.len() {
    } else if ledger.claimed.contains(siblings[from].id) {
        lemma_settle_goes_on(ledger, siblings, from + 1);
    }
}

/// A walk that comes to its end against the modelled service has
/// inspected every resource that can be reached from the root, exactly
/// once, and has left it without a forbidden permission, or else with a
/// failure on record against it. A resource with several parents, or one
/// that lies on a cycle, is no exception; a failure elsewhere in the
/// hierarchy takes nothing away from this. The root is inspected only
/// where the run includes it.
pub proof fn law_complete_walk_is_thorough(
    world: World,
    root: Seq<char>,
    policy: Policy,
    include_root: bool,
    steps: nat,
    id: Seq<char>,
)
    requires
        drive(TraversalView::start(root, policy, include_root), world, steps).0.phase is Finished,
        world.reachable(root, id),
    ensures
        ({
            let (run, end) = drive(TraversalView::start(root, policy, include_root), world, steps);
            &&& run.ledger.claimed.contains(id)
            &&& (id != root || include_root) ==> {
                &&& end.clean(policy, id) || failed(run.ledger, id)
                &&& exists|i: int|
                    0 <= i < run.inspected().len() && run.inspected()[i] == id && forall|j: int|
                        0 <= j < run.inspected().len() && run.inspected()[j] == id ==> j == i
            }
            &&& (id == root && !include_root) ==> !run.inspected().contains(id) && end.permissions_of(
                id,
            ) == world.permissions_of(id)
        }),
{
    let start = TraversalView::start(root, policy, include_root);
    let (run, end) = drive(start, world, steps);
    lemma_start_sound(world, root, policy, include_root);
    lemma_drive_sound(start, world, steps);
    lemma_drive_keeps_hierarchy(start, world, steps);
    let path = choose|path: Seq<Seq<char>>| #[trigger] world.is_path(root, path) && path.last() == id;
    assert(end.is_path(root, path)) by {
        assert forall|k: int| 0 <= k < path.len() - 1 implies end.leads(
            root,
            #[trigger] path[k],
            path[k + 1],
        ) by {
            assert(world.leads(root, path[k], path[k + 1]));
            assert(end.record(path[k]) == world.record(path[k]));
            assert(end.child_of(path[k], path[k + 1]) == world.child_of(path[k], path[k + 1]));
        }
    }
    lemma_paths_are_claimed(run, end, path, path.len() - 1);
    let claimed = run.ledger.claimed;
    let at = choose|i: int| 0 <= i < claimed.len() && claimed[i] == id;
    if id != root || include_root {
        let i = if include_root {
            at
        } else {
            at - 1
        };
        assert(run.inspected()[i] == id);
        assert(settled(run.ledger, end, run.ledger.inspected()[i]));
    } else {
        if run.inspected().contains(id) {
            let j = choose|j: int| 0 <= j < run.inspected().len() && run.inspected()[j] == id;
            assert(claimed[j + 1] == claimed[0]);
        }
        lemma_root_is_left_alone(start, world, steps);
    }
}

/// A run that leaves its root out makes no change to the root's
/// permissions.
proof fn lemma_root_is_left_alone(run: TraversalView, world: World, steps: nat)
    requires
        run.wf(),
        !run.ledger.include_root,
    ensures
        drive(run, world, steps).1.permissions_of(run.ledger.root) == world.permissions_of(
            run.ledger.root,
        ),
    decreases steps,
{
    if steps > 0 && world.answer(run.pending()) is Some {
        let event = world.answer(run.pending()).unwrap();
        let next = world.after(run.pending());
        run.lemma_step_wf(event);
        run.lemma_step_extends(event);
        match run.pending() {
            ActionView::DeletePermission { resource, permission } => {
                crate::soundness::lemma_after_delete(world, resource, permission);
                let claimed = run.ledger.claimed;
                assert(resource == claimed[claimed.len() - 1]);
                assert(claimed.len() > 1);
                assert(claimed[claimed.len() - 1] != claimed[0]);
            },
            _ => {},
        }
        lemma_root_is_left_alone(run.step(event), next, (steps - 1) as nat);
    }
}

/// Whether `failures[k]` is the one failed listing of children on record
/// against `folder`.
pub open spec fn is_the_failed_listing_of(
    failures: Seq<FailureView>,
    k: int,
    folder: Seq<char>,
) -> bool {
    &&& 0 <= k < failures.len()
    &&& failures[k].resource == folder
    &&& failures[k].operation == Operation::ListChildren
    &&& forall|j: int|
        0 <= j < failures.len() && (#[trigger] failures[j]).resource == folder
            && failures[j].operation == Operation::ListChildren ==> j == k
}

proof fn lemma_failures_are_the_broken(run: TraversalView, world: World)
    requires
        sound(run, world),
        run.phase is Finished,
    ensures
        forall|k: int|
            0 <= k < run.ledger.failures.len() && (#[trigger] run.ledger.failures[k]).operation
                == Operation::ListChildren ==> {
                let failure = run.ledger.failures[k];
                &&& world.broken.contains_key(failure.resource)
                &&& world.is_folder(run.ledger.root, failure.resource)
                &&& run.ledger.claimed.contains(failure.resource)
                &&& failure == listing_failure(world, failure.resource)
            },
        forall|folder: Seq<char>|
            #![trigger world.broken.contains_key(folder)]
            run.ledger.claimed.contains(folder) && world.is_folder(run.ledger.root, folder)
                && world.broken.contains_key(folder) ==> exists|k: int|
                is_the_failed_listing_of(run.ledger.failures, k, folder),
{
    let ledger = run.ledger;
    let failures = ledger.failures;
    assert forall|k: int|
        0 <= k < failures.len() && (#[trigger] failures[k]).operation
            == Operation::ListChildren implies ({
        let failure = failures[k];
        &&& world.broken.contains_key(failure.resource)
        &&& world.is_folder(ledger.root, failure.resource)
        &&& ledger.claimed.contains(failure.resource)
        &&& failure == listing_failure(world, failure.resource)
    }) by {
        assert(listed(ledger, world, None, failures[k].resource));
    }
    assert forall|folder: Seq<char>|
        #![trigger world.broken.contains_key(folder)]
        ledger.claimed.contains(folder) && world.is_folder(ledger.root, folder)
            && world.broken.contains_key(folder) implies exists|k: int|
        is_the_failed_listing_of(failures, k, folder) by {
        assert(listed(ledger, world, None, folder));
        assert(failed_listing(ledger, folder));
        let k = choose|k: int|
            0 <= k < failures.len() && (#[trigger] failures[k]).resource == folder
                && failures[k].operation == Operation::ListChildren;
        assert forall|j: int|
            0 <= j < failures.len() && (#[trigger] failures[j]).resource == folder
                && failures[j].operation == Operation::ListChildren implies j == k by {
            if j < k {
                assert(failures[j].resource != failures[k].resource);
            } else if k < j {
                assert(failures[k].resource != failures[j].resource);
            }
        }
        assert(is_the_failed_listing_of(failures, k, folder));
    }
}

/// A walk that comes to its end against the modelled service has one
/// failed listing of children on record for each broken folder that it
/// came to, and no other: the failure names the folder and the error that
/// the service answered.
pub proof fn law_broken_folder_is_one_failure(
    world: World,
    root: Seq<char>,
    policy: Policy,
    include_root: bool,
    steps: nat,
)
    requires
        drive(TraversalView::start(root, policy, include_root), world, steps).0.phase is Finished,
    ensures
        ({
            let run = drive(TraversalView::start(root, policy, include_root), world, steps).0;
            let failures = run.ledger.failures;
            &&& forall|k: int|
                0 <= k < failures.len() && (#[trigger] failures[k]).operation
                    == Operation::ListChildren ==> {
                    let failure = failures[k];
                    &&& world.broken.contains_key(failure.resource)
                    &&& world.is_folder(root, failure.resource)
                    &&& run.ledger.claimed.contains(failure.resource)
                    &&& failure == listing_failure(world, failure.resource)
                }
            &&& forall|folder: Seq<char>|
                #![trigger world.broken.contains_key(folder)]
                run.ledger.claimed.contains(folder) && world.is_folder(root, folder)
                    && world.broken.contains_key(folder) ==> exists|k: int|
                    is_the_failed_listing_of(failures, k, folder)
        }),
{
    let start = TraversalView::start(root, policy, include_root);
    let (run, end) = drive(start, world, steps);
    lemma_start_sound(world, root, policy, include_root);
    lemma_drive_sound(start, world, steps);
    lemma_drive_keeps_hierarchy(start, world, steps);
    lemma_failures_are_the_broken(run, end);
    assert(end.broken == world.broken);
    assert forall|f: Seq<char>| end.is_folder(root, f) == world.is_folder(root, f) by {
        assert(end.record(f) == world.record(f));
    }
    assert(run.ledger.root == root);
}

/// Running the walk a second time revokes nothing: where a first run
/// against the modelled service came to its end without a failure, a
/// second run from the same root under the same policy, on the service as
/// the first run left it, has an outcome without a revocation and without
/// a failure, and leaves the service as it found it, however far it is
/// driven.
pub proof fn law_second_run_revokes_nothing(
    world: World,
    root: Seq<char>,
    policy: Policy,
    include_root: bool,
    first_steps: nat,
    second_steps: nat,
)
    requires
        drive(TraversalView::start(root, policy, include_root), world, first_steps).0.phase is Finished,
        drive(
            TraversalView::start(root, policy, include_root),
            world,
            first_steps,
        ).0.ledger.failures.len() == 0,
    ensures
        ({
            let start = TraversalView::start(root, policy, include_root);
            let (first, between) = drive(start, world, first_steps);
            let (second, end) = drive(start, between, second_steps);
            &&& second.outcome() matches Ok(records) && records.revoked.len() == 0
                && records.failures.len() == 0
            &&& end == between
        }),
{
    let start = TraversalView::start(root, policy, include_root);
    let (first, between) = drive(start, world, first_steps);
    lemma_start_sound(world, root, policy, include_root);
    lemma_drive_sound(start, world, first_steps);
    lemma_drive_keeps_hierarchy(start, world, first_steps);
    lemma_clean_walk_seals(first, between);
    let done = first.ledger.claimed.to_set();
    lemma_start_calm(between, root, policy, include_root, done);
    lemma_drive_calm(start, between, done, second_steps);
}

/// A delete call is only ever asked for on a permission that was listed
/// on the resource and that the policy forbids: never on an owner's
/// grant.
pub proof fn law_only_forbidden_permissions_are_deleted(sanitizer: SanitizerView)
    requires
        sanitizer.wf(),
        sanitizer.stage == SanitizeStage::Revoking,
    ensures
        sanitizer.pending() matches ActionView::DeletePermission { resource, permission }
            && resource == sanitizer.resource && exists|i: int|
            0 <= i < sanitizer.listed.len() && (#[trigger] sanitizer.listed[i]).id == permission
                && sanitizer.policy.matches(sanitizer.listed[i]) && sanitizer.listed[i].role
                != Role::Owner,
{
    let at = sanitizer.attempts.len() as int;
    let target = sanitizer.targets[at];
    sanitizer.listed.lemma_filter_pred(sanitizer.policy.matcher(), at);
    assert(sanitizer.targets.contains(target));
    sanitizer.listed.lemma_filter_contains_rev(sanitizer.policy.matcher(), target);
    let i = choose|i: int| 0 <= i < sanitizer.listed.len() && sanitizer.listed[i] == target;
    assert(sanitizer.listed[i].id == target.id);
}

/// A run against the modelled service takes away nothing that the policy
/// allows: a permission that the policy does not forbid, and whose
/// identifier no forbidden permission on the same resource shares, is
/// still on its resource, however far the run is driven.
pub proof fn law_allowed_permissions_survive(
    world: World,
    root: Seq<char>,
    policy: Policy,
    include_root: bool,
    steps: nat,
    id: Seq<char>,
    permission: PermissionView,
)
    requires
        world.permissions_of(id).contains(permission),
        unshadowed(world, policy, id, permission),
    ensures
        drive(TraversalView::start(root, policy, include_root), world, steps).1.permissions_of(
            id,
        ).contains(permission),
{
    let start = TraversalView::start(root, policy, include_root);
    lemma_start_sound(world, root, policy, include_root);
    lemma_drive_spares(start, world, steps, id, permission);
}

/// A run against a modelled service with finitely many resources comes
/// to its end, whether or not the hierarchy has cycles: where `universe`
/// holds the root and every child that a listing shows, some number of
/// calls takes the run to the end of its walk, or, where the root is
/// broken and only there, to the error that its listing answers.
pub proof fn law_every_run_ends(
    world: World,
    root: Seq<char>,
    policy: Policy,
    include_root: bool,
    universe: Seq<Seq<char>>,
) -> (steps: nat)
    requires
        universe.contains(root),
        forall|f: Seq<char>, c: Seq<char>| #[trigger] world.child_of(f, c) ==> universe.contains(c),
    ensures
        match drive(TraversalView::start(root, policy, include_root), world, steps).0.phase {
            PhaseView::Finished => !world.broken.contains_key(root),
            PhaseView::Aborted(kind) => world.broken.contains_key(root) && kind
                == world.broken[root],
            _ => false,
        },
{
    let start = TraversalView::start(root, policy, include_root);
    lemma_start_sound(world, root, policy, include_root);
    assert forall|i: int| 0 <= i < start.ledger.claimed.len() implies universe.contains(
        #[trigger] start.ledger.claimed[i],
    ) by {}
    let steps = lemma_run_ends(start, world, universe);
    lemma_drive_sound(start, world, steps);
    lemma_drive_keeps_hierarchy(start, world, steps);
    let (run, end) = drive(start, world, steps);
    if run.phase is Finished {
        assert(run.ledger.claimed.contains(run.ledger.claimed[0]));
        assert(listed(run.ledger, end, None, root));
    }
    steps
}

} // verus!
