//! What holds of every state of a run against the modelled service.

use vstd::prelude::*;
use crate::lister::{ListProgressView, ListerView};
use crate::model::{PermissionView, ResourceKind, ResourceView};
use crate::sanitizer::{SanitizeStage, SanitizerView};
use crate::service::{continuation, ActionView, EventView, ListingView};
use crate::traversal::{
    FailureView, LedgerView, Operation, PhaseView, RevocationView, TraversalView,
};
use crate::world::{drive, position, token_at, World};

verus! {

/// Whether `id` is among `siblings` at index `from` or later.
pub open spec fn waits(siblings: Seq<ResourceView>, from: int, id: Seq<char>) -> bool {
    exists|j: int| from <= j < siblings.len() && (#[trigger] siblings[j]).id == id
}

/// Whether the run has had the answer to the listing of `folder`: the
/// folder is claimed, it is one that the run lists, it has left the
/// frontier, and it is not the folder whose listing is under way.
pub open spec fn listed(
    ledger: LedgerView,
    world: World,
    listing: Option<Seq<char>>,
    folder: Seq<char>,
) -> bool {
    &&& ledger.claimed.contains(folder)
    &&& world.is_folder(ledger.root, folder)
    &&& !ledger.frontier.contains(folder)
    &&& listing != Some(folder)
}

/// Whether a failure is on record against `resource`.
pub open spec fn failed(ledger: LedgerView, resource: Seq<char>) -> bool {
    exists|k: int|
        0 <= k < ledger.failures.len() && (#[trigger] ledger.failures[k]).resource == resource
}

/// Whether the failed listing of the children of `folder` is on record.
pub open spec fn failed_listing(ledger: LedgerView, folder: Seq<char>) -> bool {
    exists|k: int|
        0 <= k < ledger.failures.len() && (#[trigger] ledger.failures[k]).resource == folder
            && ledger.failures[k].operation == Operation::ListChildren
}

/// Whether the inspection of `id` has left it as it should: without a
/// forbidden permission, or with a failure on record against it.
pub open spec fn settled(ledger: LedgerView, world: World, id: Seq<char>) -> bool {
    &&& world.unreadable.contains_key(id) ==> failed(ledger, id)
    &&& world.clean(ledger.policy, id) || failed(ledger, id)
}

/// The failure that the listing of a broken folder leaves on record.
pub open spec fn listing_failure(world: World, folder: Seq<char>) -> FailureView {
    FailureView {
        resource: folder,
        permission: None,
        operation: Operation::ListChildren,
        kind: world.broken[folder],
    }
}

/// Whether the sanitizer still has a delete call to make for the
/// permission `id`.
pub open spec fn due(sanitizer: SanitizerView, id: Seq<char>) -> bool {
    exists|j: int|
        sanitizer.attempts.len() <= j < sanitizer.targets.len() && (
        #[trigger] sanitizer.targets[j]).id == id
}

/// Whether every forbidden permission that the resource under inspection
/// still holds is one that the sanitizer has yet to delete.
pub open spec fn remaining_are_due(sanitizer: SanitizerView, world: World) -> bool {
    forall|i: int|
        0 <= i < world.permissions_of(sanitizer.resource).len() && sanitizer.policy.matches(
            #[trigger] world.permissions_of(sanitizer.resource)[i],
        ) ==> due(sanitizer, world.permissions_of(sanitizer.resource)[i].id)
}

/// The state of the listing of `folder` that has taken in what the service
/// shows up to position `at`.
pub open spec fn listing_at(world: World, folder: Seq<char>, at: nat) -> ListerView {
    ListerView {
        folder,
        page_token: if at == 0 {
            None
        } else {
            Some(token_at(at))
        },
        children: world.children_shown(folder).take(at as int),
    }
}

/// Whether the listing has taken in what the service shows up to the
/// position of its token, and nothing else.
pub open spec fn listing_in_step(world: World, lister: ListerView) -> bool {
    &&& position(lister.page_token) <= world.children_shown(lister.folder).len()
    &&& lister == listing_at(world, lister.folder, position(lister.page_token))
}

/// The state of the inspection of `resource` that has taken in the
/// permissions that the service holds up to position `at`.
pub open spec fn inspection_at(
    world: World,
    resource: Seq<char>,
    policy: crate::policy::Policy,
    at: nat,
) -> SanitizerView {
    SanitizerView {
        page_token: if at == 0 {
            None
        } else {
            Some(token_at(at))
        },
        listed: world.permissions_of(resource).take(at as int),
        ..SanitizerView::start(resource, policy)
    }
}

/// Whether the inspection, while it lists, has taken in the permissions
/// that the service holds up to the position of its token, and nothing
/// else.
pub open spec fn inspection_in_step(world: World, sanitizer: SanitizerView) -> bool {
    &&& position(sanitizer.page_token) <= world.permissions_of(sanitizer.resource).len()
    &&& sanitizer == inspection_at(
        world,
        sanitizer.resource,
        sanitizer.policy,
        position(sanitizer.page_token),
    )
}

/// What the ledger of a run against `world` holds between two answers,
/// where `listing` is the folder whose listing is under way, if any,
/// `siblings` from index `from` on are the children still to be turned to,
/// and `busy` says that the resource claimed last is still under
/// inspection.
pub open spec fn ledger_sound(
    ledger: LedgerView,
    world: World,
    listing: Option<Seq<char>>,
    siblings: Seq<ResourceView>,
    from: int,
    busy: bool,
) -> bool {
    &&& ledger.wf()
    &&& 0 <= from
    // what is listed, or queued for it, is a folder to the run
    &&& forall|i: int|
        0 <= i < ledger.frontier.len() ==> world.is_folder(ledger.root, #[trigger] ledger.frontier[i])
    &&& (listing matches Some(f) ==> world.is_folder(ledger.root, f))
    // the children still to be turned to are shown as the service shows them
    &&& forall|j: int|
        from <= j < siblings.len() ==> #[trigger] siblings[j] == world.record(siblings[j].id)
    // every child of a folder that was listed is claimed, or waits its turn
    &&& forall|f: Seq<char>, c: Seq<char>|
        #[trigger] listed(ledger, world, listing, f) && !world.broken.contains_key(f)
            && #[trigger] world.child_of(f, c) ==> ledger.claimed.contains(c) || waits(
            siblings,
            from,
            c,
        )
    // every resource whose inspection is over holds nothing forbidden
    &&& forall|k: int|
        0 <= k < ledger.inspected().len() - (if busy {
            1int
        } else {
            0int
        }) ==> settled(ledger, world, #[trigger] ledger.inspected()[k])
    // the failed listings of children on record are those of the broken
    // folders that the run came to, each once
    &&& forall|k: int|
        0 <= k < ledger.failures.len() && (#[trigger] ledger.failures[k]).operation
            == Operation::ListChildren ==> {
            let failure = ledger.failures[k];
            &&& listed(ledger, world, listing, failure.resource)
            &&& world.broken.contains_key(failure.resource)
            &&& failure == listing_failure(world, failure.resource)
        }
    &&& forall|i: int, j: int|
        0 <= i < j < ledger.failures.len() && (#[trigger] ledger.failures[i]).operation
            == Operation::ListChildren && (#[trigger] ledger.failures[j]).operation
            == Operation::ListChildren ==> ledger.failures[i].resource
            != ledger.failures[j].resource
    &&& forall|f: Seq<char>|
        #[trigger] listed(ledger, world, listing, f) && world.broken.contains_key(f)
            ==> failed_listing(ledger, f) && f != ledger.root
}

/// What holds of a run against `world` between two answers.
pub open spec fn sound(run: TraversalView, world: World) -> bool {
    match run.phase {
        PhaseView::Listing(lister) => {
            &&& run.wf()
            &&& listing_in_step(world, lister)
            &&& ledger_sound(run.ledger, world, Some(lister.folder), Seq::empty(), 0, false)
        },
        PhaseView::Inspecting { siblings, cursor, sanitizer } => {
            &&& run.wf()
            &&& ledger_sound(run.ledger, world, None, siblings, cursor + 1, true)
            &&& match sanitizer.stage {
                SanitizeStage::Listing => inspection_in_step(world, sanitizer),
                SanitizeStage::Revoking => {
                    &&& !world.unreadable.contains_key(sanitizer.resource)
                    &&& failed(run.ledger, sanitizer.resource) || remaining_are_due(
                        sanitizer,
                        world,
                    )
                },
                SanitizeStage::Done => false,
            }
        },
        PhaseView::Finished => {
            &&& run.wf()
            &&& ledger_sound(run.ledger, world, None, Seq::empty(), 0, false)
        },
        PhaseView::Aborted(kind) => {
            &&& world.broken.contains_key(run.ledger.root)
            &&& kind == world.broken[run.ledger.root]
        },
    }
}

/// A listing that has had no answer yet is in step with the service.
pub proof fn lemma_listing_begins(world: World, folder: Seq<char>)
    ensures
        listing_in_step(world, ListerView::start(folder)),
{
    assert(world.children_shown(folder).take(0) =~= Seq::empty());
}

/// An inspection that has had no answer yet is in step with the service.
pub proof fn lemma_inspection_begins(
    world: World,
    resource: Seq<char>,
    policy: crate::policy::Policy,
)
    ensures
        inspection_in_step(world, SanitizerView::start(resource, policy)),
{
    assert(world.permissions_of(resource).take(0) =~= Seq::empty());
}

/// A page of the service goes on from where the token stands, and ends
/// the listing or carries the token of the position that it comes to.
pub proof fn lemma_page<T>(world: World, items: Seq<T>, page_token: Option<Seq<char>>)
    requires
        position(page_token) <= items.len(),
    ensures
        ({
            let at = position(page_token);
            let to = world.page_end(at, items.len());
            &&& at <= to <= items.len()
            &&& world.page(items, page_token) matches ListingView::Page { items: got, next_page_token }
            &&& items.take(at as int) + got == items.take(to as int)
            &&& continuation(next_page_token) == next_page_token
            &&& if to < items.len() {
                next_page_token == Some(token_at(to)) && position(next_page_token) == to && to > at
            } else {
                next_page_token is None
            }
        }),
{
    let at = position(page_token);
    let to = world.page_end(at, items.len());
    assert(items.take(at as int) + items.subrange(at as int, to as int) =~= items.take(to as int));
}

/// The answer to a listing call takes a listing that is in step with the
/// service one page further, or completes it with all that the service
/// shows.
pub proof fn lemma_children_page(world: World, lister: ListerView)
    requires
        listing_in_step(world, lister),
        !world.broken.contains_key(lister.folder),
    ensures
        world.answer(lister.pending()) matches Some(EventView::Children(reply)) && match lister.on_children(
            reply,
        ) {
            ListProgressView::More(next) => {
                &&& listing_in_step(world, next)
                &&& next.folder == lister.folder
                &&& next.wf()
            },
            ListProgressView::Complete(children) => children == world.children_shown(lister.folder),
            ListProgressView::Failed(_) => false,
        },
{
    let shown = world.children_shown(lister.folder);
    if world.resources.contains_key(lister.folder) {
        lemma_page(world, shown, lister.page_token);
        assert(shown.take(shown.len() as int) =~= shown);
    } else {
        assert(shown =~= Seq::empty());
    }
}

/// The answer to a listing call takes an inspection that is in step with
/// the service one page further, or completes its list with all the
/// permissions that the service holds.
pub proof fn lemma_permissions_page(world: World, sanitizer: SanitizerView)
    requires
        inspection_in_step(world, sanitizer),
        !world.unreadable.contains_key(sanitizer.resource),
    ensures
        world.answer(sanitizer.pending()) matches Some(EventView::Permissions(reply)) && ({
            let next = sanitizer.on_permissions(reply);
            if next.stage == SanitizeStage::Listing {
                &&& inspection_in_step(world, next)
                &&& next.resource == sanitizer.resource
                &&& next.policy == sanitizer.policy
                &&& next.wf()
            } else {
                next == SanitizerView::start(sanitizer.resource, sanitizer.policy).with_full_list(
                    world.permissions_of(sanitizer.resource),
                )
            }
        }),
{
    let held = world.permissions_of(sanitizer.resource);
    if world.resources.contains_key(sanitizer.resource) {
        lemma_page(world, held, sanitizer.page_token);
        assert(held.take(held.len() as int) =~= held);
    } else {
        assert(held =~= Seq::empty());
    }
}

/// A run begins in a sound state, whatever the service holds.
pub proof fn lemma_start_sound(
    world: World,
    root: Seq<char>,
    policy: crate::policy::Policy,
    include_root: bool,
)
    ensures
        sound(TraversalView::start(root, policy, include_root), world),
{
    let run = TraversalView::start(root, policy, include_root);
    TraversalView::lemma_start_wf(root, policy, include_root);
    lemma_listing_begins(world, root);
    lemma_inspection_begins(world, root, policy);
    let ledger = run.ledger;
    assert forall|f: Seq<char>| ledger.claimed.contains(f) implies f == root by {
        let i = choose|i: int| 0 <= i < ledger.claimed.len() && ledger.claimed[i] == f;
    }
    if include_root {
        assert(ledger.frontier[0] == root);
        assert(ledger.frontier.contains(root));
    }
}

/// Two ledgers of one run with the same failures on record have the same
/// resources failed and settled.
pub proof fn lemma_same_failures(a: LedgerView, b: LedgerView, world: World)
    requires
        a.failures == b.failures,
        a.policy == b.policy,
    ensures
        forall|f: Seq<char>| #[trigger] failed(a, f) == failed(b, f),
        forall|f: Seq<char>| #[trigger] failed_listing(a, f) == failed_listing(b, f),
        forall|f: Seq<char>| #[trigger] settled(a, world, f) == settled(b, world, f),
{
}

/// Once no sibling waits and no resource is under inspection, turning to
/// the next folder leads to a sound state.
pub proof fn lemma_next_folder_sound(
    ledger: LedgerView,
    world: World,
    siblings: Seq<ResourceView>,
    from: int,
)
    requires
        ledger_sound(ledger, world, None, siblings, from, false),
        from >= siblings.len(),
    ensures
        sound(ledger.next_folder(), world),
{
    ledger.lemma_next_folder_wf();
    let next = ledger.next_folder();
    assert forall|c: Seq<char>| !waits(siblings, from, c) by {}
    if ledger.frontier.len() == 0 {
        assert(ledger_sound(next.ledger, world, None, Seq::empty(), 0, false));
    } else {
        let folder = ledger.frontier.last();
        let rest = ledger.frontier.drop_last();
        lemma_listing_begins(world, folder);
        assert forall|f: Seq<char>| #[trigger]
            listed(next.ledger, world, Some(folder), f) implies listed(ledger, world, None, f) by {
            if ledger.frontier.contains(f) {
                let i = choose|i: int| 0 <= i < ledger.frontier.len() && ledger.frontier[i] == f;
                assert(rest[i] == f);
            }
        }
        assert forall|f: Seq<char>| #[trigger]
            listed(ledger, world, None, f) implies listed(next.ledger, world, Some(folder), f) by {
            assert(ledger.frontier.contains(ledger.frontier[ledger.frontier.len() - 1]));
            if rest.contains(f) {
                let i = choose|i: int| 0 <= i < rest.len() && rest[i] == f;
                assert(ledger.frontier[i] == f);
            }
        }
        assert(next.ledger.failures == ledger.failures);
        assert(next.ledger.inspected() == ledger.inspected());
        lemma_same_failures(ledger, next.ledger, world);
        assert(ledger_sound(next.ledger, world, Some(folder), Seq::empty(), 0, false));
    }
}

/// Claiming the sibling at `from`, where it is not claimed yet, leaves
/// the ledger sound with that sibling under inspection.
pub proof fn lemma_claim_sound(
    ledger: LedgerView,
    world: World,
    siblings: Seq<ResourceView>,
    from: int,
)
    requires
        ledger_sound(ledger, world, None, siblings, from, false),
        from < siblings.len(),
        !ledger.claimed.contains(siblings[from].id),
    ensures
        ledger_sound(ledger.claim(siblings[from]), world, None, siblings, from + 1, true),
{
    let x = siblings[from];
    let next = ledger.claim(x);
    ledger.lemma_claim_wf(x);
    assert(x == world.record(x.id));
    assert(ledger.claimed.contains(ledger.claimed[0]));
    assert(next.claimed.last() == x.id);
    assert forall|f: Seq<char>| ledger.claimed.contains(f) implies next.claimed.contains(f) by {
        let i = choose|i: int| 0 <= i < ledger.claimed.len() && ledger.claimed[i] == f;
        assert(next.claimed[i] == f);
    }
    assert forall|f: Seq<char>| next.claimed.contains(f) && f != x.id implies ledger.claimed.contains(
        f,
    ) by {
        let i = choose|i: int| 0 <= i < next.claimed.len() && next.claimed[i] == f;
        assert(ledger.claimed[i] == f);
    }
    assert forall|f: Seq<char>| ledger.frontier.contains(f) implies next.frontier.contains(f) by {
        let i = choose|i: int| 0 <= i < ledger.frontier.len() && ledger.frontier[i] == f;
        assert(next.frontier[i] == f);
    }
    assert forall|f: Seq<char>| next.frontier.contains(f) && f != x.id implies ledger.frontier.contains(
        f,
    ) by {
        let i = choose|i: int| 0 <= i < next.frontier.len() && next.frontier[i] == f;
        assert(ledger.frontier[i] == f);
    }
    if x.kind == ResourceKind::Folder {
        assert(next.frontier.last() == x.id);
        assert(next.frontier.contains(x.id));
    }
    assert forall|f: Seq<char>| #[trigger]
        listed(next, world, None, f) implies listed(ledger, world, None, f) by {}
    assert forall|f: Seq<char>| #[trigger]
        listed(ledger, world, None, f) implies listed(next, world, None, f) by {}
    assert forall|f: Seq<char>, c: Seq<char>| #[trigger]
        listed(next, world, None, f) && !world.broken.contains_key(f) && #[trigger] world.child_of(
            f,
            c,
        ) implies next.claimed.contains(c) || waits(siblings, from + 1, c) by {
        assert(listed(ledger, world, None, f));
        if !ledger.claimed.contains(c) {
            let j = choose|j: int| from <= j < siblings.len() && (#[trigger] siblings[j]).id == c;
            if j == from {
                assert(next.claimed.contains(c));
            } else {
                assert(waits(siblings, from + 1, c));
            }
        }
    }
    assert(next.inspected() =~= ledger.inspected().push(x.id));
    lemma_same_failures(ledger, next, world);
    assert forall|k: int| 0 <= k < next.inspected().len() - 1 implies settled(
        next,
        world,
        #[trigger] next.inspected()[k],
    ) by {
        assert(next.inspected()[k] == ledger.inspected()[k]);
    }
}

/// Turning to the siblings from index `from` on leads to a sound state.
pub proof fn lemma_settle_sound(
    ledger: LedgerView,
    world: World,
    siblings: Seq<ResourceView>,
    from: int,
)
    requires
        ledger_sound(ledger, world, None, siblings, from, false),
    ensures
        sound(ledger.settle(siblings, from), world),
    decreases siblings.len() - from,
{
    ledger.lemma_settle_wf(siblings, from);
    if from >= siblings.len() {
        lemma_next_folder_sound(ledger, world, siblings, from);
    } else if ledger.claimed.contains(siblings[from].id) {
        assert forall|f: Seq<char>, c: Seq<char>| #[trigger]
            listed(ledger, world, None, f) && !world.broken.contains_key(f)
                && #[trigger] world.child_of(f, c) implies ledger.claimed.contains(c) || waits(
            siblings,
            from + 1,
            c,
        ) by {
            if !ledger.claimed.contains(c) {
                let j = choose|j: int|
                    from <= j < siblings.len() && (#[trigger] siblings[j]).id == c;
                assert(j != from);
                assert(waits(siblings, from + 1, c));
            }
        }
        lemma_settle_sound(ledger, world, siblings, from + 1);
    } else {
        lemma_claim_sound(ledger, world, siblings, from);
        lemma_inspection_begins(world, siblings[from].id, ledger.policy);
    }
}

/// A delete call changes nothing but the permissions of its resource,
/// from which it takes every permission of the given identifier, unless
/// the permission is stuck.
pub proof fn lemma_after_delete(world: World, resource: Seq<char>, permission: Seq<char>)
    ensures
        ({
            let next = world.after(ActionView::DeletePermission { resource, permission });
            &&& next.broken == world.broken
            &&& next.unreadable == world.unreadable
            &&& next.stuck == world.stuck
            &&& next.page_size == world.page_size
            &&& next.resources.dom() == world.resources.dom()
            &&& forall|id: Seq<char>| #[trigger] next.record(id) == world.record(id)
            &&& forall|f: Seq<char>, c: Seq<char>| #[trigger]
                next.child_of(f, c) == world.child_of(f, c)
            &&& forall|id: Seq<char>|
                id != resource ==> #[trigger] next.permissions_of(id) == world.permissions_of(id)
            &&& next.permissions_of(resource) == if world.stuck.contains_key((resource, permission)) {
                world.permissions_of(resource)
            } else {
                world.permissions_of(resource).filter(|p: PermissionView| p.id != permission)
            }
        }),
{
    let next = world.after(ActionView::DeletePermission { resource, permission });
    if world.stuck.contains_key((resource, permission)) {
    } else if world.resources.contains_key(resource) {
        assert(next.resources.dom() =~= world.resources.dom());
    } else {
        reveal_with_fuel(Seq::filter, 1);
        assert(world.permissions_of(resource).filter(|p: PermissionView| p.id != permission)
            =~= Seq::<PermissionView>::empty());
    }
}

/// A delete call on the resource under inspection leaves the ledger
/// sound.
pub proof fn lemma_delete_keeps_ledger_sound(
    ledger: LedgerView,
    world: World,
    siblings: Seq<ResourceView>,
    from: int,
    permission: Seq<char>,
)
    requires
        ledger_sound(ledger, world, None, siblings, from, true),
        ledger.inspected().len() > 0,
    ensures
        ledger_sound(
            ledger,
            world.after(
                ActionView::DeletePermission { resource: ledger.inspected().last(), permission },
            ),
            None,
            siblings,
            from,
            true,
        ),
{
    let resource = ledger.inspected().last();
    let after = world.after(ActionView::DeletePermission { resource, permission });
    lemma_after_delete(world, resource, permission);
    assert forall|f: Seq<char>| #[trigger]
        listed(ledger, after, None, f) == listed(ledger, world, None, f) by {
        assert(after.record(f) == world.record(f));
    }
    assert forall|i: int| 0 <= i < ledger.frontier.len() implies after.is_folder(
        ledger.root,
        #[trigger] ledger.frontier[i],
    ) by {
        assert(after.record(ledger.frontier[i]) == world.record(ledger.frontier[i]));
    }
    assert forall|j: int| from <= j < siblings.len() implies #[trigger] siblings[j] == after.record(
        siblings[j].id,
    ) by {
        assert(after.record(siblings[j].id) == world.record(siblings[j].id));
    }
    assert forall|f: Seq<char>, c: Seq<char>| #[trigger]
        listed(ledger, after, None, f) && !after.broken.contains_key(f) && #[trigger] after.child_of(
            f,
            c,
        ) implies ledger.claimed.contains(c) || waits(siblings, from, c) by {
        assert(listed(ledger, world, None, f));
        assert(world.child_of(f, c));
    }
    assert forall|k: int| 0 <= k < ledger.inspected().len() - 1 implies settled(
        ledger,
        after,
        #[trigger] ledger.inspected()[k],
    ) by {
        let id = ledger.inspected()[k];
        assert(settled(ledger, world, id));
        if ledger.include_root {
            assert(ledger.claimed[k] != ledger.claimed[ledger.claimed.len() - 1]);
        } else {
            assert(ledger.claimed[k + 1] != ledger.claimed[ledger.claimed.len() - 1]);
        }
        assert(id != resource);
        assert(after.permissions_of(id) == world.permissions_of(id));
    }
    assert forall|k: int|
        0 <= k < ledger.failures.len() && (#[trigger] ledger.failures[k]).operation
            == Operation::ListChildren implies ({
        let failure = ledger.failures[k];
        &&& listed(ledger, after, None, failure.resource)
        &&& after.broken.contains_key(failure.resource)
        &&& failure == listing_failure(after, failure.resource)
    }) by {
        assert(listed(ledger, world, None, ledger.failures[k].resource));
    }
    assert forall|f: Seq<char>| #[trigger]
        listed(ledger, after, None, f) && after.broken.contains_key(f) implies failed_listing(
        ledger,
        f,
    ) && f != ledger.root by {
        assert(listed(ledger, world, None, f));
    }
}

/// Whether `next` is `ledger` with more on record, none of it the failed
/// listing of a folder's children.
pub open spec fn with_more_on_record(next: LedgerView, ledger: LedgerView) -> bool {
    &&& next == LedgerView { revoked: next.revoked, failures: next.failures, ..ledger }
    &&& ledger.failures.is_prefix_of(next.failures)
    &&& forall|k: int|
        ledger.failures.len() <= k < next.failures.len() ==> (#[trigger] next.failures[k]).operation
            != Operation::ListChildren
}

/// Putting a revocation on record, or a failure other than the failed
/// listing of a folder's children, leaves the ledger sound, and what has
/// failed stays failed.
pub proof fn lemma_records_keep_sound(
    next: LedgerView,
    ledger: LedgerView,
    world: World,
    listing: Option<Seq<char>>,
    siblings: Seq<ResourceView>,
    from: int,
    busy: bool,
)
    requires
        ledger_sound(ledger, world, listing, siblings, from, busy),
        with_more_on_record(next, ledger),
    ensures
        ledger_sound(next, world, listing, siblings, from, busy),
        forall|f: Seq<char>| failed(ledger, f) ==> #[trigger] failed(next, f),
{
    assert(next.inspected() == ledger.inspected());
    assert forall|f: Seq<char>| failed(ledger, f) implies #[trigger] failed(next, f) by {
        let k = choose|k: int|
            0 <= k < ledger.failures.len() && (#[trigger] ledger.failures[k]).resource == f;
        assert(next.failures[k] == ledger.failures[k]);
    }
    assert forall|f: Seq<char>| failed_listing(ledger, f) implies failed_listing(next, f) by {
        let k = choose|k: int|
            0 <= k < ledger.failures.len() && (#[trigger] ledger.failures[k]).resource == f
                && ledger.failures[k].operation == Operation::ListChildren;
        assert(next.failures[k] == ledger.failures[k]);
    }
    assert forall|f: Seq<char>| #[trigger]
        listed(next, world, listing, f) == listed(ledger, world, listing, f) by {}
    assert forall|k: int|
        0 <= k < ledger.inspected().len() - (if busy {
            1int
        } else {
            0int
        }) implies settled(next, world, #[trigger] next.inspected()[k]) by {
        assert(settled(ledger, world, ledger.inspected()[k]));
    }
    assert forall|k: int|
        0 <= k < next.failures.len() && (#[trigger] next.failures[k]).operation
            == Operation::ListChildren implies ({
        let failure = next.failures[k];
        &&& listed(next, world, listing, failure.resource)
        &&& world.broken.contains_key(failure.resource)
        &&& failure == listing_failure(world, failure.resource)
    }) by {
        assert(next.failures[k] == ledger.failures[k]);
        assert(listed(ledger, world, listing, ledger.failures[k].resource));
    }
    assert forall|i: int, j: int|
        0 <= i < j < next.failures.len() && (#[trigger] next.failures[i]).operation
            == Operation::ListChildren && (#[trigger] next.failures[j]).operation
            == Operation::ListChildren implies next.failures[i].resource
        != next.failures[j].resource by {
        assert(next.failures[i] == ledger.failures[i]);
        assert(next.failures[j] == ledger.failures[j]);
    }
    assert forall|f: Seq<char>| #[trigger]
        listed(next, world, listing, f) && world.broken.contains_key(f) implies failed_listing(
        next,
        f,
    ) && f != next.root by {
        assert(listed(ledger, world, listing, f));
    }
}

/// The answer to the listing of a folder leads to a sound state.
pub proof fn lemma_children_answer_sound(run: TraversalView, world: World)
    requires
        sound(run, world),
        run.phase is Listing,
    ensures
        world.answer(run.pending()) is Some,
        world.after(run.pending()) == world,
        sound(run.step(world.answer(run.pending()).unwrap()), world),
{
    let lister = run.phase->Listing_0;
    let folder = lister.folder;
    let ledger = run.ledger;
    let event = world.answer(run.pending()).unwrap();
    let next = run.step(event);
    assert forall|c: Seq<char>| !waits(Seq::<ResourceView>::empty(), 0, c) by {}
    assert forall|f: Seq<char>| #[trigger]
        listed(ledger, world, Some(folder), f) implies listed(ledger, world, None, f) by {}
    assert forall|f: Seq<char>| #[trigger]
        listed(ledger, world, None, f) implies f == folder || listed(
        ledger,
        world,
        Some(folder),
        f,
    ) by {}
    assert(listed(ledger, world, None, folder));
    if world.broken.contains_key(folder) {
        let kind = world.broken[folder];
        if folder != ledger.root {
            let failure = listing_failure(world, folder);
            let marked = ledger.with_failure(failure);
            assert(next == marked.next_folder());
            assert(marked.inspected() == ledger.inspected());
            assert forall|f: Seq<char>| #[trigger]
                listed(marked, world, None, f) == listed(ledger, world, None, f) by {}
            assert(marked.failures.last() == failure);
            assert forall|f: Seq<char>| failed(ledger, f) implies failed(marked, f) by {
                let k = choose|k: int|
                    0 <= k < ledger.failures.len() && (#[trigger] ledger.failures[k]).resource == f;
                assert(marked.failures[k].resource == f);
            }
            assert forall|f: Seq<char>| failed_listing(ledger, f) implies failed_listing(
                marked,
                f,
            ) by {
                let k = choose|k: int|
                    0 <= k < ledger.failures.len() && (#[trigger] ledger.failures[k]).resource == f
                        && ledger.failures[k].operation == Operation::ListChildren;
                assert(marked.failures[k] == ledger.failures[k]);
            }
            assert(failed_listing(marked, folder)) by {
                assert(marked.failures[marked.failures.len() - 1].resource == folder);
            }
            assert forall|k: int| 0 <= k < marked.inspected().len() implies settled(
                marked,
                world,
                #[trigger] marked.inspected()[k],
            ) by {
                assert(settled(ledger, world, ledger.inspected()[k]));
            }
            assert forall|k: int|
                0 <= k < marked.failures.len() && (#[trigger] marked.failures[k]).operation
                    == Operation::ListChildren implies ({
                let failure = marked.failures[k];
                &&& listed(marked, world, None, failure.resource)
                &&& world.broken.contains_key(failure.resource)
                &&& failure == listing_failure(world, failure.resource)
            }) by {
                if k < ledger.failures.len() {
                    assert(marked.failures[k] == ledger.failures[k]);
                    assert(listed(ledger, world, Some(folder), ledger.failures[k].resource));
                }
            }
            assert forall|i: int, j: int|
                0 <= i < j < marked.failures.len() && (#[trigger] marked.failures[i]).operation
                    == Operation::ListChildren && (#[trigger] marked.failures[j]).operation
                    == Operation::ListChildren implies marked.failures[i].resource
                != marked.failures[j].resource by {
                assert(marked.failures[i] == ledger.failures[i]);
                assert(listed(ledger, world, Some(folder), ledger.failures[i].resource));
                if j < ledger.failures.len() {
                    assert(marked.failures[j] == ledger.failures[j]);
                }
            }
            assert(ledger_sound(marked, world, None, Seq::empty(), 0, false));
            lemma_next_folder_sound(marked, world, Seq::empty(), 0);
        }
    } else {
        lemma_children_page(world, lister);
        let reply = event->Children_0;
        match lister.on_children(reply) {
            ListProgressView::More(later) => {
                assert(next == TraversalView { phase: PhaseView::Listing(later), ..run });
            },
            ListProgressView::Complete(children) => {
                assert(next == ledger.settle(children, 0));
                assert forall|c: Seq<char>| world.child_of(folder, c) implies waits(
                    children,
                    0,
                    c,
                ) by {
                    let ids = world.resources[folder].children;
                    let j = choose|j: int| 0 <= j < ids.len() && ids[j] == c;
                    assert(children[j].id == c);
                }
                assert(ledger_sound(ledger, world, None, children, 0, false));
                lemma_settle_sound(ledger, world, children, 0);
            },
            ListProgressView::Failed(_) => {},
        }
    }
}

/// Where no permission on a resource is forbidden and due, the resource
/// is clean.
pub proof fn lemma_nothing_due_is_clean(sanitizer: SanitizerView, world: World)
    requires
        remaining_are_due(sanitizer, world),
        sanitizer.attempts.len() >= sanitizer.targets.len(),
    ensures
        world.clean(sanitizer.policy, sanitizer.resource),
{
    let held = world.permissions_of(sanitizer.resource);
    let left = sanitizer.policy.targets(held);
    if left.len() > 0 {
        held.lemma_filter_pred(sanitizer.policy.matcher(), 0);
        assert(left.contains(left[0]));
        held.lemma_filter_contains_rev(sanitizer.policy.matcher(), left[0]);
        let i = choose|i: int| 0 <= i < held.len() && held[i] == left[0];
        assert(sanitizer.policy.matches(held[i]));
        assert(due(sanitizer, held[i].id));
    }
}

/// The failure that the listing of the permissions of an unreadable
/// resource leaves on record.
pub open spec fn unreadable_failure(world: World, resource: Seq<char>) -> FailureView {
    FailureView {
        resource,
        permission: None,
        operation: Operation::ListPermissions,
        kind: world.unreadable[resource],
    }
}

/// The failure that a delete call on a stuck permission leaves on record.
pub open spec fn stuck_failure(world: World, resource: Seq<char>, permission: Seq<char>) -> FailureView {
    FailureView {
        resource,
        permission: Some(permission),
        operation: Operation::DeletePermission,
        kind: world.stuck[(resource, permission)],
    }
}

/// With a failure on record against the resource under inspection, the
/// inspection may end: the ledger is sound with no resource under
/// inspection.
pub proof fn lemma_failure_settles(
    next: LedgerView,
    ledger: LedgerView,
    world: World,
    siblings: Seq<ResourceView>,
    from: int,
)
    requires
        ledger_sound(ledger, world, None, siblings, from, true),
        ledger.inspected().len() > 0,
        with_more_on_record(next, ledger),
        failed(next, ledger.inspected().last()),
    ensures
        ledger_sound(next, world, None, siblings, from, false),
{
    lemma_records_keep_sound(next, ledger, world, None, siblings, from, true);
    assert(next.inspected() == ledger.inspected());
}

/// The answer to the listing of a resource's permissions leads to a
/// sound state.
pub proof fn lemma_permissions_answer_sound(run: TraversalView, world: World)
    requires
        sound(run, world),
        run.phase matches PhaseView::Inspecting { sanitizer, .. } && sanitizer.stage
            == SanitizeStage::Listing,
    ensures
        world.answer(run.pending()) is Some,
        world.after(run.pending()) == world,
        sound(run.step(world.answer(run.pending()).unwrap()), world),
        run.step(world.answer(run.pending()).unwrap()).ledger.revoked == run.ledger.revoked,
{
    let siblings = run.phase->Inspecting_siblings;
    let cursor = run.phase->Inspecting_cursor;
    let sanitizer = run.phase->Inspecting_sanitizer;
    let ledger = run.ledger;
    let resource = sanitizer.resource;
    let held = world.permissions_of(resource);
    let event = world.answer(run.pending()).unwrap();
    let after = sanitizer.step(event);
    sanitizer.lemma_step_wf(event);
    assert(ledger.inspected().last() == resource);
    if world.unreadable.contains_key(resource) {
        let marked = ledger.with_failure(unreadable_failure(world, resource));
        assert(run.step(event) == marked.settle(siblings, cursor + 1));
        assert(marked.failures[marked.failures.len() - 1].resource == resource);
        lemma_failure_settles(marked, ledger, world, siblings, cursor + 1);
        lemma_settle_sound(marked, world, siblings, cursor + 1);
        marked.lemma_settle_wf(siblings, cursor + 1);
    } else {
        lemma_permissions_page(world, sanitizer);
        assert(run.step(event) == ledger.resume(siblings, cursor, after));
        if after.stage == SanitizeStage::Listing {
        } else if after.stage == SanitizeStage::Done {
            assert(world.clean(ledger.policy, resource));
            assert(ledger_sound(ledger, world, None, siblings, cursor + 1, false));
            lemma_settle_sound(ledger, world, siblings, cursor + 1);
            ledger.lemma_settle_wf(siblings, cursor + 1);
        } else {
            assert forall|i: int| 0 <= i < held.len() && after.policy.matches(
                #[trigger] held[i],
            ) implies due(after, held[i].id) by {
                held.lemma_filter_contains(after.policy.matcher(), i);
                let j = choose|j: int| 0 <= j < after.targets.len() && after.targets[j] == held[i];
                assert(after.targets[j].id == held[i].id);
            }
        }
    }
}

/// The answer to a delete call leads to a sound state.
pub proof fn lemma_deletion_answer_sound(run: TraversalView, world: World)
    requires
        sound(run, world),
        run.phase matches PhaseView::Inspecting { sanitizer, .. } && sanitizer.stage
            == SanitizeStage::Revoking,
    ensures
        world.answer(run.pending()) is Some,
        sound(run.step(world.answer(run.pending()).unwrap()), world.after(run.pending())),
{
    let siblings = run.phase->Inspecting_siblings;
    let cursor = run.phase->Inspecting_cursor;
    let sanitizer = run.phase->Inspecting_sanitizer;
    let ledger = run.ledger;
    let resource = sanitizer.resource;
    let permission = sanitizer.targets[sanitizer.attempts.len() as int].id;
    let event = world.answer(run.pending()).unwrap();
    let reply = event->Deletion_0;
    let next_world = world.after(run.pending());
    let after = sanitizer.on_deletion(reply);
    sanitizer.lemma_step_wf(event);
    assert(ledger.inspected().last() == resource);
    lemma_after_delete(world, resource, permission);
    lemma_delete_keeps_ledger_sound(ledger, world, siblings, cursor + 1, permission);
    let marked = if world.stuck.contains_key((resource, permission)) {
        ledger.with_failure(stuck_failure(world, resource, permission))
    } else {
        ledger.with_revocation(RevocationView { resource, permission })
    };
    assert(run.step(event) == marked.resume(siblings, cursor, after));
    lemma_records_keep_sound(marked, ledger, next_world, None, siblings, cursor + 1, true);
    if world.stuck.contains_key((resource, permission)) {
        assert(marked.failures[marked.failures.len() - 1].resource == resource);
        assert(failed(marked, resource));
    } else if !failed(ledger, resource) {
        let held = world.permissions_of(resource);
        let kept = next_world.permissions_of(resource);
        let other = |p: PermissionView| p.id != permission;
        assert forall|i: int| 0 <= i < kept.len() && after.policy.matches(
            #[trigger] kept[i],
        ) implies due(after, kept[i].id) by {
            held.lemma_filter_pred(other, i);
            assert(kept.contains(kept[i]));
            held.lemma_filter_contains_rev(other, kept[i]);
            let h = choose|h: int| 0 <= h < held.len() && held[h] == kept[i];
            assert(due(sanitizer, held[h].id));
            let j = choose|j: int|
                sanitizer.attempts.len() <= j < sanitizer.targets.len() && (
                #[trigger] sanitizer.targets[j]).id == held[h].id;
            assert(j != sanitizer.attempts.len());
            assert(after.targets[j].id == kept[i].id);
        }
        assert(remaining_are_due(after, next_world));
    }
    if after.stage == SanitizeStage::Done {
        if !failed(marked, resource) {
            lemma_nothing_due_is_clean(after, next_world);
        }
        assert(marked.inspected() == ledger.inspected());
        assert(settled(marked, next_world, resource));
        assert(ledger_sound(marked, next_world, None, siblings, cursor + 1, false));
        lemma_settle_sound(marked, next_world, siblings, cursor + 1);
    }
}

/// Every call that the service answers leads from a sound state to a
/// sound state.
pub proof fn lemma_answer_sound(run: TraversalView, world: World)
    requires
        sound(run, world),
        world.answer(run.pending()) is Some,
    ensures
        sound(run.step(world.answer(run.pending()).unwrap()), world.after(run.pending())),
{
    match run.phase {
        PhaseView::Listing(_) => lemma_children_answer_sound(run, world),
        PhaseView::Inspecting { sanitizer, .. } => {
            if sanitizer.stage == SanitizeStage::Listing {
                lemma_permissions_answer_sound(run, world);
            } else {
                lemma_deletion_answer_sound(run, world);
            }
        },
        _ => {},
    }
}

/// A run against the service stays sound, however many calls it makes.
pub proof fn lemma_drive_sound(run: TraversalView, world: World, steps: nat)
    requires
        sound(run, world),
    ensures
        sound(drive(run, world, steps).0, drive(run, world, steps).1),
    decreases steps,
{
    if steps > 0 && world.answer(run.pending()) is Some {
        lemma_answer_sound(run, world);
        lemma_drive_sound(
            run.step(world.answer(run.pending()).unwrap()),
            world.after(run.pending()),
            (steps - 1) as nat,
        );
    }
}

/// Whether two services hold the same hierarchy: the same resources with
/// the same kinds, names and children, and the same broken folders.
pub open spec fn same_hierarchy(a: World, b: World) -> bool {
    &&& a.broken == b.broken
    &&& forall|id: Seq<char>| #[trigger] a.record(id) == b.record(id)
    &&& forall|f: Seq<char>, c: Seq<char>| #[trigger] a.child_of(f, c) == b.child_of(f, c)
}

/// A run changes nothing of the hierarchy that it walks, and takes
/// nothing off its ledger.
pub proof fn lemma_drive_keeps_hierarchy(run: TraversalView, world: World, steps: nat)
    ensures
        same_hierarchy(drive(run, world, steps).1, world),
        drive(run, world, steps).0.ledger.extends(run.ledger),
    decreases steps,
{
    if steps > 0 && world.answer(run.pending()) is Some {
        let event = world.answer(run.pending()).unwrap();
        let next = world.after(run.pending());
        match run.pending() {
            ActionView::DeletePermission { resource, permission } => {
                lemma_after_delete(world, resource, permission);
            },
            _ => {},
        }
        run.lemma_step_extends(event);
        lemma_drive_keeps_hierarchy(run.step(event), next, (steps - 1) as nat);
        let end = drive(run, world, steps).1;
        assert forall|id: Seq<char>| #[trigger] end.record(id) == world.record(id) by {
            assert(end.record(id) == next.record(id));
        }
        assert forall|f: Seq<char>, c: Seq<char>| #[trigger]
            end.child_of(f, c) == world.child_of(f, c) by {
            assert(end.child_of(f, c) == next.child_of(f, c));
        }
    }
}

/// In a sound state at the end of a walk, every identifier on a way down
/// from the root is claimed.
pub proof fn lemma_paths_are_claimed(run: TraversalView, world: World, path: Seq<Seq<char>>, k: int)
    requires
        sound(run, world),
        run.phase is Finished,
        world.is_path(run.ledger.root, path),
        0 <= k < path.len(),
    ensures
        run.ledger.claimed.contains(path[k]),
    decreases k,
{
    let ledger = run.ledger;
    if k == 0 {
        assert(ledger.claimed[0] == path[0]);
    } else {
        lemma_paths_are_claimed(run, world, path, k - 1);
        let f = path[k - 1];
        assert(world.leads(ledger.root, f, path[k - 1 + 1]));
        assert(listed(ledger, world, None, f));
        assert(world.child_of(f, path[k]));
        assert(!waits(Seq::<ResourceView>::empty(), 0, path[k]));
    }
}

/// Whether `done` is a set of identifiers that a run from `root` cannot
/// leave and in which it finds nothing to revoke: it holds the root and
/// the children of each of its folders, none of its folders is broken, and
/// each of its members that the run inspects is readable and holds no
/// forbidden permission.
pub open spec fn sealed(
    world: World,
    policy: crate::policy::Policy,
    root: Seq<char>,
    include_root: bool,
    done: Set<Seq<char>>,
) -> bool {
    &&& done.contains(root)
    &&& forall|f: Seq<char>, c: Seq<char>|
        done.contains(f) && world.is_folder(root, f) && #[trigger] world.child_of(f, c)
            ==> done.contains(c)
    &&& forall|f: Seq<char>|
        #[trigger] done.contains(f) && world.is_folder(root, f) ==> !world.broken.contains_key(f)
    &&& forall|x: Seq<char>|
        #[trigger] done.contains(x) && (x != root || include_root) ==> world.clean(policy, x)
            && !world.unreadable.contains_key(x)
}

/// What a complete walk without a failure has claimed is sealed.
pub proof fn lemma_clean_walk_seals(run: TraversalView, world: World)
    requires
        sound(run, world),
        run.phase is Finished,
        run.ledger.failures.len() == 0,
    ensures
        sealed(
            world,
            run.ledger.policy,
            run.ledger.root,
            run.ledger.include_root,
            run.ledger.claimed.to_set(),
        ),
{
    let ledger = run.ledger;
    let done = ledger.claimed.to_set();
    assert(ledger.claimed.contains(ledger.claimed[0]));
    assert forall|f: Seq<char>| #[trigger]
        done.contains(f) && world.is_folder(ledger.root, f) implies !world.broken.contains_key(f) by {
        assert(listed(ledger, world, None, f));
        if world.broken.contains_key(f) {
            assert(failed(ledger, f));
        }
    }
    assert forall|f: Seq<char>, c: Seq<char>|
        done.contains(f) && world.is_folder(ledger.root, f) && #[trigger] world.child_of(
            f,
            c,
        ) implies done.contains(c) by {
        assert(listed(ledger, world, None, f));
        assert(!waits(Seq::<ResourceView>::empty(), 0, c));
    }
    assert forall|x: Seq<char>| #[trigger]
        done.contains(x) && (x != ledger.root || ledger.include_root) implies world.clean(
        ledger.policy,
        x,
    ) && !world.unreadable.contains_key(x) by {
        let i = choose|i: int| 0 <= i < ledger.claimed.len() && ledger.claimed[i] == x;
        if ledger.include_root {
            assert(ledger.inspected()[i] == x);
        } else {
            assert(i != 0);
            assert(ledger.inspected()[i - 1] == x);
        }
        assert(settled(ledger, world, x));
    }
}

/// What holds between two answers of a run that stays within a sealed
/// set: nothing is on record as revoked or failed, and no delete call is
/// under way.
pub open spec fn calm(run: TraversalView, world: World, done: Set<Seq<char>>) -> bool {
    &&& run.wf()
    &&& calm_ledger(run.ledger, world, done)
    &&& match run.phase {
        PhaseView::Listing(lister) => {
            &&& listing_in_step(world, lister)
            &&& world.is_folder(run.ledger.root, lister.folder)
        },
        PhaseView::Inspecting { siblings, cursor, sanitizer } => {
            &&& inspection_in_step(world, sanitizer)
            &&& calm_siblings(world, done, siblings, cursor + 1)
        },
        PhaseView::Finished => true,
        PhaseView::Aborted(_) => false,
    }
}

/// The part of [`calm`] that speaks of the ledger.
pub open spec fn calm_ledger(ledger: LedgerView, world: World, done: Set<Seq<char>>) -> bool {
    &&& ledger.wf()
    &&& sealed(world, ledger.policy, ledger.root, ledger.include_root, done)
    &&& ledger.revoked.len() == 0
    &&& ledger.failures.len() == 0
    &&& forall|i: int| 0 <= i < ledger.claimed.len() ==> done.contains(#[trigger] ledger.claimed[i])
    &&& forall|i: int|
        0 <= i < ledger.frontier.len() ==> world.is_folder(ledger.root, #[trigger] ledger.frontier[i])
}

/// The part of [`calm`] that speaks of the siblings still to be turned
/// to: they are shown as the service shows them, and lie in the sealed
/// set.
pub open spec fn calm_siblings(
    world: World,
    done: Set<Seq<char>>,
    siblings: Seq<ResourceView>,
    from: int,
) -> bool {
    forall|j: int|
        from <= j < siblings.len() ==> #[trigger] siblings[j] == world.record(siblings[j].id)
            && done.contains(siblings[j].id)
}

/// Turning to the siblings that follow keeps a run calm.
pub proof fn lemma_settle_calm(
    ledger: LedgerView,
    world: World,
    done: Set<Seq<char>>,
    siblings: Seq<ResourceView>,
    from: int,
)
    requires
        calm_ledger(ledger, world, done),
        calm_siblings(world, done, siblings, from),
        0 <= from,
    ensures
        calm(ledger.settle(siblings, from), world, done),
    decreases siblings.len() - from,
{
    ledger.lemma_settle_wf(siblings, from);
    if from >= siblings.len() {
        ledger.lemma_next_folder_wf();
        if ledger.frontier.len() > 0 {
            let next = ledger.next_folder().ledger;
            lemma_listing_begins(world, ledger.frontier.last());
            assert forall|i: int| 0 <= i < next.frontier.len() implies world.is_folder(
                next.root,
                #[trigger] next.frontier[i],
            ) by {
                assert(next.frontier[i] == ledger.frontier[i]);
            }
            assert(world.is_folder(ledger.root, ledger.frontier[ledger.frontier.len() - 1]));
        }
    } else if ledger.claimed.contains(siblings[from].id) {
        lemma_settle_calm(ledger, world, done, siblings, from + 1);
    } else {
        let x = siblings[from];
        let next = ledger.claim(x);
        ledger.lemma_claim_wf(x);
        lemma_inspection_begins(world, x.id, ledger.policy);
        assert(x == world.record(x.id) && done.contains(x.id));
        assert forall|i: int| 0 <= i < next.claimed.len() implies done.contains(
            #[trigger] next.claimed[i],
        ) by {
            if i < ledger.claimed.len() {
                assert(next.claimed[i] == ledger.claimed[i]);
            }
        }
        assert forall|i: int| 0 <= i < next.frontier.len() implies world.is_folder(
            next.root,
            #[trigger] next.frontier[i],
        ) by {
            if i < ledger.frontier.len() {
                assert(next.frontier[i] == ledger.frontier[i]);
            }
        }
    }
}

/// Every call that the service answers keeps a calm run calm, and the
/// service as it is.
pub proof fn lemma_answer_calm(run: TraversalView, world: World, done: Set<Seq<char>>)
    requires
        calm(run, world, done),
        world.answer(run.pending()) is Some,
    ensures
        calm(run.step(world.answer(run.pending()).unwrap()), world, done),
        world.after(run.pending()) == world,
{
    let ledger = run.ledger;
    let event = world.answer(run.pending()).unwrap();
    match run.phase {
        PhaseView::Listing(lister) => {
            let folder = lister.folder;
            let i = choose|i: int| 0 <= i < ledger.claimed.len() && ledger.claimed[i] == folder;
            assert(done.contains(ledger.claimed[i]));
            assert(!world.broken.contains_key(folder));
            lemma_children_page(world, lister);
            let reply = event->Children_0;
            match lister.on_children(reply) {
                ListProgressView::More(later) => {
                    assert(run.step(event) == TraversalView {
                        phase: PhaseView::Listing(later),
                        ..run
                    });
                },
                ListProgressView::Complete(children) => {
                    assert(run.step(event) == ledger.settle(children, 0));
                    assert forall|j: int| 0 <= j < children.len() implies #[trigger] children[j]
                        == world.record(children[j].id) && done.contains(children[j].id) by {
                        let ids = world.resources[folder].children;
                        assert(ids.contains(ids[j]));
                        assert(world.child_of(folder, children[j].id));
                    }
                    lemma_settle_calm(ledger, world, done, children, 0);
                },
                ListProgressView::Failed(_) => {},
            }
        },
        PhaseView::Inspecting { siblings, cursor, sanitizer } => {
            let resource = sanitizer.resource;
            let held = world.permissions_of(resource);
            let last = ledger.claimed.len() - 1;
            assert(done.contains(ledger.claimed[last]));
            if ledger.claimed.len() > 1 {
                assert(ledger.claimed[last] != ledger.claimed[0]);
            }
            assert(world.clean(ledger.policy, resource) && !world.unreadable.contains_key(resource));
            let after = sanitizer.step(event);
            lemma_permissions_page(world, sanitizer);
            assert(run.step(event) == ledger.resume(siblings, cursor, after));
            if after.stage != SanitizeStage::Listing {
                lemma_settle_calm(ledger, world, done, siblings, cursor + 1);
            }
        },
        _ => {},
    }
}

/// A run from a calm state stays calm and leaves the service as it is,
/// however many calls it makes.
pub proof fn lemma_drive_calm(run: TraversalView, world: World, done: Set<Seq<char>>, steps: nat)
    requires
        calm(run, world, done),
    ensures
        calm(drive(run, world, steps).0, world, done),
        drive(run, world, steps).1 == world,
    decreases steps,
{
    if steps > 0 && world.answer(run.pending()) is Some {
        lemma_answer_calm(run, world, done);
        lemma_drive_calm(run.step(world.answer(run.pending()).unwrap()), world, done, (steps - 1) as nat);
    }
}

/// A run within a sealed set begins calm.
pub proof fn lemma_start_calm(
    world: World,
    root: Seq<char>,
    policy: crate::policy::Policy,
    include_root: bool,
    done: Set<Seq<char>>,
)
    requires
        sealed(world, policy, root, include_root, done),
    ensures
        calm(TraversalView::start(root, policy, include_root), world, done),
{
    TraversalView::lemma_start_wf(root, policy, include_root);
    lemma_listing_begins(world, root);
    lemma_inspection_begins(world, root, policy);
}

/// Whether no permission on `id` that `policy` forbids goes by the
/// identifier of `permission`.
pub open spec fn unshadowed(
    world: World,
    policy: crate::policy::Policy,
    id: Seq<char>,
    permission: PermissionView,
) -> bool {
    forall|i: int|
        0 <= i < world.permissions_of(id).len() && (#[trigger] world.permissions_of(id)[i]).id
            == permission.id ==> !policy.matches(world.permissions_of(id)[i])
}

/// What holds between two answers of a permission on `id` that the run
/// is not to touch: the resource holds it, nothing forbidden goes by its
/// identifier, and where `id` is under inspection, no delete call for its
/// identifier is due.
pub open spec fn spared(
    run: TraversalView,
    world: World,
    id: Seq<char>,
    permission: PermissionView,
) -> bool {
    &&& world.permissions_of(id).contains(permission)
    &&& unshadowed(world, run.ledger.policy, id, permission)
    &&& match run.phase {
        PhaseView::Inspecting { sanitizer, .. } => sanitizer.resource == id && sanitizer.stage
            == SanitizeStage::Revoking ==> forall|j: int|
            0 <= j < sanitizer.targets.len() ==> (#[trigger] sanitizer.targets[j]).id
                != permission.id,
        _ => true,
    }
}

/// Every call that the service answers leaves a spared permission
/// spared.
pub proof fn lemma_answer_spares(
    run: TraversalView,
    world: World,
    id: Seq<char>,
    permission: PermissionView,
)
    requires
        sound(run, world),
        spared(run, world, id, permission),
        world.answer(run.pending()) is Some,
    ensures
        spared(
            run.step(world.answer(run.pending()).unwrap()),
            world.after(run.pending()),
            id,
            permission,
        ),
{
    let event = world.answer(run.pending()).unwrap();
    let next = run.step(event);
    let after = world.after(run.pending());
    let policy = run.ledger.policy;
    run.lemma_step_extends(event);
    match run.phase {
        PhaseView::Listing(lister) => {
            match lister.on_children(event->Children_0) {
                ListProgressView::Complete(children) => {
                    run.ledger.lemma_settle_extends(children, 0);
                },
                ListProgressView::Failed(kind) => {},
                ListProgressView::More(_) => {},
            }
        },
        PhaseView::Inspecting { siblings, cursor, sanitizer } => {
            if sanitizer.stage == SanitizeStage::Listing {
                let later = sanitizer.on_permissions(event->Permissions_0);
                if world.unreadable.contains_key(sanitizer.resource) {
                    let marked = run.ledger.with_failure(
                        unreadable_failure(world, sanitizer.resource),
                    );
                    assert(next == marked.settle(siblings, cursor + 1));
                    marked.lemma_settle_extends(siblings, cursor + 1);
                    return ;
                }
                lemma_permissions_page(world, sanitizer);
                assert(later.listing_error is None);
                assert(next == run.ledger.resume(siblings, cursor, later));
                if later.stage == SanitizeStage::Done {
                    run.ledger.lemma_settle_extends(siblings, cursor + 1);
                } else if later.stage == SanitizeStage::Revoking && sanitizer.resource == id {
                    let held = world.permissions_of(id);
                    assert forall|j: int| 0 <= j < later.targets.len() implies (
                    #[trigger] later.targets[j]).id != permission.id by {
                        held.lemma_filter_pred(policy.matcher(), j);
                        assert(later.targets.contains(later.targets[j]));
                        held.lemma_filter_contains_rev(policy.matcher(), later.targets[j]);
                        let i = choose|i: int| 0 <= i < held.len() && held[i] == later.targets[j];
                        assert(policy.matches(held[i]));
                    }
                }
            } else {
                let target = sanitizer.targets[sanitizer.attempts.len() as int].id;
                let reply = event->Deletion_0;
                let later = sanitizer.on_deletion(reply);
                let marked = if world.stuck.contains_key((sanitizer.resource, target)) {
                    run.ledger.with_failure(stuck_failure(world, sanitizer.resource, target))
                } else {
                    run.ledger.with_revocation(
                        RevocationView { resource: sanitizer.resource, permission: target },
                    )
                };
                assert(next == marked.resume(siblings, cursor, later));
                marked.lemma_settle_extends(siblings, cursor + 1);
                lemma_after_delete(world, sanitizer.resource, target);
                let held = world.permissions_of(id);
                let kept = after.permissions_of(id);
                if sanitizer.resource == id && !world.stuck.contains_key(
                    (sanitizer.resource, target),
                ) {
                    let other = |p: PermissionView| p.id != target;
                    let at = choose|i: int| 0 <= i < held.len() && held[i] == permission;
                    assert(other(held[at]));
                    held.lemma_filter_contains(other, at);
                    assert forall|i: int| 0 <= i < kept.len() && (#[trigger] kept[i]).id
                        == permission.id implies !policy.matches(kept[i]) by {
                        assert(kept.contains(kept[i]));
                        held.lemma_filter_contains_rev(other, kept[i]);
                        let h = choose|h: int| 0 <= h < held.len() && held[h] == kept[i];
                        assert(!policy.matches(held[h]));
                    }
                }
            }
        },
        _ => {},
    }
}

/// A run against the service leaves a spared permission where it is,
/// however many calls it makes.
pub proof fn lemma_drive_spares(
    run: TraversalView,
    world: World,
    steps: nat,
    id: Seq<char>,
    permission: PermissionView,
)
    requires
        sound(run, world),
        spared(run, world, id, permission),
    ensures
        spared(drive(run, world, steps).0, drive(run, world, steps).1, id, permission),
    decreases steps,
{
    if steps > 0 && world.answer(run.pending()) is Some {
        lemma_answer_sound(run, world);
        lemma_answer_spares(run, world, id, permission);
        lemma_drive_spares(
            run.step(world.answer(run.pending()).unwrap()),
            world.after(run.pending()),
            (steps - 1) as nat,
            id,
            permission,
        );
    }
}

} // verus!
