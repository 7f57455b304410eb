//! Why a run against the modelled service comes to an end.

use vstd::prelude::*;
use crate::lister::ListProgressView;
use crate::model::ResourceView;
use crate::sanitizer::SanitizeStage;
use crate::soundness::{
    lemma_after_delete, lemma_answer_sound, lemma_children_page, lemma_page,
    lemma_permissions_page, sound, stuck_failure, unreadable_failure,
};
use crate::traversal::{LedgerView, PhaseView, RevocationView, TraversalView};
use crate::world::{drive, position, World};

verus! {

/// Whether `universe` holds every identifier that the run has claimed or
/// may come to claim: the claimed ones, the siblings that wait their
/// turn, and every child that a listing of the service shows.
pub open spec fn within(run: TraversalView, world: World, universe: Seq<Seq<char>>) -> bool {
    &&& forall|f: Seq<char>, c: Seq<char>| #[trigger] world.child_of(f, c) ==> universe.contains(c)
    &&& claims_within(run.ledger, universe)
    &&& match run.phase {
        PhaseView::Inspecting { siblings, cursor, .. } => siblings_within(
            siblings,
            cursor + 1,
            universe,
        ),
        _ => true,
    }
}

/// Whether `universe` holds every identifier that the ledger has claimed.
pub open spec fn claims_within(ledger: LedgerView, universe: Seq<Seq<char>>) -> bool {
    forall|i: int| 0 <= i < ledger.claimed.len() ==> universe.contains(#[trigger] ledger.claimed[i])
}

/// Whether `universe` holds the identifiers of `siblings` from index
/// `from` on.
pub open spec fn siblings_within(
    siblings: Seq<ResourceView>,
    from: int,
    universe: Seq<Seq<char>>,
) -> bool {
    forall|j: int| from <= j < siblings.len() ==> universe.contains((#[trigger] siblings[j]).id)
}

/// How many identifiers of `universe` are left to claim, at most.
pub open spec fn unclaimed(run: TraversalView, universe: Seq<Seq<char>>) -> int {
    universe.len() - run.ledger.claimed.len()
}

/// How far the work on the current resource is from its last stage.
pub open spec fn rank(run: TraversalView) -> int {
    match run.phase {
        PhaseView::Inspecting { sanitizer, .. } => if sanitizer.stage == SanitizeStage::Listing {
            2
        } else {
            1
        },
        _ => 0,
    }
}

/// How many items the current stage has yet to take in, or to delete.
pub open spec fn remaining(run: TraversalView, world: World) -> int {
    match run.phase {
        PhaseView::Listing(lister) => world.children_shown(lister.folder).len() - position(
            lister.page_token,
        ),
        PhaseView::Inspecting { sanitizer, .. } => if sanitizer.stage == SanitizeStage::Listing {
            world.permissions_of(sanitizer.resource).len() - position(sanitizer.page_token)
        } else {
            sanitizer.targets.len() - sanitizer.attempts.len()
        },
        _ => 0,
    }
}

/// Whether the state `next` is closer to the end of the run than `run`.
pub open spec fn closer(
    next: TraversalView,
    after: World,
    run: TraversalView,
    world: World,
    universe: Seq<Seq<char>>,
) -> bool {
    let a = (unclaimed(next, universe), unclaimed(run, universe));
    let b = (next.ledger.frontier.len(), run.ledger.frontier.len());
    let c = (rank(next), rank(run));
    let d = (remaining(next, after), remaining(run, world));
    &&& a.0 >= 0 && d.0 >= 0
    &&& a.0 < a.1 || (a.0 == a.1 && (b.0 < b.1 || (b.0 == b.1 && (c.0 < c.1 || (c.0 == c.1 && d.0
        < d.1)))))
}

/// A ledger cannot claim more identifiers than there are.
pub proof fn lemma_claims_fit(ledger: LedgerView, universe: Seq<Seq<char>>)
    requires
        ledger.wf(),
        claims_within(ledger, universe),
    ensures
        ledger.claimed.len() <= universe.len(),
{
    let claimed = ledger.claimed;
    claimed.unique_seq_to_set();
    universe.lemma_cardinality_of_set();
    assert(claimed.to_set().subset_of(universe.to_set())) by {
        assert forall|id: Seq<char>| claimed.to_set().contains(id) implies universe.to_set().contains(
            id,
        ) by {
            let i = choose|i: int| 0 <= i < claimed.len() && claimed[i] == id;
            assert(universe.contains(claimed[i]));
        }
    }
    vstd::seq_lib::seq_to_set_is_finite(universe);
    vstd::set_lib::lemma_len_subset(claimed.to_set(), universe.to_set());
}

/// Turning to the siblings that follow claims one identifier more, or
/// takes a folder off the frontier, or ends the walk.
pub proof fn lemma_settle_progress(
    ledger: LedgerView,
    universe: Seq<Seq<char>>,
    siblings: Seq<ResourceView>,
    from: int,
)
    requires
        claims_within(ledger, universe),
        siblings_within(siblings, from, universe),
        0 <= from,
    ensures
        ({
            let next = ledger.settle(siblings, from);
            &&& claims_within(next.ledger, universe)
            &&& match next.phase {
                PhaseView::Inspecting { siblings: rest, cursor, .. } => {
                    &&& siblings_within(rest, cursor + 1, universe)
                    &&& next.ledger.claimed.len() == ledger.claimed.len() + 1
                },
                PhaseView::Listing(_) => {
                    &&& next.ledger.claimed == ledger.claimed
                    &&& next.ledger.frontier.len() == ledger.frontier.len() - 1
                },
                PhaseView::Finished => true,
                PhaseView::Aborted(_) => false,
            }
        }),
    decreases siblings.len() - from,
{
    if from >= siblings.len() {
    } else if ledger.claimed.contains(siblings[from].id) {
        lemma_settle_progress(ledger, universe, siblings, from + 1);
    } else {
        let next = ledger.claim(siblings[from]);
        assert forall|i: int| 0 <= i < next.claimed.len() implies universe.contains(
            #[trigger] next.claimed[i],
        ) by {
            if i < ledger.claimed.len() {
                assert(next.claimed[i] == ledger.claimed[i]);
            } else {
                assert(next.claimed[i] == siblings[from].id);
            }
        }
    }
}

/// Whether the answer to the pending call of `run` leads to a sound state
/// within `universe` in which the run is over, or closer to its end.
pub open spec fn advances(run: TraversalView, world: World, universe: Seq<Seq<char>>) -> bool {
    let next = run.step(world.answer(run.pending()).unwrap());
    let after = world.after(run.pending());
    &&& sound(next, after)
    &&& within(next, after, universe)
    &&& next.pending() is Finish || closer(next, after, run, world, universe)
}

proof fn lemma_measures_fit(run: TraversalView, world: World, universe: Seq<Seq<char>>)
    requires
        sound(run, world),
        within(run, world, universe),
        !(run.pending() is Finish),
    ensures
        unclaimed(run, universe) >= 0,
        remaining(run, world) >= 0,
{
    lemma_claims_fit(run.ledger, universe);
}

proof fn lemma_children_answer_advances(run: TraversalView, world: World, universe: Seq<Seq<char>>)
    requires
        sound(run, world),
        within(run, world, universe),
        run.phase is Listing,
    ensures
        advances(run, world, universe),
{
    let lister = run.phase->Listing_0;
    let event = world.answer(run.pending()).unwrap();
    let next = run.step(event);
    let ledger = run.ledger;
    lemma_answer_sound(run, world);
    if !world.broken.contains_key(lister.folder) {
        lemma_children_page(world, lister);
        if world.resources.contains_key(lister.folder) {
            lemma_page(world, world.children_shown(lister.folder), lister.page_token);
        }
        match lister.on_children(event->Children_0) {
            ListProgressView::Complete(children) => {
                assert forall|j: int| 0 <= j < children.len() implies universe.contains(
                    (#[trigger] children[j]).id,
                ) by {
                    let ids = world.resources[lister.folder].children;
                    assert(ids.contains(ids[j]));
                    assert(world.child_of(lister.folder, children[j].id));
                }
                lemma_settle_progress(ledger, universe, children, 0);
            },
            _ => {},
        }
    }
    if !(next.pending() is Finish) {
        lemma_measures_fit(next, world, universe);
    }
}

proof fn lemma_permissions_answer_advances(run: TraversalView, world: World, universe: Seq<Seq<char>>)
    requires
        sound(run, world),
        within(run, world, universe),
        run.phase matches PhaseView::Inspecting { sanitizer, .. } && sanitizer.stage
            == SanitizeStage::Listing,
    ensures
        advances(run, world, universe),
{
    let siblings = run.phase->Inspecting_siblings;
    let cursor = run.phase->Inspecting_cursor;
    let sanitizer = run.phase->Inspecting_sanitizer;
    let event = world.answer(run.pending()).unwrap();
    let next = run.step(event);
    let ledger = run.ledger;
    lemma_answer_sound(run, world);
    let later = sanitizer.on_permissions(event->Permissions_0);
    if world.unreadable.contains_key(sanitizer.resource) {
        let marked = ledger.with_failure(unreadable_failure(world, sanitizer.resource));
        assert(next == marked.settle(siblings, cursor + 1));
        lemma_settle_progress(marked, universe, siblings, cursor + 1);
    } else {
        lemma_permissions_page(world, sanitizer);
        if world.resources.contains_key(sanitizer.resource) {
            lemma_page(world, world.permissions_of(sanitizer.resource), sanitizer.page_token);
        }
        assert(next == ledger.resume(siblings, cursor, later));
        if later.stage == SanitizeStage::Done {
            lemma_settle_progress(ledger, universe, siblings, cursor + 1);
        }
    }
    if !(next.pending() is Finish) {
        lemma_measures_fit(next, world, universe);
    }
}

proof fn lemma_deletion_answer_advances(run: TraversalView, world: World, universe: Seq<Seq<char>>)
    requires
        sound(run, world),
        within(run, world, universe),
        run.phase matches PhaseView::Inspecting { sanitizer, .. } && sanitizer.stage
            == SanitizeStage::Revoking,
    ensures
        advances(run, world, universe),
{
    let siblings = run.phase->Inspecting_siblings;
    let cursor = run.phase->Inspecting_cursor;
    let sanitizer = run.phase->Inspecting_sanitizer;
    let event = world.answer(run.pending()).unwrap();
    let next = run.step(event);
    let after = world.after(run.pending());
    let ledger = run.ledger;
    lemma_answer_sound(run, world);
    let target = sanitizer.targets[sanitizer.attempts.len() as int].id;
    lemma_after_delete(world, sanitizer.resource, target);
    let later = sanitizer.on_deletion(event->Deletion_0);
    let marked = if world.stuck.contains_key((sanitizer.resource, target)) {
        ledger.with_failure(stuck_failure(world, sanitizer.resource, target))
    } else {
        ledger.with_revocation(RevocationView { resource: sanitizer.resource, permission: target })
    };
    assert(next == marked.resume(siblings, cursor, later));
    if later.stage == SanitizeStage::Done {
        lemma_settle_progress(marked, universe, siblings, cursor + 1);
    }
    assert forall|f: Seq<char>, c: Seq<char>| #[trigger] after.child_of(f, c) implies universe.contains(
        c,
    ) by {
        assert(world.child_of(f, c));
    }
    if !(next.pending() is Finish) {
        lemma_measures_fit(next, after, universe);
    }
}

/// From every sound state within a finite universe, the run is over after
/// finitely many calls: the number of calls comes back.
pub proof fn lemma_run_ends(run: TraversalView, world: World, universe: Seq<Seq<char>>) -> (steps:
    nat)
    requires
        sound(run, world),
        within(run, world, universe),
    ensures
        drive(run, world, steps).0.pending() is Finish,
    decreases unclaimed(run, universe), run.ledger.frontier.len(), rank(run), remaining(run, world),
{
    if run.pending() is Finish {
        return 0;
    }
    let next = run.step(world.answer(run.pending()).unwrap());
    let after = world.after(run.pending());
    match run.phase {
        PhaseView::Listing(_) => lemma_children_answer_advances(run, world, universe),
        PhaseView::Inspecting { sanitizer, .. } => {
            if sanitizer.stage == SanitizeStage::Listing {
                lemma_permissions_answer_advances(run, world, universe);
            } else {
                lemma_deletion_answer_advances(run, world, universe);
            }
        },
        _ => {},
    }
    assert(drive(run, world, 1) == drive(next, after, 0));
    if next.pending() is Finish {
        return 1;
    }
    let more = lemma_run_ends(next, after, universe);
    (more + 1) as nat
}

} // verus!
