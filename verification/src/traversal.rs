//! The walk over the hierarchy: which folder to list, which resource to
//! inspect, and what to record.

use vstd::prelude::*;
use crate::lister::{ChildLister, ListProgress, ListProgressView, ListerView};
use crate::model::{resource_views, PermissionView, Resource, ResourceKind, ResourceView};
use crate::policy::Policy;
use crate::sanitizer::{SanitizeStage, Sanitizer, SanitizerView};
use crate::service::{
    Action, ActionView, ChildrenReply, DeleteReply, ErrorKind, Event, EventView, ListingView,
    PermissionsReply,
};
use crate::text::{holds_text, opt_text, texts};

verus! {

/// A permission that is gone: deleted by this run, or found gone already.
#[derive(Debug, PartialEq, Eq)]
pub struct Revocation {
    pub resource: String,
    pub permission: String,
}

/// A [`Revocation`], as mathematical values.
pub struct RevocationView {
    pub resource: Seq<char>,
    pub permission: Seq<char>,
}

impl View for Revocation {
    type V = RevocationView;

    open spec fn view(&self) -> RevocationView {
        RevocationView { resource: self.resource@, permission: self.permission@ }
    }
}

/// The call that a failure is about.
#[derive(Clone, Copy, PartialEq, Eq, Debug, Structural)]
pub enum Operation {
    ListChildren,
    ListPermissions,
    DeletePermission,
}

/// A call that failed, and the resource that it left unenforced.
#[derive(Debug, PartialEq, Eq)]
pub struct Failure {
    pub resource: String,
    /// The permission that could not be deleted, for a delete call.
    pub permission: Option<String>,
    pub operation: Operation,
    pub kind: ErrorKind,
}

/// A [`Failure`], as mathematical values.
pub struct FailureView {
    pub resource: Seq<char>,
    pub permission: Option<Seq<char>>,
    pub operation: Operation,
    pub kind: ErrorKind,
}

impl View for Failure {
    type V = FailureView;

    open spec fn view(&self) -> FailureView {
        FailureView {
            resource: self.resource@,
            permission: opt_text(self.permission),
            operation: self.operation,
            kind: self.kind,
        }
    }
}

/// The views of a sequence of revocations, in order.
pub open spec fn revocation_views(revocations: Seq<Revocation>) -> Seq<RevocationView> {
    revocations.map_values(|r: Revocation| r@)
}

/// The views of a sequence of failures, in order.
pub open spec fn failure_views(failures: Seq<Failure>) -> Seq<FailureView> {
    failures.map_values(|f: Failure| f@)
}

/// What a run has claimed, queued and recorded, as mathematical values.
pub struct LedgerView {
    pub policy: Policy,
    pub include_root: bool,
    pub root: Seq<char>,
    /// The identifiers that the run has taken on, in the order in which it
    /// met them. The root comes first.
    pub claimed: Seq<Seq<char>>,
    /// The claimed folders whose children are still to be listed.
    pub frontier: Seq<Seq<char>>,
    pub revoked: Seq<RevocationView>,
    pub failures: Seq<FailureView>,
}

/// What a run is doing, as mathematical values.
pub enum PhaseView {
    /// The children of a folder are being listed.
    Listing(ListerView),
    /// The children of the folder listed last are being inspected in turn:
    /// `siblings[cursor]` is under inspection, those before it are done.
    Inspecting { siblings: Seq<ResourceView>, cursor: int, sanitizer: SanitizerView },
    /// The walk is complete.
    Finished,
    /// The root could not be listed: there was nothing to walk.
    Aborted(ErrorKind),
}

/// The state of a [`Traversal`], as mathematical values.
pub struct TraversalView {
    pub ledger: LedgerView,
    pub phase: PhaseView,
}

impl LedgerView {
    /// Nothing is claimed twice, the root is claimed first, and the
    /// frontier holds claimed identifiers, each once.
    pub open spec fn wf(self) -> bool {
        &&& self.claimed.len() > 0
        &&& self.claimed[0] == self.root
        &&& self.claimed.no_duplicates()
        &&& self.frontier.no_duplicates()
        &&& forall|i: int|
            0 <= i < self.frontier.len() ==> self.claimed.contains(#[trigger] self.frontier[i])
    }

    /// The identifiers on which an inspection was begun, in order: all
    /// that are claimed, but for the root where it is left out.
    pub open spec fn inspected(self) -> Seq<Seq<char>> {
        if self.include_root {
            self.claimed
        } else {
            self.claimed.skip(1)
        }
    }

    /// The ledger after `resource` was claimed: a folder joins the
    /// frontier as well.
    pub open spec fn claim(self, resource: ResourceView) -> LedgerView {
        LedgerView {
            claimed: self.claimed.push(resource.id),
            frontier: if resource.kind == ResourceKind::Folder {
                self.frontier.push(resource.id)
            } else {
                self.frontier
            },
            ..self
        }
    }

    /// The ledger with one more revocation on record.
    pub open spec fn with_revocation(self, revocation: RevocationView) -> LedgerView {
        LedgerView { revoked: self.revoked.push(revocation), ..self }
    }

    /// The ledger with one more failure on record.
    pub open spec fn with_failure(self, failure: FailureView) -> LedgerView {
        LedgerView { failures: self.failures.push(failure), ..self }
    }

    /// The state in which the run turns to the folder that joined the
    /// frontier last, or ends where the frontier is empty.
    pub open spec fn next_folder(self) -> TraversalView {
        if self.frontier.len() == 0 {
            TraversalView { ledger: self, phase: PhaseView::Finished }
        } else {
            TraversalView {
                ledger: LedgerView { frontier: self.frontier.drop_last(), ..self },
                phase: PhaseView::Listing(ListerView::start(self.frontier.last())),
            }
        }
    }

    /// The state in which the run turns to the first of `siblings`, from
    /// index `from` on, that is not claimed yet: it claims the resource
    /// and begins to inspect it. Where all are claimed, it turns to the
    /// next folder.
    pub open spec fn settle(self, siblings: Seq<ResourceView>, from: int) -> TraversalView
        decreases siblings.len() - from,
    {
        if from < 0 || from >= siblings.len() {
            self.next_folder()
        } else if self.claimed.contains(siblings[from].id) {
            self.settle(siblings, from + 1)
        } else {
            TraversalView {
                ledger: self.claim(siblings[from]),
                phase: PhaseView::Inspecting {
                    siblings,
                    cursor: from,
                    sanitizer: SanitizerView::start(siblings[from].id, self.policy),
                },
            }
        }
    }

    /// The state after the sanitizer of `siblings[cursor]` took an answer:
    /// the inspection goes on, or, where it is done, the run turns to the
    /// siblings that follow.
    pub open spec fn resume(
        self,
        siblings: Seq<ResourceView>,
        cursor: int,
        sanitizer: SanitizerView,
    ) -> TraversalView {
        if sanitizer.stage == SanitizeStage::Done {
            self.settle(siblings, cursor + 1)
        } else {
            TraversalView { ledger: self, phase: PhaseView::Inspecting { siblings, cursor, sanitizer } }
        }
    }
}

impl TraversalView {
    /// The state in which a run from `root` begins. With `include_root` the
    /// root itself is inspected before its children are listed; without,
    /// the run begins by listing them.
    pub open spec fn start(root: Seq<char>, policy: Policy, include_root: bool) -> TraversalView {
        let ledger = LedgerView {
            policy,
            include_root,
            root,
            claimed: seq![root],
            frontier: Seq::empty(),
            revoked: Seq::empty(),
            failures: Seq::empty(),
        };
        if include_root {
            TraversalView {
                ledger: LedgerView { frontier: seq![root], ..ledger },
                phase: PhaseView::Inspecting {
                    siblings: seq![
                        ResourceView { id: root, kind: ResourceKind::Folder, name: Seq::empty() },
                    ],
                    cursor: 0,
                    sanitizer: SanitizerView::start(root, policy),
                },
            }
        } else {
            TraversalView { ledger, phase: PhaseView::Listing(ListerView::start(root)) }
        }
    }

    /// The invariant of every state that [`TraversalView::start`] and
    /// [`TraversalView::step`] reach.
    pub open spec fn wf(self) -> bool {
        &&& self.ledger.wf()
        &&& match self.phase {
            PhaseView::Listing(lister) => {
                &&& lister.wf()
                &&& self.ledger.claimed.contains(lister.folder)
                &&& !self.ledger.frontier.contains(lister.folder)
            },
            PhaseView::Inspecting { siblings, cursor, sanitizer } => {
                &&& 0 <= cursor < siblings.len()
                &&& sanitizer.wf()
                &&& sanitizer.stage != SanitizeStage::Done
                &&& sanitizer.resource == siblings[cursor].id
                &&& sanitizer.resource == self.ledger.claimed.last()
                &&& sanitizer.policy == self.ledger.policy
                &&& (self.ledger.claimed.len() == 1 ==> self.ledger.include_root)
            },
            PhaseView::Finished => self.ledger.frontier.len() == 0,
            PhaseView::Aborted(_) => true,
        }
    }

    /// The call that the run waits for.
    pub open spec fn pending(self) -> ActionView {
        match self.phase {
            PhaseView::Listing(lister) => lister.pending(),
            PhaseView::Inspecting { sanitizer, .. } => sanitizer.pending(),
            PhaseView::Finished => ActionView::Finish,
            PhaseView::Aborted(_) => ActionView::Finish,
        }
    }

    /// The identifiers on which an inspection was begun, in order.
    pub open spec fn inspected(self) -> Seq<Seq<char>> {
        self.ledger.inspected()
    }

    /// The state after a page of children, or the lack of one, came back.
    /// While more pages are due the listing goes on. A complete listing
    /// hands its children over for inspection. A failed listing is fatal
    /// for the root; for any other folder it is put on record and the run
    /// turns to the next folder. Outside a listing the answer is ignored.
    pub open spec fn on_children(self, reply: ListingView<ResourceView>) -> TraversalView {
        match self.phase {
            PhaseView::Listing(lister) => match lister.on_children(reply) {
                ListProgressView::More(next) => TraversalView {
                    phase: PhaseView::Listing(next),
                    ..self
                },
                ListProgressView::Complete(children) => self.ledger.settle(children, 0),
                ListProgressView::Failed(kind) => if lister.folder == self.ledger.root {
                    TraversalView { phase: PhaseView::Aborted(kind), ..self }
                } else {
                    self.ledger.with_failure(
                        FailureView {
                            resource: lister.folder,
                            permission: None,
                            operation: Operation::ListChildren,
                            kind,
                        },
                    ).next_folder()
                },
            },
            _ => self,
        }
    }

    /// The state after a page of permissions, or the lack of one, came
    /// back. The sanitizer takes it; a failed listing is put on record
    /// against the resource. Outside the listing stage of an inspection
    /// the answer is ignored.
    pub open spec fn on_permissions(self, reply: ListingView<PermissionView>) -> TraversalView {
        match self.phase {
            PhaseView::Inspecting { siblings, cursor, sanitizer } => if sanitizer.stage
                != SanitizeStage::Listing {
                self
            } else {
                let next = sanitizer.on_permissions(reply);
                let ledger = match next.listing_error {
                    Some(kind) => self.ledger.with_failure(
                        FailureView {
                            resource: sanitizer.resource,
                            permission: None,
                            operation: Operation::ListPermissions,
                            kind,
                        },
                    ),
                    None => self.ledger,
                };
                ledger.resume(siblings, cursor, next)
            },
            _ => self,
        }
    }

    /// The state after the pending delete call was answered. A permission
    /// that is gone, by this call or before it, is put on record as
    /// revoked; a failure is put on record against the resource and the
    /// permission. Either way the inspection goes on. Outside the revoking
    /// stage of an inspection the answer is ignored.
    pub open spec fn on_deletion(self, reply: DeleteReply) -> TraversalView {
        match self.phase {
            PhaseView::Inspecting { siblings, cursor, sanitizer } => if sanitizer.stage
                != SanitizeStage::Revoking {
                self
            } else {
                let permission = sanitizer.targets[sanitizer.attempts.len() as int].id;
                let ledger = match reply {
                    DeleteReply::Failed(kind) => self.ledger.with_failure(
                        FailureView {
                            resource: sanitizer.resource,
                            permission: Some(permission),
                            operation: Operation::DeletePermission,
                            kind,
                        },
                    ),
                    _ => self.ledger.with_revocation(
                        RevocationView { resource: sanitizer.resource, permission },
                    ),
                };
                ledger.resume(siblings, cursor, sanitizer.on_deletion(reply))
            },
            _ => self,
        }
    }

    /// The state after `event`.
    pub open spec fn step(self, event: EventView) -> TraversalView {
        match event {
            EventView::Children(reply) => self.on_children(reply),
            EventView::Permissions(reply) => self.on_permissions(reply),
            EventView::Deletion(reply) => self.on_deletion(reply),
        }
    }
}

impl LedgerView {
    /// Turning to the next folder keeps the invariant.
    pub proof fn lemma_next_folder_wf(self)
        requires
            self.wf(),
        ensures
            self.next_folder().wf(),
    {
        if self.frontier.len() > 0 {
            let rest = self.frontier.drop_last();
            assert forall|i: int| 0 <= i < rest.len() implies self.claimed.contains(
                #[trigger] rest[i],
            ) by {
                assert(rest[i] == self.frontier[i]);
            }
            assert(self.claimed.contains(self.frontier[self.frontier.len() - 1]));
        }
    }

    /// Claiming a resource that is not claimed yet keeps the invariant.
    pub proof fn lemma_claim_wf(self, resource: ResourceView)
        requires
            self.wf(),
            !self.claimed.contains(resource.id),
        ensures
            self.claim(resource).wf(),
    {
        let next = self.claim(resource);
        assert(next.claimed[0] == self.claimed[0]);
        assert forall|i: int| 0 <= i < next.frontier.len() implies next.claimed.contains(
            #[trigger] next.frontier[i],
        ) by {
            if i < self.frontier.len() {
                let j = choose|j: int| 0 <= j < self.claimed.len() && self.claimed[j] == self.frontier[i];
                assert(next.claimed[j] == next.frontier[i]);
            } else {
                assert(next.claimed[self.claimed.len() as int] == resource.id);
            }
        }
        assert forall|i: int, j: int|
            0 <= i < next.frontier.len() && 0 <= j < next.frontier.len() && i != j implies next.frontier[i]
            != next.frontier[j] by {
            if i < self.frontier.len() && j < self.frontier.len() {
            } else if i < self.frontier.len() {
                assert(self.claimed.contains(self.frontier[i]));
            } else if j < self.frontier.len() {
                assert(self.claimed.contains(self.frontier[j]));
            }
        }
    }

    /// Turning to the siblings that follow keeps the invariant.
    pub proof fn lemma_settle_wf(self, siblings: Seq<ResourceView>, from: int)
        requires
            self.wf(),
        ensures
            self.settle(siblings, from).wf(),
            self.settle(siblings, from).ledger.revoked == self.revoked,
            self.settle(siblings, from).ledger.failures == self.failures,
        decreases siblings.len() - from,
    {
        if from < 0 || from >= siblings.len() {
            self.lemma_next_folder_wf();
        } else if self.claimed.contains(siblings[from].id) {
            self.lemma_settle_wf(siblings, from + 1);
        } else {
            self.lemma_claim_wf(siblings[from]);
        }
    }

    /// Going on after an answer to the sanitizer keeps the invariant.
    pub proof fn lemma_resume_wf(self, siblings: Seq<ResourceView>, cursor: int, sanitizer: SanitizerView)
        requires
            (TraversalView {
                ledger: self,
                phase: PhaseView::Inspecting { siblings, cursor, sanitizer },
            }).wf() || (self.wf() && sanitizer.stage == SanitizeStage::Done),
        ensures
            self.resume(siblings, cursor, sanitizer).wf(),
    {
        if sanitizer.stage == SanitizeStage::Done {
            self.lemma_settle_wf(siblings, cursor + 1);
        }
    }
}

impl TraversalView {
    /// A run begins in a state that meets the invariant.
    pub proof fn lemma_start_wf(root: Seq<char>, policy: Policy, include_root: bool)
        ensures
            Self::start(root, policy, include_root).wf(),
    {
        let start = Self::start(root, policy, include_root);
        assert(start.ledger.claimed[0] == root);
        if include_root {
            assert(start.ledger.frontier[0] == root);
        }
    }

    /// Every answer leads from a state that meets the invariant to one
    /// that meets it.
    pub proof fn lemma_step_wf(self, event: EventView)
        requires
            self.wf(),
        ensures
            self.step(event).wf(),
    {
        match (self.phase, event) {
            (PhaseView::Listing(lister), EventView::Children(reply)) => {
                match lister.on_children(reply) {
                    ListProgressView::More(next) => {},
                    ListProgressView::Complete(children) => {
                        self.ledger.lemma_settle_wf(children, 0);
                    },
                    ListProgressView::Failed(kind) => {
                        if lister.folder != self.ledger.root {
                            let failure = FailureView {
                                resource: lister.folder,
                                permission: None,
                                operation: Operation::ListChildren,
                                kind,
                            };
                            self.ledger.with_failure(failure).lemma_next_folder_wf();
                        }
                    },
                }
            },
            (PhaseView::Inspecting { siblings, cursor, sanitizer }, EventView::Permissions(reply)) => {
                if sanitizer.stage == SanitizeStage::Listing {
                    sanitizer.lemma_step_wf(event);
                    let next = sanitizer.on_permissions(reply);
                    let ledger = self.step(event).ledger;
                    match next.listing_error {
                        Some(kind) => {
                            let failure = FailureView {
                                resource: sanitizer.resource,
                                permission: None,
                                operation: Operation::ListPermissions,
                                kind,
                            };
                            self.ledger.with_failure(failure).lemma_resume_wf(siblings, cursor, next);
                        },
                        None => {
                            self.ledger.lemma_resume_wf(siblings, cursor, next);
                        },
                    }
                }
            },
            (PhaseView::Inspecting { siblings, cursor, sanitizer }, EventView::Deletion(reply)) => {
                if sanitizer.stage == SanitizeStage::Revoking {
                    sanitizer.lemma_step_wf(event);
                    let next = sanitizer.on_deletion(reply);
                    let permission = sanitizer.targets[sanitizer.attempts.len() as int].id;
                    match reply {
                        DeleteReply::Failed(kind) => {
                            let failure = FailureView {
                                resource: sanitizer.resource,
                                permission: Some(permission),
                                operation: Operation::DeletePermission,
                                kind,
                            };
                            self.ledger.with_failure(failure).lemma_resume_wf(siblings, cursor, next);
                        },
                        _ => {
                            let revocation = RevocationView { resource: sanitizer.resource, permission };
                            self.ledger.with_revocation(revocation).lemma_resume_wf(
                                siblings,
                                cursor,
                                next,
                            );
                        },
                    }
                }
            },
            _ => {},
        }
    }
}

impl LedgerView {
    /// Whether this ledger continues `earlier`: it belongs to the same
    /// run, and holds every claim, revocation and failure that `earlier`
    /// holds, in the same places.
    pub open spec fn extends(self, earlier: LedgerView) -> bool {
        &&& self.policy == earlier.policy
        &&& self.include_root == earlier.include_root
        &&& self.root == earlier.root
        &&& earlier.claimed.is_prefix_of(self.claimed)
        &&& earlier.revoked.is_prefix_of(self.revoked)
        &&& earlier.failures.is_prefix_of(self.failures)
    }

    /// Turning to the siblings that follow takes nothing off the ledger,
    /// and claims at most one resource.
    pub proof fn lemma_settle_extends(self, siblings: Seq<ResourceView>, from: int)
        ensures
            self.settle(siblings, from).ledger.extends(self),
            self.settle(siblings, from).ledger.claimed.len() <= self.claimed.len() + 1,
            self.settle(siblings, from).ledger.revoked == self.revoked,
            self.settle(siblings, from).ledger.failures == self.failures,
            self.settle(siblings, from).phase matches PhaseView::Inspecting { sanitizer, .. }
                ==> sanitizer.stage == SanitizeStage::Listing,
        decreases siblings.len() - from,
    {
        if from < 0 || from >= siblings.len() {
        } else if self.claimed.contains(siblings[from].id) {
            self.lemma_settle_extends(siblings, from + 1);
        } else {
        }
    }
}

impl TraversalView {
    /// No answer takes anything off the ledger, and no answer has more
    /// than one resource claimed.
    pub proof fn lemma_step_extends(self, event: EventView)
        ensures
            self.step(event).ledger.extends(self.ledger),
            self.step(event).ledger.claimed.len() <= self.ledger.claimed.len() + 1,
    {
        match (self.phase, event) {
            (PhaseView::Listing(lister), EventView::Children(reply)) => {
                match lister.on_children(reply) {
                    ListProgressView::More(next) => {},
                    ListProgressView::Complete(children) => {
                        self.ledger.lemma_settle_extends(children, 0);
                    },
                    ListProgressView::Failed(kind) => {},
                }
            },
            (PhaseView::Inspecting { siblings, cursor, sanitizer }, EventView::Permissions(reply)) => {
                if sanitizer.stage == SanitizeStage::Listing {
                    let ledger = match sanitizer.on_permissions(reply).listing_error {
                        Some(kind) => self.ledger.with_failure(
                            FailureView {
                                resource: sanitizer.resource,
                                permission: None,
                                operation: Operation::ListPermissions,
                                kind,
                            },
                        ),
                        None => self.ledger,
                    };
                    ledger.lemma_settle_extends(siblings, cursor + 1);
                }
            },
            (PhaseView::Inspecting { siblings, cursor, sanitizer }, EventView::Deletion(reply)) => {
                if sanitizer.stage == SanitizeStage::Revoking {
                    let permission = sanitizer.targets[sanitizer.attempts.len() as int].id;
                    let ledger = match reply {
                        DeleteReply::Failed(kind) => self.ledger.with_failure(
                            FailureView {
                                resource: sanitizer.resource,
                                permission: Some(permission),
                                operation: Operation::DeletePermission,
                                kind,
                            },
                        ),
                        _ => self.ledger.with_revocation(
                            RevocationView { resource: sanitizer.resource, permission },
                        ),
                    };
                    ledger.lemma_settle_extends(siblings, cursor + 1);
                }
            },
            _ => {},
        }
    }
}

/// What a run has to show for itself.
#[derive(Debug, PartialEq, Eq)]
pub struct TraversalOutcome {
    /// The resources that the run took on, the root first.
    pub visited: Vec<String>,
    /// The permissions that are gone.
    pub revoked: Vec<Revocation>,
    /// The calls that failed.
    pub failures: Vec<Failure>,
    /// Whether the walk came to its end.
    pub complete: bool,
}

/// A [`TraversalOutcome`], as mathematical values.
pub struct OutcomeView {
    pub visited: Seq<Seq<char>>,
    pub revoked: Seq<RevocationView>,
    pub failures: Seq<FailureView>,
    pub complete: bool,
}

impl View for TraversalOutcome {
    type V = OutcomeView;

    open spec fn view(&self) -> OutcomeView {
        OutcomeView {
            visited: texts(self.visited@),
            revoked: revocation_views(self.revoked@),
            failures: failure_views(self.failures@),
            complete: self.complete,
        }
    }
}

impl TraversalOutcome {
    /// The number of resources that the run took on.
    pub fn visited_count(&self) -> (count: usize)
        ensures
            count == self@.visited.len(),
    {
        self.visited.len()
    }

    /// The number of permissions that are gone.
    pub fn revoked_count(&self) -> (count: usize)
        ensures
            count == self@.revoked.len(),
    {
        self.revoked.len()
    }

    /// Whether no call failed. A run with a failure on record has not
    /// enforced the policy everywhere, however far it walked.
    pub fn succeeded(&self) -> (success: bool)
        ensures
            success == (self@.failures.len() == 0),
    {
        self.failures.len() == 0
    }
}

impl TraversalView {
    /// What the run has to show in this state: its records, or the error
    /// that kept it from listing the root.
    pub open spec fn outcome(self) -> Result<OutcomeView, ErrorKind> {
        match self.phase {
            PhaseView::Aborted(kind) => Err(kind),
            phase => Ok(
                OutcomeView {
                    visited: self.ledger.claimed,
                    revoked: self.ledger.revoked,
                    failures: self.ledger.failures,
                    complete: phase is Finished,
                },
            ),
        }
    }
}

struct Ledger {
    policy: Policy,
    include_root: bool,
    root: String,
    claimed: Vec<String>,
    frontier: Vec<String>,
    revoked: Vec<Revocation>,
    failures: Vec<Failure>,
}

impl View for Ledger {
    type V = LedgerView;

    closed spec fn view(&self) -> LedgerView {
        LedgerView {
            policy: self.policy,
            include_root: self.include_root,
            root: self.root@,
            claimed: texts(self.claimed@),
            frontier: texts(self.frontier@),
            revoked: revocation_views(self.revoked@),
            failures: failure_views(self.failures@),
        }
    }
}

enum Phase {
    Listing(ChildLister),
    Inspecting { siblings: Vec<Resource>, cursor: usize, sanitizer: Sanitizer },
    Finished,
    Aborted(ErrorKind),
}

impl View for Phase {
    type V = PhaseView;

    closed spec fn view(&self) -> PhaseView {
        match *self {
            Phase::Listing(lister) => PhaseView::Listing(lister@),
            Phase::Inspecting { siblings, cursor, sanitizer } => PhaseView::Inspecting {
                siblings: resource_views(siblings@),
                cursor: cursor as int,
                sanitizer: sanitizer@,
            },
            Phase::Finished => PhaseView::Finished,
            Phase::Aborted(kind) => PhaseView::Aborted(kind),
        }
    }
}

impl Ledger {
    fn with_failure(self, failure: Failure) -> (next: Ledger)
        ensures
            next@ == self@.with_failure(failure@),
    {
        let mut failures = self.failures;
        let ghost before = failure_views(failures@);
        let ghost added = failure@;
        failures.push(failure);
        assert(failure_views(failures@) =~= before.push(added));
        Ledger {
            policy: self.policy,
            include_root: self.include_root,
            root: self.root,
            claimed: self.claimed,
            frontier: self.frontier,
            revoked: self.revoked,
            failures,
        }
    }

    fn with_revocation(self, revocation: Revocation) -> (next: Ledger)
        ensures
            next@ == self@.with_revocation(revocation@),
    {
        let mut revoked = self.revoked;
        let ghost before = revocation_views(revoked@);
        let ghost added = revocation@;
        revoked.push(revocation);
        assert(revocation_views(revoked@) =~= before.push(added));
        Ledger {
            policy: self.policy,
            include_root: self.include_root,
            root: self.root,
            claimed: self.claimed,
            frontier: self.frontier,
            revoked,
            failures: self.failures,
        }
    }

    fn next_folder(self) -> (next: Traversal)
        requires
            self@.wf(),
        ensures
            next@ == self@.next_folder(),
    {
        proof {
            self@.lemma_next_folder_wf();
        }
        let mut frontier = self.frontier;
        let ghost before = texts(frontier@);
        match frontier.pop() {
            Some(folder) => {
                assert(texts(frontier@) =~= before.drop_last());
                assert(folder@ == before.last());
                Traversal {
                    ledger: Ledger {
                        policy: self.policy,
                        include_root: self.include_root,
                        root: self.root,
                        claimed: self.claimed,
                        frontier,
                        revoked: self.revoked,
                        failures: self.failures,
                    },
                    phase: Phase::Listing(ChildLister::new(folder)),
                }
            },
            None => {
                assert(texts(frontier@) =~= before);
                Traversal {
                    ledger: Ledger {
                        policy: self.policy,
                        include_root: self.include_root,
                        root: self.root,
                        claimed: self.claimed,
                        frontier,
                        revoked: self.revoked,
                        failures: self.failures,
                    },
                    phase: Phase::Finished,
                }
            },
        }
    }

    fn settle(self, siblings: Vec<Resource>, from: usize) -> (next: Traversal)
        requires
            self@.wf(),
        ensures
            next@ == self@.settle(resource_views(siblings@), from as int),
    {
        let ghost views = resource_views(siblings@);
        let mut at: usize = from;
        while at < siblings.len()
            invariant
                from <= at,
                views == resource_views(siblings@),
                self@.wf(),
                self@.settle(views, at as int) == self@.settle(views, from as int),
            decreases siblings.len() - at,
        {
            assert(views[at as int] == siblings@[at as int]@);
            if !holds_text(&self.claimed, &siblings[at].id) {
                proof {
                    self@.lemma_settle_wf(views, at as int);
                }
                let id = siblings[at].id.clone();
                let mut claimed = self.claimed;
                let ghost claimed_before = texts(claimed@);
                claimed.push(id.clone());
                assert(texts(claimed@) =~= claimed_before.push(id@));
                let mut frontier = self.frontier;
                let ghost frontier_before = texts(frontier@);
                match siblings[at].kind {
                    ResourceKind::Folder => {
                        frontier.push(id.clone());
                        assert(texts(frontier@) =~= frontier_before.push(id@));
                    },
                    ResourceKind::File => {},
                }
                let sanitizer = Sanitizer::new(id, self.policy);
                return Traversal {
                    ledger: Ledger {
                        policy: self.policy,
                        include_root: self.include_root,
                        root: self.root,
                        claimed,
                        frontier,
                        revoked: self.revoked,
                        failures: self.failures,
                    },
                    phase: Phase::Inspecting { siblings, cursor: at, sanitizer },
                };
            }
            at += 1;
        }
        self.next_folder()
    }

    fn resume(self, siblings: Vec<Resource>, cursor: usize, sanitizer: Sanitizer) -> (next:
        Traversal)
        requires
            (TraversalView {
                ledger: self@,
                phase: PhaseView::Inspecting {
                    siblings: resource_views(siblings@),
                    cursor: cursor as int,
                    sanitizer: sanitizer@,
                },
            }).wf() || (self@.wf() && sanitizer@.stage == SanitizeStage::Done),
            cursor < siblings.len(),
        ensures
            next@ == self@.resume(resource_views(siblings@), cursor as int, sanitizer@),
    {
        proof {
            self@.lemma_resume_wf(resource_views(siblings@), cursor as int, sanitizer@);
        }
        match sanitizer.stage() {
            SanitizeStage::Done => self.settle(siblings, cursor + 1),
            _ => Traversal { ledger: self, phase: Phase::Inspecting { siblings, cursor, sanitizer } },
        }
    }
}

/// A run over the hierarchy below one folder, driven by the answers of the
/// service: ask it for the call to make with [`Traversal::pending`], make
/// the call, and hand the answer to [`Traversal::step`].
pub struct Traversal {
    ledger: Ledger,
    phase: Phase,
}

impl View for Traversal {
    type V = TraversalView;

    closed spec fn view(&self) -> TraversalView {
        TraversalView { ledger: self.ledger@, phase: self.phase@ }
    }
}

impl Traversal {
    #[verifier::type_invariant]
    closed spec fn inv(&self) -> bool {
        self@.wf()
    }

    /// Begins a run from the folder `root` under `policy`. With
    /// `include_root` the root's own permissions are inspected too.
    pub fn new(root: String, policy: Policy, include_root: bool) -> (run: Traversal)
        ensures
            run@ == TraversalView::start(root@, policy, include_root),
            run@.wf(),
    {
        proof {
            TraversalView::lemma_start_wf(root@, policy, include_root);
        }
        let mut claimed: Vec<String> = Vec::new();
        claimed.push(root.clone());
        assert(texts(claimed@) =~= seq![root@]);
        let mut frontier: Vec<String> = Vec::new();
        assert(texts(frontier@) =~= Seq::empty());
        let revoked: Vec<Revocation> = Vec::new();
        let failures: Vec<Failure> = Vec::new();
        assert(revocation_views(revoked@) =~= Seq::empty());
        assert(failure_views(failures@) =~= Seq::empty());
        if include_root {
            frontier.push(root.clone());
            assert(texts(frontier@) =~= seq![root@]);
            let mut siblings: Vec<Resource> = Vec::new();
            siblings.push(Resource { id: root.clone(), kind: ResourceKind::Folder, name: String::new() });
            assert(resource_views(siblings@) =~= seq![
                ResourceView { id: root@, kind: ResourceKind::Folder, name: Seq::empty() },
            ]);
            let sanitizer = Sanitizer::new(root.clone(), policy);
            Traversal {
                ledger: Ledger { policy, include_root, root, claimed, frontier, revoked, failures },
                phase: Phase::Inspecting { siblings, cursor: 0, sanitizer },
            }
        } else {
            let lister = ChildLister::new(root.clone());
            Traversal {
                ledger: Ledger { policy, include_root, root, claimed, frontier, revoked, failures },
                phase: Phase::Listing(lister),
            }
        }
    }

    /// The call to make next. [`Action::Finish`] says that the run is
    /// over.
    pub fn pending(&self) -> (action: Action)
        ensures
            action@ == self@.pending(),
    {
        match &self.phase {
            Phase::Listing(lister) => lister.pending(),
            Phase::Inspecting { sanitizer, .. } => sanitizer.pending(),
            Phase::Finished => Action::Finish,
            Phase::Aborted(_) => Action::Finish,
        }
    }

    /// Whether the run is over, by completing the walk or by failing to
    /// list the root.
    pub fn is_over(&self) -> (over: bool)
        ensures
            over == (self@.phase is Finished || self@.phase is Aborted),
            over == (self@.pending() is Finish),
    {
        proof {
            use_type_invariant(self);
        }
        match &self.phase {
            Phase::Finished => true,
            Phase::Aborted(_) => true,
            _ => false,
        }
    }

    /// Takes the answer to a request for a page of children.
    pub fn on_children(self, reply: ChildrenReply) -> (next: Traversal)
        ensures
            next@ == self@.on_children(reply@),
            self@.wf() && next@.wf(),
    {
        proof {
            use_type_invariant(&self);
            self@.lemma_step_wf(EventView::Children(reply@));
        }
        match self.phase {
            Phase::Listing(lister) => {
                let folder = lister.folder().clone();
                match lister.on_children(reply) {
                    ListProgress::More(next) => Traversal {
                        ledger: self.ledger,
                        phase: Phase::Listing(next),
                    },
                    ListProgress::Complete(children) => self.ledger.settle(children, 0),
                    ListProgress::Failed(kind) => {
                        if folder == self.ledger.root {
                            Traversal { ledger: self.ledger, phase: Phase::Aborted(kind) }
                        } else {
                            let failure = Failure {
                                resource: folder,
                                permission: None,
                                operation: Operation::ListChildren,
                                kind,
                            };
                            self.ledger.with_failure(failure).next_folder()
                        }
                    },
                }
            },
            phase => Traversal { ledger: self.ledger, phase },
        }
    }

    /// Takes the answer to a request for a page of permissions.
    pub fn on_permissions(self, reply: PermissionsReply) -> (next: Traversal)
        ensures
            next@ == self@.on_permissions(reply@),
            self@.wf() && next@.wf(),
    {
        proof {
            use_type_invariant(&self);
            self@.lemma_step_wf(EventView::Permissions(reply@));
        }
        match self.phase {
            Phase::Inspecting { siblings, cursor, sanitizer } => {
                match sanitizer.stage() {
                    SanitizeStage::Listing => {
                        let resource = siblings[cursor].id.clone();
                        let next = sanitizer.on_permissions(reply);
                        let ledger = match next.listing_error() {
                            Some(kind) => self.ledger.with_failure(
                                Failure {
                                    resource,
                                    permission: None,
                                    operation: Operation::ListPermissions,
                                    kind,
                                },
                            ),
                            None => self.ledger,
                        };
                        ledger.resume(siblings, cursor, next)
                    },
                    _ => Traversal {
                        ledger: self.ledger,
                        phase: Phase::Inspecting { siblings, cursor, sanitizer },
                    },
                }
            },
            phase => Traversal { ledger: self.ledger, phase },
        }
    }

    /// Takes the answer to a delete call.
    pub fn on_deletion(self, reply: DeleteReply) -> (next: Traversal)
        ensures
            next@ == self@.on_deletion(reply),
            self@.wf() && next@.wf(),
    {
        proof {
            use_type_invariant(&self);
            self@.lemma_step_wf(EventView::Deletion(reply));
        }
        match self.phase {
            Phase::Inspecting { siblings, cursor, sanitizer } => {
                match sanitizer.pending() {
                    Action::DeletePermission { resource, permission } => {
                        let next = sanitizer.on_deletion(reply);
                        let ledger = match reply {
                            DeleteReply::Failed(kind) => self.ledger.with_failure(
                                Failure {
                                    resource,
                                    permission: Some(permission),
                                    operation: Operation::DeletePermission,
                                    kind,
                                },
                            ),
                            _ => self.ledger.with_revocation(Revocation { resource, permission }),
                        };
                        ledger.resume(siblings, cursor, next)
                    },
                    _ => Traversal {
                        ledger: self.ledger,
                        phase: Phase::Inspecting { siblings, cursor, sanitizer },
                    },
                }
            },
            phase => Traversal { ledger: self.ledger, phase },
        }
    }

    /// Takes whatever the service answered to the pending call, and
    /// decides what comes next.
    pub fn step(self, event: Event) -> (next: Traversal)
        ensures
            next@ == self@.step(event@),
            self@.wf() && next@.wf(),
    {
        match event {
            Event::Children(reply) => self.on_children(reply),
            Event::Permissions(reply) => self.on_permissions(reply),
            Event::Deletion(reply) => self.on_deletion(reply),
        }
    }

    /// Ends the run and hands out what it has to show. A run that could
    /// not list its root has nothing to show but the error. A run that is
    /// ended before its walk is over reports what it did until then.
    pub fn conclude(self) -> (outcome: Result<TraversalOutcome, ErrorKind>)
        ensures
            match outcome {
                Ok(records) => self@.outcome() == Ok::<OutcomeView, ErrorKind>(records@),
                Err(kind) => self@.outcome() == Err::<OutcomeView, ErrorKind>(kind),
            },
    {
        match self.phase {
            Phase::Aborted(kind) => Err(kind),
            Phase::Finished => Ok(
                TraversalOutcome {
                    visited: self.ledger.claimed,
                    revoked: self.ledger.revoked,
                    failures: self.ledger.failures,
                    complete: true,
                },
            ),
            _ => Ok(
                TraversalOutcome {
                    visited: self.ledger.claimed,
                    revoked: self.ledger.revoked,
                    failures: self.ledger.failures,
                    complete: false,
                },
            ),
        }
    }
}

} // verus!
