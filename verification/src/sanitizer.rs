//! Inspecting one resource: list its permissions, page by page, then delete
//! those that the policy forbids.

use vstd::prelude::*;
use crate::model::{permission_views, Permission, PermissionView};
use crate::policy::Policy;
use crate::service::{
    continuation, continue_with, Action, ActionView, DeleteReply, ErrorKind, Event, EventView,
    ListingView, PermissionsReply,
};
use crate::text::opt_text;

verus! {

/// How far the inspection of a resource has come.
#[derive(Clone, Copy, PartialEq, Eq, Debug, Structural)]
pub enum SanitizeStage {
    /// Pages of the permission list are still being fetched.
    Listing,
    /// The list is complete and a delete call is under way.
    Revoking,
    /// Nothing is left to do on this resource.
    Done,
}

/// One delete call and how it ended.
#[derive(Debug, PartialEq, Eq)]
pub struct Attempt {
    pub permission: String,
    pub reply: DeleteReply,
}

/// An [`Attempt`], as mathematical values.
pub struct AttemptView {
    pub permission: Seq<char>,
    pub reply: DeleteReply,
}

impl View for Attempt {
    type V = AttemptView;

    open spec fn view(&self) -> AttemptView {
        AttemptView { permission: self.permission@, reply: self.reply }
    }
}

/// The views of a sequence of attempts, in order.
pub open spec fn attempt_views(attempts: Seq<Attempt>) -> Seq<AttemptView> {
    attempts.map_values(|a: Attempt| a@)
}

/// How many of `attempts` left their permission absent.
pub open spec fn revoked_among(attempts: Seq<AttemptView>) -> nat {
    attempts.filter(|a: AttemptView| a.reply.absent()).len()
}

/// How many of `attempts` failed.
pub open spec fn skipped_among(attempts: Seq<AttemptView>) -> nat {
    attempts.filter(|a: AttemptView| !a.reply.absent()).len()
}

/// The permissions among `attempts` whose delete call failed, each with
/// the kind of its error, in order.
pub open spec fn failures_among(attempts: Seq<AttemptView>) -> Seq<(Seq<char>, ErrorKind)>
    decreases attempts.len(),
{
    if attempts.len() == 0 {
        Seq::empty()
    } else {
        let before = failures_among(attempts.drop_last());
        match attempts.last().reply {
            DeleteReply::Failed(kind) => before.push((attempts.last().permission, kind)),
            _ => before,
        }
    }
}

/// The views of a sequence of permission identifiers with error kinds.
pub open spec fn failure_pairs(failures: Seq<(String, ErrorKind)>) -> Seq<(Seq<char>, ErrorKind)> {
    failures.map_values(|f: (String, ErrorKind)| (f.0@, f.1))
}

/// The state of a [`Sanitizer`], as mathematical values.
pub struct SanitizerView {
    pub resource: Seq<char>,
    pub policy: Policy,
    pub stage: SanitizeStage,
    /// The token for the next page, while listing.
    pub page_token: Option<Seq<char>>,
    /// The permissions listed so far.
    pub listed: Seq<PermissionView>,
    /// The permissions to revoke, known once the list is complete.
    pub targets: Seq<PermissionView>,
    /// The delete calls that have been answered.
    pub attempts: Seq<AttemptView>,
    /// Why the listing failed, where it did.
    pub listing_error: Option<ErrorKind>,
}

impl SanitizerView {
    /// The state in which the inspection of `resource` begins.
    pub open spec fn start(resource: Seq<char>, policy: Policy) -> SanitizerView {
        SanitizerView {
            resource,
            policy,
            stage: SanitizeStage::Listing,
            page_token: None,
            listed: Seq::empty(),
            targets: Seq::empty(),
            attempts: Seq::empty(),
            listing_error: None,
        }
    }

    /// The invariant of every state that [`SanitizerView::start`] and the
    /// transitions reach.
    pub open spec fn wf(self) -> bool {
        &&& self.attempts.len() <= self.targets.len()
        &&& forall|i: int|
            0 <= i < self.attempts.len() ==> (#[trigger] self.attempts[i]).permission
                == self.targets[i].id
        &&& match self.stage {
            SanitizeStage::Listing => {
                &&& self.targets.len() == 0
                &&& self.listing_error is None
                &&& continuation(self.page_token) == self.page_token
            },
            SanitizeStage::Revoking => {
                &&& self.targets == self.policy.targets(self.listed)
                &&& self.attempts.len() < self.targets.len()
                &&& self.listing_error is None
                &&& self.page_token is None
            },
            SanitizeStage::Done => {
                &&& self.page_token is None
                &&& if self.listing_error is Some {
                    self.targets.len() == 0
                } else {
                    &&& self.targets == self.policy.targets(self.listed)
                    &&& self.attempts.len() == self.targets.len()
                }
            },
        }
    }

    /// The call that the inspection waits for.
    pub open spec fn pending(self) -> ActionView {
        match self.stage {
            SanitizeStage::Listing => ActionView::ListPermissions {
                resource: self.resource,
                page_token: self.page_token,
            },
            SanitizeStage::Revoking => ActionView::DeletePermission {
                resource: self.resource,
                permission: self.targets[self.attempts.len() as int].id,
            },
            SanitizeStage::Done => ActionView::Finish,
        }
    }

    /// The state once the permission list is known to be `listed`: the
    /// targets are picked, and the first delete call is due unless there
    /// is none to make.
    pub open spec fn with_full_list(self, listed: Seq<PermissionView>) -> SanitizerView {
        let targets = self.policy.targets(listed);
        SanitizerView {
            stage: if targets.len() == 0 {
                SanitizeStage::Done
            } else {
                SanitizeStage::Revoking
            },
            page_token: None,
            listed,
            targets,
            ..self
        }
    }

    /// The state after a page of the permission list, or the lack of one,
    /// came back. A page with a continuation token is kept and the next one
    /// asked for; the last page completes the list. A resource that is gone
    /// has no permissions. A failure ends the inspection with nothing
    /// deleted. Outside the listing stage the answer is ignored.
    pub open spec fn on_permissions(self, reply: ListingView<PermissionView>) -> SanitizerView {
        if self.stage != SanitizeStage::Listing {
            self
        } else {
            match reply {
                ListingView::Page { items, next_page_token } => match continuation(
                    next_page_token,
                ) {
                    Some(token) => SanitizerView {
                        page_token: Some(token),
                        listed: self.listed + items,
                        ..self
                    },
                    None => self.with_full_list(self.listed + items),
                },
                ListingView::NotFound => self.with_full_list(Seq::empty()),
                ListingView::Failed(kind) => SanitizerView {
                    stage: SanitizeStage::Done,
                    page_token: None,
                    listing_error: Some(kind),
                    ..self
                },
            }
        }
    }

    /// The state after the pending delete call was answered: the answer is
    /// recorded against the permission, whatever it was, and the next
    /// target is due. Outside the revoking stage the answer is ignored.
    pub open spec fn on_deletion(self, reply: DeleteReply) -> SanitizerView {
        if self.stage != SanitizeStage::Revoking {
            self
        } else {
            let attempts = self.attempts.push(
                AttemptView { permission: self.targets[self.attempts.len() as int].id, reply },
            );
            SanitizerView {
                stage: if attempts.len() == self.targets.len() {
                    SanitizeStage::Done
                } else {
                    SanitizeStage::Revoking
                },
                attempts,
                ..self
            }
        }
    }

    /// The state after `event`. An answer about a folder's children is
    /// none of the inspection's business.
    pub open spec fn step(self, event: EventView) -> SanitizerView {
        match event {
            EventView::Children(_) => self,
            EventView::Permissions(reply) => self.on_permissions(reply),
            EventView::Deletion(reply) => self.on_deletion(reply),
        }
    }

    /// The transitions keep the invariant.
    pub proof fn lemma_step_wf(self, event: EventView)
        requires
            self.wf(),
        ensures
            self.step(event).wf(),
            self.step(event).resource == self.resource,
            self.step(event).policy == self.policy,
    {
    }

    /// What the inspection has to report.
    pub open spec fn report(self) -> RevocationReportView {
        RevocationReportView {
            resource: self.resource,
            attempts: self.attempts,
            listing_error: self.listing_error,
        }
    }
}

/// What became of one resource's forbidden permissions.
#[derive(Debug, PartialEq, Eq)]
pub struct RevocationReport {
    pub resource: String,
    /// The delete calls made, in the order of the permission list.
    pub attempts: Vec<Attempt>,
    /// Why the permission list could not be had, where it could not.
    pub listing_error: Option<ErrorKind>,
}

/// A [`RevocationReport`], as mathematical values.
pub struct RevocationReportView {
    pub resource: Seq<char>,
    pub attempts: Seq<AttemptView>,
    pub listing_error: Option<ErrorKind>,
}

impl View for RevocationReport {
    type V = RevocationReportView;

    open spec fn view(&self) -> RevocationReportView {
        RevocationReportView {
            resource: self.resource@,
            attempts: attempt_views(self.attempts@),
            listing_error: self.listing_error,
        }
    }
}

impl RevocationReport {
    /// The number of permissions that are gone after their delete call.
    pub fn revoked_count(&self) -> (count: usize)
        ensures
            count == revoked_among(self@.attempts),
    {
        let ghost views = self@.attempts;
        let ghost gone = |a: AttemptView| a.reply.absent();
        let mut count: usize = 0;
        let mut i: usize = 0;
        assert(views.take(0) =~= Seq::empty());
        while i < self.attempts.len()
            invariant
                i <= self.attempts.len(),
                views == attempt_views(self.attempts@),
                gone == |a: AttemptView| a.reply.absent(),
                count == views.take(i as int).filter(gone).len(),
                count <= i,
            decreases self.attempts.len() - i,
        {
            proof {
                assert(views.take(i + 1) =~= views.take(i as int).push(views[i as int]));
                views.take(i as int).lemma_filter_push(views[i as int], gone);
            }
            if self.attempts[i].reply.is_absent() {
                count += 1;
            }
            i += 1;
        }
        assert(views.take(self.attempts.len() as int) =~= views);
        count
    }

    /// The number of forbidden permissions that are still there because
    /// their delete call failed.
    pub fn skipped_count(&self) -> (count: usize)
        ensures
            count == skipped_among(self@.attempts),
    {
        let ghost views = self@.attempts;
        let ghost kept = |a: AttemptView| !a.reply.absent();
        let mut count: usize = 0;
        let mut i: usize = 0;
        assert(views.take(0) =~= Seq::empty());
        while i < self.attempts.len()
            invariant
                i <= self.attempts.len(),
                views == attempt_views(self.attempts@),
                kept == |a: AttemptView| !a.reply.absent(),
                count == views.take(i as int).filter(kept).len(),
                count <= i,
            decreases self.attempts.len() - i,
        {
            proof {
                assert(views.take(i + 1) =~= views.take(i as int).push(views[i as int]));
                views.take(i as int).lemma_filter_push(views[i as int], kept);
            }
            if !self.attempts[i].reply.is_absent() {
                count += 1;
            }
            i += 1;
        }
        assert(views.take(self.attempts.len() as int) =~= views);
        count
    }

    /// The permissions whose delete call failed, each with the kind of
    /// its error, in the order of the permission list.
    pub fn failures(&self) -> (failures: Vec<(String, ErrorKind)>)
        ensures
            failure_pairs(failures@) == failures_among(self@.attempts),
    {
        let ghost views = self@.attempts;
        let mut failures: Vec<(String, ErrorKind)> = Vec::new();
        let mut i: usize = 0;
        assert(views.take(0) =~= Seq::empty());
        assert(failure_pairs(failures@) =~= Seq::empty());
        while i < self.attempts.len()
            invariant
                i <= self.attempts.len(),
                views == attempt_views(self.attempts@),
                failure_pairs(failures@) == failures_among(views.take(i as int)),
            decreases self.attempts.len() - i,
        {
            assert(views.take(i + 1).drop_last() =~= views.take(i as int));
            assert(views.take(i + 1).last() == self.attempts@[i as int]@);
            match self.attempts[i].reply {
                DeleteReply::Failed(kind) => {
                    let ghost before = failure_pairs(failures@);
                    let permission = self.attempts[i].permission.clone();
                    failures.push((permission, kind));
                    assert(failure_pairs(failures@) =~= before.push(
                        (self.attempts@[i as int].permission@, kind),
                    ));
                },
                _ => {},
            }
            i += 1;
        }
        assert(views.take(self.attempts.len() as int) =~= views);
        failures
    }

    /// Whether the resource was inspected in full and every forbidden
    /// permission is gone.
    pub fn is_clean(&self) -> (clean: bool)
        ensures
            clean == (self.listing_error is None && skipped_among(self@.attempts) == 0),
    {
        self.listing_error.is_none() && self.skipped_count() == 0
    }
}

/// The inspection of one resource, driven by the answers of the service.
pub struct Sanitizer {
    resource: String,
    policy: Policy,
    stage: SanitizeStage,
    page_token: Option<String>,
    listed: Vec<Permission>,
    targets: Vec<Permission>,
    attempts: Vec<Attempt>,
    listing_error: Option<ErrorKind>,
}

impl View for Sanitizer {
    type V = SanitizerView;

    closed spec fn view(&self) -> SanitizerView {
        SanitizerView {
            resource: self.resource@,
            policy: self.policy,
            stage: self.stage,
            page_token: opt_text(self.page_token),
            listed: permission_views(self.listed@),
            targets: permission_views(self.targets@),
            attempts: attempt_views(self.attempts@),
            listing_error: self.listing_error,
        }
    }
}

impl Sanitizer {
    #[verifier::type_invariant]
    closed spec fn inv(&self) -> bool {
        self@.wf()
    }

    /// Begins the inspection of `resource` under `policy`.
    pub fn new(resource: String, policy: Policy) -> (sanitizer: Sanitizer)
        ensures
            sanitizer@ == SanitizerView::start(resource@, policy),
            sanitizer@.wf(),
    {
        let sanitizer = Sanitizer {
            resource,
            policy,
            stage: SanitizeStage::Listing,
            page_token: None,
            listed: Vec::new(),
            targets: Vec::new(),
            attempts: Vec::new(),
            listing_error: None,
        };
        assert(sanitizer@ =~= SanitizerView::start(resource@, policy)) by {
            assert(permission_views(sanitizer.listed@) =~= Seq::empty());
            assert(permission_views(sanitizer.targets@) =~= Seq::empty());
            assert(attempt_views(sanitizer.attempts@) =~= Seq::empty());
        }
        sanitizer
    }

    /// How far the inspection has come.
    pub fn stage(&self) -> (stage: SanitizeStage)
        ensures
            stage == self@.stage,
    {
        self.stage
    }

    /// Why the permission list could not be had, where it could not.
    pub fn listing_error(&self) -> (error: Option<ErrorKind>)
        ensures
            error == self@.listing_error,
    {
        self.listing_error
    }

    /// The call to make next.
    pub fn pending(&self) -> (action: Action)
        ensures
            action@ == self@.pending(),
            self@.wf(),
    {
        proof {
            use_type_invariant(self);
        }
        match self.stage {
            SanitizeStage::Listing => Action::ListPermissions {
                resource: self.resource.clone(),
                page_token: crate::text::copy_opt_text(&self.page_token),
            },
            SanitizeStage::Revoking => {
                assert(self@.attempts.len() == self.attempts.len());
                assert(self@.targets.len() == self.targets.len());
                Action::DeletePermission {
                    resource: self.resource.clone(),
                    permission: self.targets[self.attempts.len()].id.clone(),
                }
            },
            SanitizeStage::Done => Action::Finish,
        }
    }

    /// Takes the answer to a request for a page of permissions.
    pub fn on_permissions(self, reply: PermissionsReply) -> (next: Sanitizer)
        ensures
            next@ == self@.on_permissions(reply@),
            self@.wf() && next@.wf(),
    {
        proof {
            use_type_invariant(&self);
        }
        if self.stage != SanitizeStage::Listing {
            return self;
        }
        assert(self@.attempts =~= Seq::empty());
        assert(self@.targets =~= Seq::empty());
        match reply {
            PermissionsReply::Page { permissions, next_page_token } => {
                let mut page = permissions;
                let mut listed = self.listed;
                let ghost before = permission_views(listed@);
                let ghost items = permission_views(page@);
                listed.append(&mut page);
                assert(permission_views(listed@) =~= before + items);
                match continue_with(next_page_token) {
                    Some(token) => Sanitizer {
                        resource: self.resource,
                        policy: self.policy,
                        stage: SanitizeStage::Listing,
                        page_token: Some(token),
                        listed,
                        targets: self.targets,
                        attempts: self.attempts,
                        listing_error: self.listing_error,
                    },
                    None => Self::with_full_list(self.resource, self.policy, listed, self.attempts),
                }
            },
            PermissionsReply::NotFound => {
                let listed: Vec<Permission> = Vec::new();
                assert(permission_views(listed@) =~= Seq::empty());
                Self::with_full_list(self.resource, self.policy, listed, self.attempts)
            },
            PermissionsReply::Failed(kind) => Sanitizer {
                resource: self.resource,
                policy: self.policy,
                stage: SanitizeStage::Done,
                page_token: None,
                listed: self.listed,
                targets: self.targets,
                attempts: self.attempts,
                listing_error: Some(kind),
            },
        }
    }

    fn with_full_list(
        resource: String,
        policy: Policy,
        listed: Vec<Permission>,
        attempts: Vec<Attempt>,
    ) -> (next: Sanitizer)
        requires
            attempts@.len() == 0,
        ensures
            next@ == (SanitizerView {
                attempts: Seq::empty(),
                ..SanitizerView::start(resource@, policy)
            }).with_full_list(permission_views(listed@)),
            next@.wf(),
    {
        let targets = policy.select(&listed);
        let stage = if targets.len() == 0 {
            SanitizeStage::Done
        } else {
            SanitizeStage::Revoking
        };
        assert(attempt_views(attempts@) =~= Seq::empty());
        assert(permission_views(targets@).len() == targets@.len());
        Sanitizer {
            resource,
            policy,
            stage,
            page_token: None,
            listed,
            targets,
            attempts,
            listing_error: None,
        }
    }

    /// Takes the answer to a delete call.
    pub fn on_deletion(self, reply: DeleteReply) -> (next: Sanitizer)
        ensures
            next@ == self@.on_deletion(reply),
            self@.wf() && next@.wf(),
    {
        proof {
            use_type_invariant(&self);
        }
        if self.stage != SanitizeStage::Revoking {
            return self;
        }
        assert(self@.attempts.len() == self.attempts.len());
        assert(self@.targets.len() == self.targets.len());
        let mut attempts = self.attempts;
        let ghost before = attempt_views(attempts@);
        let attempt = Attempt { permission: self.targets[attempts.len()].id.clone(), reply };
        let ghost recorded = attempt@;
        attempts.push(attempt);
        assert(attempt_views(attempts@) =~= before.push(recorded));
        let stage = if attempts.len() == self.targets.len() {
            SanitizeStage::Done
        } else {
            SanitizeStage::Revoking
        };
        Sanitizer {
            resource: self.resource,
            policy: self.policy,
            stage,
            page_token: self.page_token,
            listed: self.listed,
            targets: self.targets,
            attempts,
            listing_error: self.listing_error,
        }
    }

    /// Takes whatever the service answered.
    pub fn step(self, event: Event) -> (next: Sanitizer)
        ensures
            next@ == self@.step(event@),
            self@.wf() && next@.wf(),
    {
        proof {
            use_type_invariant(&self);
        }
        match event {
            Event::Children(_) => self,
            Event::Permissions(reply) => self.on_permissions(reply),
            Event::Deletion(reply) => self.on_deletion(reply),
        }
    }

    /// Ends the inspection and hands out what it has to report. Before the
    /// last stage the report covers the delete calls answered so far.
    pub fn into_report(self) -> (report: RevocationReport)
        ensures
            report@ == self@.report(),
    {
        RevocationReport {
            resource: self.resource,
            attempts: self.attempts,
            listing_error: self.listing_error,
        }
    }
}

} // verus!
