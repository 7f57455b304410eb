//! The sharing policies: which permissions must go.

use vstd::prelude::*;
use crate::model::{GranteeType, Permission, PermissionView, Role};
use crate::text::is_text;

verus! {

/// A rule that picks the permissions to revoke.
#[derive(Clone, Copy, PartialEq, Eq, Debug, Structural)]
pub enum Policy {
    /// Nothing may be shared with everyone.
    PublicGrant,
    /// Nobody may hold a plain read grant.
    ReaderGrant,
}

/// The policy that goes by the name `name`, if there is one.
pub open spec fn policy_named(name: Seq<char>) -> Option<Policy> {
    if name == "public-grant"@ {
        Some(Policy::PublicGrant)
    } else if name == "reader-grant"@ {
        Some(Policy::ReaderGrant)
    } else {
        None
    }
}

impl Policy {
    /// Picks a policy by its name.
    pub fn parse(name: &String) -> (policy: Option<Policy>)
        ensures
            policy == policy_named(name@),
    {
        if is_text(name, "public-grant") {
            Some(Policy::PublicGrant)
        } else if is_text(name, "reader-grant") {
            Some(Policy::ReaderGrant)
        } else {
            None
        }
    }

    /// Whether the policy forbids a grant of `role` to a grantee of type
    /// `grantee`. An owner's grant is never forbidden.
    pub open spec fn forbids(self, grantee: GranteeType, role: Role) -> bool {
        role != Role::Owner && match self {
            Policy::PublicGrant => grantee == GranteeType::Anyone,
            Policy::ReaderGrant => role == Role::Reader,
        }
    }

    /// Whether the policy forbids `permission`.
    pub open spec fn matches(self, permission: PermissionView) -> bool {
        self.forbids(permission.grantee, permission.role)
    }

    /// [`Policy::matches`] as a predicate, for use with `Seq::filter`.
    pub open spec fn matcher(self) -> spec_fn(PermissionView) -> bool {
        |permission: PermissionView| self.matches(permission)
    }

    /// The permissions among `listed` that the policy forbids, in order.
    pub open spec fn targets(self, listed: Seq<PermissionView>) -> Seq<PermissionView> {
        listed.filter(self.matcher())
    }

    /// Decides whether `permission` must be revoked.
    pub fn should_revoke(&self, permission: &Permission) -> (revoke: bool)
        ensures
            revoke == self.matches(permission@),
            permission.role == Role::Owner ==> !revoke,
            *self == Policy::PublicGrant && revoke ==> permission.grantee == GranteeType::Anyone,
            *self == Policy::ReaderGrant && revoke ==> permission.role == Role::Reader,
    {
        match permission.role {
            Role::Owner => false,
            role => match self {
                Policy::PublicGrant => permission.grantee == GranteeType::Anyone,
                Policy::ReaderGrant => role == Role::Reader,
            },
        }
    }

    /// Picks out of `listed` the permissions to revoke, in order.
    pub fn select(&self, listed: &Vec<Permission>) -> (chosen: Vec<Permission>)
        ensures
            crate::model::permission_views(chosen@) == self.targets(
                crate::model::permission_views(listed@),
            ),
    {
        let ghost views = crate::model::permission_views(listed@);
        let mut chosen: Vec<Permission> = Vec::new();
        let mut i: usize = 0;
        assert(views.take(0) =~= Seq::empty());
        while i < listed.len()
            invariant
                i <= listed.len(),
                views == crate::model::permission_views(listed@),
                crate::model::permission_views(chosen@) == self.targets(views.take(i as int)),
            decreases listed.len() - i,
        {
            proof {
                let before = views.take(i as int);
                assert(views.take(i + 1) =~= before.push(views[i as int]));
                before.lemma_filter_push(views[i as int], self.matcher());
            }
            if self.should_revoke(&listed[i]) {
                let ghost old_chosen = crate::model::permission_views(chosen@);
                chosen.push(listed[i].clone());
                assert(crate::model::permission_views(chosen@) =~= old_chosen.push(views[i as int]));
            }
            i += 1;
        }
        assert(views.take(listed.len() as int) =~= views);
        chosen
    }
}

} // verus!
