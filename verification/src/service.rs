//! The conversation with the storage service: the calls that the library
//! asks for, and the answers that it takes.

use vstd::prelude::*;
use crate::model::{
    decode_permissions, decode_resources, decoded_permissions, decoded_resources,
    permission_views, resource_views, Permission, PermissionView, RawPermission, RawResource,
    Resource, ResourceView,
};
use crate::text::opt_text;
use vstd::string::StringExecFns;

verus! {

/// Why a call to the service failed.
#[derive(Clone, Copy, PartialEq, Eq, Debug, Structural)]
pub enum ErrorKind {
    /// A timeout, a rate limit or a server fault that outlasted the retries.
    Transient,
    /// The caller may not do this to the resource.
    Authorization,
    /// The answer lacked a required field or held an unknown value.
    Malformed,
    /// Anything else.
    Other,
}

/// What a call that did not succeed amounts to.
#[derive(Clone, Copy, PartialEq, Eq, Debug, Structural)]
pub enum CallFailure {
    /// The resource or the permission is gone: no error to the run.
    NotFound,
    /// The call failed for the reason given.
    Error(ErrorKind),
}

/// What an HTTP status other than success amounts to: 404 says that the
/// target is gone; 401 and 403 that the caller may not do this; 408, 429
/// and the 5xx class that the service may do better later.
pub open spec fn status_class(status: u16) -> CallFailure {
    if status == 404 {
        CallFailure::NotFound
    } else if status == 401 || status == 403 {
        CallFailure::Error(ErrorKind::Authorization)
    } else if status == 408 || status == 429 || 500 <= status <= 599 {
        CallFailure::Error(ErrorKind::Transient)
    } else {
        CallFailure::Error(ErrorKind::Other)
    }
}

/// Classifies the HTTP status of a call that did not succeed.
pub fn classify_status(status: u16) -> (class: CallFailure)
    ensures
        class == status_class(status),
{
    if status == 404 {
        CallFailure::NotFound
    } else if status == 401 || status == 403 {
        CallFailure::Error(ErrorKind::Authorization)
    } else if status == 408 || status == 429 || (500 <= status && status <= 599) {
        CallFailure::Error(ErrorKind::Transient)
    } else {
        CallFailure::Error(ErrorKind::Other)
    }
}

impl CallFailure {
    /// The answer that a failed listing of children amounts to.
    pub fn into_children_reply(self) -> (reply: ChildrenReply)
        ensures
            reply@ == match self {
                CallFailure::NotFound => ListingView::<ResourceView>::NotFound,
                CallFailure::Error(kind) => ListingView::<ResourceView>::Failed(kind),
            },
    {
        match self {
            CallFailure::NotFound => ChildrenReply::NotFound,
            CallFailure::Error(kind) => ChildrenReply::Failed(kind),
        }
    }

    /// The answer that a failed listing of permissions amounts to.
    pub fn into_permissions_reply(self) -> (reply: PermissionsReply)
        ensures
            reply@ == match self {
                CallFailure::NotFound => ListingView::<PermissionView>::NotFound,
                CallFailure::Error(kind) => ListingView::<PermissionView>::Failed(kind),
            },
    {
        match self {
            CallFailure::NotFound => PermissionsReply::NotFound,
            CallFailure::Error(kind) => PermissionsReply::Failed(kind),
        }
    }

    /// The answer that a failed delete call amounts to.
    pub fn into_delete_reply(self) -> (reply: DeleteReply)
        ensures
            reply == match self {
                CallFailure::NotFound => DeleteReply::NotFound,
                CallFailure::Error(kind) => DeleteReply::Failed(kind),
            },
    {
        match self {
            CallFailure::NotFound => DeleteReply::NotFound,
            CallFailure::Error(kind) => DeleteReply::Failed(kind),
        }
    }
}

/// A listing call's answer, as mathematical values.
pub enum ListingView<T> {
    Page { items: Seq<T>, next_page_token: Option<Seq<char>> },
    NotFound,
    Failed(ErrorKind),
}

/// The answer to a request for one page of a folder's children.
#[derive(Debug, PartialEq, Eq)]
pub enum ChildrenReply {
    Page { resources: Vec<Resource>, next_page_token: Option<String> },
    NotFound,
    Failed(ErrorKind),
}

impl View for ChildrenReply {
    type V = ListingView<ResourceView>;

    open spec fn view(&self) -> ListingView<ResourceView> {
        match *self {
            ChildrenReply::Page { resources, next_page_token } => ListingView::Page {
                items: resource_views(resources@),
                next_page_token: opt_text(next_page_token),
            },
            ChildrenReply::NotFound => ListingView::NotFound,
            ChildrenReply::Failed(kind) => ListingView::Failed(kind),
        }
    }
}

/// The answer to a request for one page of a resource's permissions.
#[derive(Debug, PartialEq, Eq)]
pub enum PermissionsReply {
    Page { permissions: Vec<Permission>, next_page_token: Option<String> },
    NotFound,
    Failed(ErrorKind),
}

impl View for PermissionsReply {
    type V = ListingView<PermissionView>;

    open spec fn view(&self) -> ListingView<PermissionView> {
        match *self {
            PermissionsReply::Page { permissions, next_page_token } => ListingView::Page {
                items: permission_views(permissions@),
                next_page_token: opt_text(next_page_token),
            },
            PermissionsReply::NotFound => ListingView::NotFound,
            PermissionsReply::Failed(kind) => ListingView::Failed(kind),
        }
    }
}

/// The answer to a request to delete one permission.
#[derive(Clone, Copy, PartialEq, Eq, Debug, Structural)]
pub enum DeleteReply {
    Deleted,
    /// The permission was gone already.
    NotFound,
    Failed(ErrorKind),
}

impl DeleteReply {
    /// Whether the permission is absent after the call. A permission that
    /// was gone already counts: what matters is that it is gone.
    pub open spec fn absent(self) -> bool {
        !(self is Failed)
    }

    /// Whether the permission is absent after the call.
    pub fn is_absent(&self) -> (gone: bool)
        ensures
            gone == self.absent(),
    {
        match self {
            DeleteReply::Failed(_) => false,
            _ => true,
        }
    }
}

/// The token to send with the next request of a listing, where the listing
/// goes on: a missing token ends it, and so does an empty one.
pub open spec fn continuation(next_page_token: Option<Seq<char>>) -> Option<Seq<char>> {
    match next_page_token {
        Some(token) if token.len() > 0 => Some(token),
        _ => None,
    }
}

/// Decides from a page's token whether the listing goes on, and with what.
pub fn continue_with(next_page_token: Option<String>) -> (token: Option<String>)
    ensures
        opt_text(token) == continuation(opt_text(next_page_token)),
{
    match next_page_token {
        Some(token) => {
            if token.as_str().is_empty() {
                None
            } else {
                Some(token)
            }
        },
        None => None,
    }
}

impl ChildrenReply {
    /// What a page of records and its token amount to: the page, or a
    /// malformed answer where one record does not describe a resource.
    pub open spec fn of_records(
        records: Seq<RawResource>,
        next_page_token: Option<Seq<char>>,
    ) -> ListingView<ResourceView> {
        match decoded_resources(records) {
            Some(items) => ListingView::Page { items, next_page_token },
            None => ListingView::Failed(ErrorKind::Malformed),
        }
    }

    /// Checks a page of records as it came off the wire.
    pub fn from_records(records: &Vec<RawResource>, next_page_token: Option<String>) -> (reply:
        ChildrenReply)
        ensures
            reply@ == Self::of_records(records@, opt_text(next_page_token)),
    {
        match decode_resources(records) {
            Some(resources) => ChildrenReply::Page { resources, next_page_token },
            None => ChildrenReply::Failed(ErrorKind::Malformed),
        }
    }
}

impl PermissionsReply {
    /// What a page of records and its token amount to: the page, or a
    /// malformed answer where one record does not describe a permission.
    pub open spec fn of_records(
        records: Seq<RawPermission>,
        next_page_token: Option<Seq<char>>,
    ) -> ListingView<PermissionView> {
        match decoded_permissions(records) {
            Some(items) => ListingView::Page { items, next_page_token },
            None => ListingView::Failed(ErrorKind::Malformed),
        }
    }

    /// Checks a page of records as it came off the wire.
    pub fn from_records(records: &Vec<RawPermission>, next_page_token: Option<String>) -> (reply:
        PermissionsReply)
        ensures
            reply@ == Self::of_records(records@, opt_text(next_page_token)),
    {
        match decode_permissions(records) {
            Some(permissions) => PermissionsReply::Page { permissions, next_page_token },
            None => PermissionsReply::Failed(ErrorKind::Malformed),
        }
    }
}

/// The query that selects the direct children of `folder`.
pub open spec fn children_query_text(folder: Seq<char>) -> Seq<char> {
    "'"@ + folder + "' in parents"@
}

/// Writes the query that selects the direct children of `folder`.
pub fn children_query(folder: &str) -> (query: String)
    ensures
        query@ == children_query_text(folder@),
{
    let mut query = String::from_str("'");
    query.append(folder);
    query.append("' in parents");
    query
}

/// What the service answered to the call that was asked for last.
#[derive(Debug, PartialEq, Eq)]
pub enum Event {
    Children(ChildrenReply),
    Permissions(PermissionsReply),
    Deletion(DeleteReply),
}

/// An [`Event`], as mathematical values.
pub enum EventView {
    Children(ListingView<ResourceView>),
    Permissions(ListingView<PermissionView>),
    Deletion(DeleteReply),
}

impl View for Event {
    type V = EventView;

    open spec fn view(&self) -> EventView {
        match *self {
            Event::Children(reply) => EventView::Children(reply@),
            Event::Permissions(reply) => EventView::Permissions(reply@),
            Event::Deletion(reply) => EventView::Deletion(reply),
        }
    }
}

/// The call to make next.
#[derive(Debug, PartialEq, Eq)]
pub enum Action {
    /// List one page of the children of `folder`.
    ListChildren { folder: String, page_token: Option<String> },
    /// List one page of the permissions of `resource`.
    ListPermissions { resource: String, page_token: Option<String> },
    /// Delete `permission` from `resource`.
    DeletePermission { resource: String, permission: String },
    /// Nothing is left to do.
    Finish,
}

/// An [`Action`], as mathematical values.
pub enum ActionView {
    ListChildren { folder: Seq<char>, page_token: Option<Seq<char>> },
    ListPermissions { resource: Seq<char>, page_token: Option<Seq<char>> },
    DeletePermission { resource: Seq<char>, permission: Seq<char> },
    Finish,
}

impl View for Action {
    type V = ActionView;

    open spec fn view(&self) -> ActionView {
        match *self {
            Action::ListChildren { folder, page_token } => ActionView::ListChildren {
                folder: folder@,
                page_token: opt_text(page_token),
            },
            Action::ListPermissions { resource, page_token } => ActionView::ListPermissions {
                resource: resource@,
                page_token: opt_text(page_token),
            },
            Action::DeletePermission { resource, permission } => ActionView::DeletePermission {
                resource: resource@,
                permission: permission@,
            },
            Action::Finish => ActionView::Finish,
        }
    }
}

} // verus!
