//! A mathematical model of a storage service, and of a run against it.
//!
//! The model is what the theorems of this crate are stated over. It answers
//! every listing in pages of a size of its choosing, deletes what it is
//! asked to delete, and fails only where it is told to: on the listing of a
//! folder marked as broken, on the permissions of a resource marked as
//! unreadable, and on the deletion of a permission marked as stuck.

use vstd::prelude::*;
use crate::model::{PermissionView, ResourceKind, ResourceView};
use crate::policy::Policy;
use crate::service::{ActionView, DeleteReply, ErrorKind, EventView, ListingView};
use crate::traversal::TraversalView;

verus! {

/// One resource of the modelled service.
pub struct Node {
    pub kind: ResourceKind,
    pub name: Seq<char>,
    /// The identifiers of the direct children, in listing order.
    pub children: Seq<Seq<char>>,
    pub permissions: Seq<PermissionView>,
}

/// The modelled service.
pub struct World {
    /// The resources, by identifier.
    pub resources: Map<Seq<char>, Node>,
    /// The folders whose children cannot be listed, each with the error
    /// that the service answers.
    pub broken: Map<Seq<char>, ErrorKind>,
    /// The resources whose permissions cannot be listed, each with the
    /// error that the service answers.
    pub unreadable: Map<Seq<char>, ErrorKind>,
    /// The permissions that cannot be deleted, by resource and permission
    /// identifier, each with the error that the service answers.
    pub stuck: Map<(Seq<char>, Seq<char>), ErrorKind>,
    /// The most items that the service puts on one page of a listing; 0
    /// for no limit.
    pub page_size: nat,
}

/// The continuation token that stands for position `at` of a listing.
pub open spec fn token_at(at: nat) -> Seq<char> {
    Seq::new(at, |i: int| '.')
}

/// The position that a listing call with `page_token` starts from.
pub open spec fn position(page_token: Option<Seq<char>>) -> nat {
    match page_token {
        Some(token) => token.len(),
        None => 0,
    }
}

impl World {
    /// Where the page that starts at `from` ends, in a listing of `len`
    /// items.
    pub open spec fn page_end(self, from: nat, len: nat) -> nat {
        if self.page_size == 0 || from + self.page_size >= len {
            len
        } else {
            from + self.page_size
        }
    }

    /// The page of `items` that a call with `page_token` is answered with:
    /// it carries a token to go on with unless it ends the listing.
    pub open spec fn page<T>(self, items: Seq<T>, page_token: Option<Seq<char>>) -> ListingView<T> {
        let from = if position(page_token) <= items.len() {
            position(page_token)
        } else {
            items.len()
        };
        let to = self.page_end(from, items.len());
        ListingView::Page {
            items: items.subrange(from as int, to as int),
            next_page_token: if to < items.len() {
                Some(token_at(to))
            } else {
                None
            },
        }
    }

    /// The records that a complete listing of `folder` shows; none where
    /// the service does not hold the folder.
    pub open spec fn children_shown(self, folder: Seq<char>) -> Seq<ResourceView> {
        if self.resources.contains_key(folder) {
            self.child_records(folder)
        } else {
            Seq::empty()
        }
    }

    /// The record that a listing shows for `id`. A child that the service
    /// does not hold shows as a nameless file.
    pub open spec fn record(self, id: Seq<char>) -> ResourceView {
        if self.resources.contains_key(id) {
            ResourceView { id, kind: self.resources[id].kind, name: self.resources[id].name }
        } else {
            ResourceView { id, kind: ResourceKind::File, name: Seq::empty() }
        }
    }

    /// The records of the children of `folder`, in listing order.
    pub open spec fn child_records(self, folder: Seq<char>) -> Seq<ResourceView> {
        self.resources[folder].children.map_values(|id: Seq<char>| self.record(id))
    }

    /// Whether `child` is among the children of `folder`.
    pub open spec fn child_of(self, folder: Seq<char>, child: Seq<char>) -> bool {
        self.resources.contains_key(folder) && self.resources[folder].children.contains(child)
    }

    /// The permissions on `id`; none where the service does not hold it.
    pub open spec fn permissions_of(self, id: Seq<char>) -> Seq<PermissionView> {
        if self.resources.contains_key(id) {
            self.resources[id].permissions
        } else {
            Seq::empty()
        }
    }

    /// Whether `id` holds no permission that `policy` forbids.
    pub open spec fn clean(self, policy: Policy, id: Seq<char>) -> bool {
        policy.targets(self.permissions_of(id)).len() == 0
    }

    /// Whether `resource` holds a permission with identifier `permission`.
    pub open spec fn holds(self, resource: Seq<char>, permission: Seq<char>) -> bool {
        exists|i: int|
            0 <= i < self.permissions_of(resource).len() && (
            #[trigger] self.permissions_of(resource)[i]).id == permission
    }

    /// What the service answers to `action`; nothing to the end of a run.
    pub open spec fn answer(self, action: ActionView) -> Option<EventView> {
        match action {
            ActionView::ListChildren { folder, page_token } => Some(
                EventView::Children(
                    if self.broken.contains_key(folder) {
                        ListingView::Failed(self.broken[folder])
                    } else if self.resources.contains_key(folder) {
                        self.page(self.child_records(folder), page_token)
                    } else {
                        ListingView::NotFound
                    },
                ),
            ),
            ActionView::ListPermissions { resource, page_token } => Some(
                EventView::Permissions(
                    if self.unreadable.contains_key(resource) {
                        ListingView::Failed(self.unreadable[resource])
                    } else if self.resources.contains_key(resource) {
                        self.page(self.resources[resource].permissions, page_token)
                    } else {
                        ListingView::NotFound
                    },
                ),
            ),
            ActionView::DeletePermission { resource, permission } => Some(
                EventView::Deletion(
                    if self.stuck.contains_key((resource, permission)) {
                        DeleteReply::Failed(self.stuck[(resource, permission)])
                    } else if self.holds(resource, permission) {
                        DeleteReply::Deleted
                    } else {
                        DeleteReply::NotFound
                    },
                ),
            ),
            ActionView::Finish => None,
        }
    }

    /// The service after it served `action`: a delete call takes the
    /// permission away unless it is stuck, every other call leaves the
    /// service as it was.
    pub open spec fn after(self, action: ActionView) -> World {
        match action {
            ActionView::DeletePermission { resource, permission } => if self.resources.contains_key(
                resource,
            ) && !self.stuck.contains_key((resource, permission)) {
                let node = self.resources[resource];
                World {
                    resources: self.resources.insert(
                        resource,
                        Node {
                            permissions: node.permissions.filter(
                                |p: PermissionView| p.id != permission,
                            ),
                            ..node
                        },
                    ),
                    ..self
                }
            } else {
                self
            },
            _ => self,
        }
    }

    /// Whether the run lists `id` as a folder when it comes to it: the
    /// root is listed whatever its kind.
    pub open spec fn is_folder(self, root: Seq<char>, id: Seq<char>) -> bool {
        id == root || self.record(id).kind == ResourceKind::Folder
    }

    /// Whether a run from `root` that comes to `from` goes on to `to`:
    /// `from` is listed as a folder, its listing does not fail, and `to`
    /// is among its children.
    pub open spec fn leads(self, root: Seq<char>, from: Seq<char>, to: Seq<char>) -> bool {
        &&& self.is_folder(root, from)
        &&& !self.broken.contains_key(from)
        &&& self.child_of(from, to)
    }

    /// Whether `path` is a way from `root` down the hierarchy.
    pub open spec fn is_path(self, root: Seq<char>, path: Seq<Seq<char>>) -> bool {
        &&& path.len() > 0
        &&& path[0] == root
        &&& forall|k: int|
            0 <= k < path.len() - 1 ==> self.leads(root, #[trigger] path[k], path[k + 1])
    }

    /// Whether a run from `root` can come to `id`.
    pub open spec fn reachable(self, root: Seq<char>, id: Seq<char>) -> bool {
        exists|path: Seq<Seq<char>>| #[trigger] self.is_path(root, path) && path.last() == id
    }
}

/// The run and the service after the run made up to `steps` calls, each
/// answered by the service, from the state `run` and the service `world`.
pub open spec fn drive(run: TraversalView, world: World, steps: nat) -> (TraversalView, World)
    decreases steps,
{
    if steps == 0 {
        (run, world)
    } else {
        match world.answer(run.pending()) {
            Some(event) => drive(run.step(event), world.after(run.pending()), (steps - 1) as nat),
            None => (run, world),
        }
    }
}

} // verus!
