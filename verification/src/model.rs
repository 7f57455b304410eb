//! Resources and permissions as the storage service reports them.

use vstd::prelude::*;
use crate::text::{copy_opt_text, is_text, opt_text};

verus! {

/// Who a permission grants access to.
#[derive(Clone, Copy, PartialEq, Eq, Debug, Structural)]
pub enum GranteeType {
    User,
    Group,
    Domain,
    Anyone,
}

/// What a permission lets its grantee do. `Other` stands for every role
/// that the service knows and this library has no rule about.
#[derive(Clone, Copy, PartialEq, Eq, Debug, Structural)]
pub enum Role {
    Owner,
    Writer,
    Commenter,
    Reader,
    Other,
}

/// Whether a resource can hold children.
#[derive(Clone, Copy, PartialEq, Eq, Debug, Structural)]
pub enum ResourceKind {
    File,
    Folder,
}

/// The grantee type that the service writes as `text`, if it is one.
pub open spec fn grantee_named(text: Seq<char>) -> Option<GranteeType> {
    if text == "user"@ {
        Some(GranteeType::User)
    } else if text == "group"@ {
        Some(GranteeType::Group)
    } else if text == "domain"@ {
        Some(GranteeType::Domain)
    } else if text == "anyone"@ {
        Some(GranteeType::Anyone)
    } else {
        None
    }
}

/// The role that the service writes as `text`.
pub open spec fn role_named(text: Seq<char>) -> Role {
    if text == "owner"@ {
        Role::Owner
    } else if text == "writer"@ {
        Role::Writer
    } else if text == "commenter"@ {
        Role::Commenter
    } else if text == "reader"@ {
        Role::Reader
    } else {
        Role::Other
    }
}

/// The MIME type by which the service marks a folder.
pub open spec fn folder_mime_type() -> Seq<char> {
    "application/vnd.google-apps.folder"@
}

/// The kind of a resource whose MIME type, where it has one, is `mime_type`.
pub open spec fn kind_of_mime(mime_type: Option<Seq<char>>) -> ResourceKind {
    if mime_type == Some(folder_mime_type()) {
        ResourceKind::Folder
    } else {
        ResourceKind::File
    }
}

impl GranteeType {
    /// Reads a grantee type as the service writes it.
    pub fn parse(text: &String) -> (parsed: Option<GranteeType>)
        ensures
            parsed == grantee_named(text@),
    {
        if is_text(text, "user") {
            Some(GranteeType::User)
        } else if is_text(text, "group") {
            Some(GranteeType::Group)
        } else if is_text(text, "domain") {
            Some(GranteeType::Domain)
        } else if is_text(text, "anyone") {
            Some(GranteeType::Anyone)
        } else {
            None
        }
    }
}

impl Role {
    /// Reads a role as the service writes it.
    pub fn parse(text: &String) -> (parsed: Role)
        ensures
            parsed == role_named(text@),
    {
        if is_text(text, "owner") {
            Role::Owner
        } else if is_text(text, "writer") {
            Role::Writer
        } else if is_text(text, "commenter") {
            Role::Commenter
        } else if is_text(text, "reader") {
            Role::Reader
        } else {
            Role::Other
        }
    }
}

impl ResourceKind {
    /// Tells a folder from a file by its MIME type.
    pub fn of_mime_type(mime_type: &Option<String>) -> (kind: ResourceKind)
        ensures
            kind == kind_of_mime(opt_text(*mime_type)),
    {
        match mime_type {
            Some(text) => {
                if is_text(text, "application/vnd.google-apps.folder") {
                    ResourceKind::Folder
                } else {
                    ResourceKind::File
                }
            },
            None => ResourceKind::File,
        }
    }
}

/// A file or folder of the hierarchy.
#[derive(Debug, PartialEq, Eq)]
pub struct Resource {
    pub id: String,
    pub kind: ResourceKind,
    pub name: String,
}

/// What a [`Resource`] holds, as mathematical values.
pub struct ResourceView {
    pub id: Seq<char>,
    pub kind: ResourceKind,
    pub name: Seq<char>,
}

impl View for Resource {
    type V = ResourceView;

    open spec fn view(&self) -> ResourceView {
        ResourceView { id: self.id@, kind: self.kind, name: self.name@ }
    }
}

impl Clone for Resource {
    fn clone(&self) -> (copy: Self)
        ensures
            copy@ == self@,
    {
        Resource { id: self.id.clone(), kind: self.kind, name: self.name.clone() }
    }
}

/// A grant of access on one resource.
#[derive(Debug, PartialEq, Eq)]
pub struct Permission {
    pub id: String,
    pub grantee: GranteeType,
    pub role: Role,
    pub display_name: Option<String>,
}

/// What a [`Permission`] holds, as mathematical values.
pub struct PermissionView {
    pub id: Seq<char>,
    pub grantee: GranteeType,
    pub role: Role,
    pub display_name: Option<Seq<char>>,
}

impl View for Permission {
    type V = PermissionView;

    open spec fn view(&self) -> PermissionView {
        PermissionView {
            id: self.id@,
            grantee: self.grantee,
            role: self.role,
            display_name: opt_text(self.display_name),
        }
    }
}

impl Clone for Permission {
    fn clone(&self) -> (copy: Self)
        ensures
            copy@ == self@,
    {
        Permission {
            id: self.id.clone(),
            grantee: self.grantee,
            role: self.role,
            display_name: copy_opt_text(&self.display_name),
        }
    }
}

/// The views of a sequence of resources, in order.
pub open spec fn resource_views(resources: Seq<Resource>) -> Seq<ResourceView> {
    resources.map_values(|r: Resource| r@)
}

/// The views of a sequence of permissions, in order.
pub open spec fn permission_views(permissions: Seq<Permission>) -> Seq<PermissionView> {
    permissions.map_values(|p: Permission| p@)
}

/// A resource as it comes off the wire: every field may be missing.
#[derive(Debug, PartialEq, Eq)]
pub struct RawResource {
    pub id: Option<String>,
    pub mime_type: Option<String>,
    pub name: Option<String>,
}

/// A permission as it comes off the wire: every field may be missing.
#[derive(Debug, PartialEq, Eq)]
pub struct RawPermission {
    pub id: Option<String>,
    pub grantee_type: Option<String>,
    pub role: Option<String>,
    pub display_name: Option<String>,
}

impl RawResource {
    /// The resource that this record describes. A record without an
    /// identifier describes none; a missing name reads as the empty name.
    pub open spec fn decoded(self) -> Option<ResourceView> {
        match self.id {
            Some(id) => Some(
                ResourceView {
                    id: id@,
                    kind: kind_of_mime(opt_text(self.mime_type)),
                    name: match self.name {
                        Some(name) => name@,
                        None => Seq::empty(),
                    },
                },
            ),
            None => None,
        }
    }

    /// Checks the record and turns it into a [`Resource`].
    pub fn decode(&self) -> (resource: Option<Resource>)
        ensures
            match resource {
                Some(r) => self.decoded() == Some(r@),
                None => self.decoded().is_none(),
            },
    {
        match &self.id {
            Some(id) => {
                let name = match &self.name {
                    Some(name) => name.clone(),
                    None => String::new(),
                };
                Some(Resource { id: id.clone(), kind: ResourceKind::of_mime_type(&self.mime_type), name })
            },
            None => None,
        }
    }
}

impl RawPermission {
    /// The permission that this record describes. The identifier, the
    /// grantee type and the role are required, and the grantee type must be
    /// one that the service defines.
    pub open spec fn decoded(self) -> Option<PermissionView> {
        match (self.id, self.grantee_type, self.role) {
            (Some(id), Some(grantee), Some(role)) => match grantee_named(grantee@) {
                Some(grantee) => Some(
                    PermissionView {
                        id: id@,
                        grantee,
                        role: role_named(role@),
                        display_name: opt_text(self.display_name),
                    },
                ),
                None => None,
            },
            _ => None,
        }
    }

    /// Checks the record and turns it into a [`Permission`].
    pub fn decode(&self) -> (permission: Option<Permission>)
        ensures
            match permission {
                Some(p) => self.decoded() == Some(p@),
                None => self.decoded().is_none(),
            },
    {
        match (&self.id, &self.grantee_type, &self.role) {
            (Some(id), Some(grantee), Some(role)) => match GranteeType::parse(grantee) {
                Some(grantee) => Some(
                    Permission {
                        id: id.clone(),
                        grantee,
                        role: Role::parse(role),
                        display_name: copy_opt_text(&self.display_name),
                    },
                ),
                None => None,
            },
            _ => None,
        }
    }
}

/// The resources that a page of records describes: all of them, or nothing
/// where one record is malformed.
pub open spec fn decoded_resources(records: Seq<RawResource>) -> Option<Seq<ResourceView>> {
    if forall|i: int| 0 <= i < records.len() ==> (#[trigger] records[i]).decoded().is_some() {
        Some(Seq::new(records.len(), |i: int| records[i].decoded().unwrap()))
    } else {
        None
    }
}

/// The permissions that a page of records describes: all of them, or
/// nothing where one record is malformed.
pub open spec fn decoded_permissions(records: Seq<RawPermission>) -> Option<Seq<PermissionView>> {
    if forall|i: int| 0 <= i < records.len() ==> (#[trigger] records[i]).decoded().is_some() {
        Some(Seq::new(records.len(), |i: int| records[i].decoded().unwrap()))
    } else {
        None
    }
}

/// Checks a page of resource records.
pub fn decode_resources(records: &Vec<RawResource>) -> (resources: Option<Vec<Resource>>)
    ensures
        match resources {
            Some(list) => decoded_resources(records@) == Some(resource_views(list@)),
            None => decoded_resources(records@).is_none(),
        },
{
    let mut list: Vec<Resource> = Vec::new();
    let mut i: usize = 0;
    while i < records.len()
        invariant
            i <= records.len(),
            list.len() == i,
            forall|j: int| 0 <= j < i ==> (#[trigger] records@[j]).decoded() == Some(list@[j]@),
        decreases records.len() - i,
    {
        match records[i].decode() {
            Some(resource) => list.push(resource),
            None => {
                return None;
            },
        }
        i += 1;
    }
    assert(resource_views(list@) =~= Seq::new(records@.len(), |i: int| records@[i].decoded().unwrap()));
    Some(list)
}

/// Checks a page of permission records.
pub fn decode_permissions(records: &Vec<RawPermission>) -> (permissions: Option<Vec<Permission>>)
    ensures
        match permissions {
            Some(list) => decoded_permissions(records@) == Some(permission_views(list@)),
            None => decoded_permissions(records@).is_none(),
        },
{
    let mut list: Vec<Permission> = Vec::new();
    let mut i: usize = 0;
    while i < records.len()
        invariant
            i <= records.len(),
            list.len() == i,
            forall|j: int| 0 <= j < i ==> (#[trigger] records@[j]).decoded() == Some(list@[j]@),
        decreases records.len() - i,
    {
        match records[i].decode() {
            Some(permission) => list.push(permission),
            None => {
                return None;
            },
        }
        i += 1;
    }
    assert(permission_views(list@) =~= Seq::new(records@.len(), |i: int| records@[i].decoded().unwrap()));
    Some(list)
}

} // verus!
