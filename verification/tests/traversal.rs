use drive_sweep::model::{GranteeType, Permission, Resource, ResourceKind, Role};
use drive_sweep::policy::Policy;
use drive_sweep::service::{
    Action, ChildrenReply, DeleteReply, ErrorKind, Event, PermissionsReply,
};
use drive_sweep::traversal::{Failure, Operation, Revocation, Traversal, TraversalOutcome};
use std::collections::HashMap;

fn text(s: &str) -> String {
    s.to_string()
}

fn file(id: &str) -> Resource {
    Resource { id: text(id), kind: ResourceKind::File, name: text(id) }
}

fn folder(id: &str) -> Resource {
    Resource { id: text(id), kind: ResourceKind::Folder, name: text(id) }
}

fn grant(id: &str, grantee: GranteeType, role: Role) -> Permission {
    Permission { id: text(id), grantee, role, display_name: None }
}

fn revocation(resource: &str, permission: &str) -> Revocation {
    Revocation { resource: text(resource), permission: text(permission) }
}

/// A storage service held in memory, which pages its listings and keeps a
/// log of the calls made.
struct FakeDrive {
    children: HashMap<String, Vec<Resource>>,
    permissions: HashMap<String, Vec<Permission>>,
    page_size: usize,
    unlistable: Vec<String>,
    unreadable: Vec<String>,
    undeletable: Vec<String>,
    calls: Vec<Action>,
}

impl FakeDrive {
    fn new() -> FakeDrive {
        FakeDrive {
            children: HashMap::new(),
            permissions: HashMap::new(),
            page_size: 100,
            unlistable: Vec::new(),
            unreadable: Vec::new(),
            undeletable: Vec::new(),
            calls: Vec::new(),
        }
    }

    fn with_folder(mut self, id: &str, children: Vec<Resource>) -> FakeDrive {
        self.children.insert(text(id), children);
        self
    }

    fn with_permissions(mut self, id: &str, permissions: Vec<Permission>) -> FakeDrive {
        self.permissions.insert(text(id), permissions);
        self
    }

    fn window(&self, len: usize, token: &Option<String>) -> (usize, usize, Option<String>) {
        let from = token.as_ref().map(|t| t.parse::<usize>().unwrap()).unwrap_or(0);
        let to = usize::min(from + self.page_size, len);
        let next = if to < len { Some(to.to_string()) } else { None };
        (from, to, next)
    }

    fn answer(&mut self, action: &Action) -> Option<Event> {
        self.calls.push(copy_of(action));
        match action {
            Action::ListChildren { folder, page_token } => {
                if self.unlistable.contains(folder) {
                    return Some(Event::Children(ChildrenReply::Failed(ErrorKind::Authorization)));
                }
                Some(Event::Children(match self.children.get(folder) {
                    None => ChildrenReply::NotFound,
                    Some(all) => {
                        let (from, to, next) = self.window(all.len(), page_token);
                        ChildrenReply::Page {
                            resources: all[from..to].to_vec(),
                            next_page_token: next,
                        }
                    }
                }))
            }
            Action::ListPermissions { resource, page_token } => {
                if self.unreadable.contains(resource) {
                    return Some(Event::Permissions(PermissionsReply::Failed(
                        ErrorKind::Transient,
                    )));
                }
                Some(Event::Permissions(match self.permissions.get(resource) {
                    None => PermissionsReply::NotFound,
                    Some(all) => {
                        let (from, to, next) = self.window(all.len(), page_token);
                        PermissionsReply::Page {
                            permissions: all[from..to].to_vec(),
                            next_page_token: next,
                        }
                    }
                }))
            }
            Action::DeletePermission { resource, permission } => {
                if self.undeletable.contains(permission) {
                    return Some(Event::Deletion(DeleteReply::Failed(ErrorKind::Authorization)));
                }
                let held = self.permissions.get_mut(resource);
                Some(Event::Deletion(match held {
                    None => DeleteReply::NotFound,
                    Some(all) => match all.iter().position(|p| &p.id == permission) {
                        None => DeleteReply::NotFound,
                        Some(at) => {
                            all.remove(at);
                            DeleteReply::Deleted
                        }
                    },
                }))
            }
            Action::Finish => None,
        }
    }

    fn ids_left_on(&self, resource: &str) -> Vec<String> {
        self.permissions[resource].iter().map(|p| p.id.clone()).collect()
    }

    fn inspections_of(&self, resource: &str) -> usize {
        self.calls
            .iter()
            .filter(|call| {
                matches!(call, Action::ListPermissions { resource: r, page_token: None } if r == resource)
            })
            .count()
    }

    fn listings_of(&self, id: &str) -> usize {
        self.calls
            .iter()
            .filter(|call| {
                matches!(call, Action::ListChildren { folder: f, page_token: None } if f == id)
            })
            .count()
    }
}

fn copy_of(action: &Action) -> Action {
    match action {
        Action::ListChildren { folder, page_token } => {
            Action::ListChildren { folder: folder.clone(), page_token: page_token.clone() }
        }
        Action::ListPermissions { resource, page_token } => {
            Action::ListPermissions { resource: resource.clone(), page_token: page_token.clone() }
        }
        Action::DeletePermission { resource, permission } => Action::DeletePermission {
            resource: resource.clone(),
            permission: permission.clone(),
        },
        Action::Finish => Action::Finish,
    }
}

fn sweep(
    drive: &mut FakeDrive,
    root: &str,
    policy: Policy,
    include_root: bool,
) -> Result<TraversalOutcome, ErrorKind> {
    let mut run = Traversal::new(text(root), policy, include_root);
    let mut steps = 0;
    while let Some(event) = drive.answer(&run.pending()) {
        run = run.step(event);
        steps += 1;
        assert!(steps < 10_000, "the run does not end");
    }
    assert!(run.is_over());
    run.conclude()
}

/// Root `R` holds file `A` and folder `B`; `B` holds file `C`.
fn small_tree() -> FakeDrive {
    FakeDrive::new()
        .with_folder("R", vec![file("A"), folder("B")])
        .with_folder("B", vec![file("C")])
        .with_permissions("R", vec![grant("r-any", GranteeType::Anyone, Role::Reader)])
        .with_permissions(
            "A",
            vec![
                grant("a-any", GranteeType::Anyone, Role::Reader),
                grant("a-own", GranteeType::User, Role::Owner),
            ],
        )
        .with_permissions("B", vec![grant("b-own", GranteeType::User, Role::Owner)])
        .with_permissions("C", vec![grant("c-any", GranteeType::Anyone, Role::Reader)])
}

#[test]
fn public_grants_below_the_root_are_revoked() {
    let mut drive = small_tree();
    let outcome = sweep(&mut drive, "R", Policy::PublicGrant, false).unwrap();
    assert_eq!(outcome.revoked_count(), 2);
    assert_eq!(outcome.revoked, vec![revocation("A", "a-any"), revocation("C", "c-any")]);
    assert!(outcome.succeeded());
    assert!(outcome.complete);
    assert_eq!(outcome.failures, Vec::new());
    assert_eq!(outcome.visited, vec![text("R"), text("A"), text("B"), text("C")]);
    assert_eq!(outcome.visited_count(), 4);
    assert_eq!(drive.ids_left_on("R"), vec![text("r-any")]);
    assert_eq!(drive.ids_left_on("A"), vec![text("a-own")]);
    assert_eq!(drive.ids_left_on("B"), vec![text("b-own")]);
    assert_eq!(drive.ids_left_on("C"), Vec::<String>::new());
    assert_eq!(drive.inspections_of("R"), 0);
}

#[test]
fn root_is_inspected_on_request() {
    let mut drive = small_tree();
    let outcome = sweep(&mut drive, "R", Policy::PublicGrant, true).unwrap();
    assert_eq!(
        outcome.revoked,
        vec![revocation("R", "r-any"), revocation("A", "a-any"), revocation("C", "c-any")]
    );
    assert_eq!(outcome.visited, vec![text("R"), text("A"), text("B"), text("C")]);
    assert_eq!(drive.ids_left_on("R"), Vec::<String>::new());
    assert_eq!(drive.inspections_of("R"), 1);
    assert_eq!(drive.listings_of("R"), 1);
}

#[test]
fn first_call_depends_on_the_root_flag() {
    let without = Traversal::new(text("R"), Policy::PublicGrant, false);
    assert_eq!(without.pending(), Action::ListChildren { folder: text("R"), page_token: None });
    assert!(!without.is_over());
    let with = Traversal::new(text("R"), Policy::PublicGrant, true);
    assert_eq!(with.pending(), Action::ListPermissions { resource: text("R"), page_token: None });
}

#[test]
fn reader_policy_revokes_readers_and_spares_owners() {
    let mut drive = FakeDrive::new()
        .with_folder("R", vec![file("A")])
        .with_permissions(
            "A",
            vec![
                grant("1", GranteeType::User, Role::Reader),
                grant("2", GranteeType::Anyone, Role::Writer),
                grant("3", GranteeType::User, Role::Owner),
                grant("4", GranteeType::Group, Role::Reader),
            ],
        );
    let outcome = sweep(&mut drive, "R", Policy::ReaderGrant, false).unwrap();
    assert_eq!(outcome.revoked, vec![revocation("A", "1"), revocation("A", "4")]);
    assert_eq!(drive.ids_left_on("A"), vec![text("2"), text("3")]);
}

#[test]
fn second_run_revokes_nothing() {
    let mut drive = small_tree();
    let first = sweep(&mut drive, "R", Policy::PublicGrant, true).unwrap();
    assert_eq!(first.revoked_count(), 3);
    assert!(first.succeeded());
    let deletes_before =
        drive.calls.iter().filter(|c| matches!(c, Action::DeletePermission { .. })).count();
    let second = sweep(&mut drive, "R", Policy::PublicGrant, true).unwrap();
    assert_eq!(second.revoked_count(), 0);
    assert!(second.succeeded());
    assert_eq!(second.visited, first.visited);
    let deletes_after =
        drive.calls.iter().filter(|c| matches!(c, Action::DeletePermission { .. })).count();
    assert_eq!(deletes_after, deletes_before);
}

#[test]
fn resource_with_two_parents_is_inspected_once() {
    let mut drive = FakeDrive::new()
        .with_folder("R", vec![folder("P"), folder("Q")])
        .with_folder("P", vec![file("X"), folder("S")])
        .with_folder("Q", vec![file("X"), folder("S")])
        .with_folder("S", vec![file("Y")])
        .with_permissions("X", vec![grant("x-any", GranteeType::Anyone, Role::Reader)])
        .with_permissions("Y", vec![grant("y-any", GranteeType::Anyone, Role::Reader)]);
    let outcome = sweep(&mut drive, "R", Policy::PublicGrant, false).unwrap();
    assert_eq!(drive.inspections_of("X"), 1);
    assert_eq!(drive.inspections_of("S"), 1);
    assert_eq!(drive.inspections_of("Y"), 1);
    assert_eq!(drive.listings_of("S"), 1);
    assert_eq!(outcome.revoked_count(), 2);
    assert_eq!(outcome.visited_count(), 6);
    let mut visited = outcome.visited.clone();
    visited.sort();
    visited.dedup();
    assert_eq!(visited.len(), 6);
}

#[test]
fn cycle_through_the_root_ends() {
    let mut drive = FakeDrive::new()
        .with_folder("R", vec![folder("B")])
        .with_folder("B", vec![folder("R"), folder("B"), file("C")])
        .with_permissions("R", vec![grant("r-any", GranteeType::Anyone, Role::Reader)])
        .with_permissions("C", vec![grant("c-any", GranteeType::Anyone, Role::Reader)]);
    let outcome = sweep(&mut drive, "R", Policy::PublicGrant, false).unwrap();
    assert_eq!(outcome.visited, vec![text("R"), text("B"), text("C")]);
    assert_eq!(outcome.revoked, vec![revocation("C", "c-any")]);
    assert_eq!(drive.inspections_of("R"), 0);
    assert_eq!(drive.listings_of("R"), 1);
    assert_eq!(drive.listings_of("B"), 1);
    assert_eq!(drive.ids_left_on("R"), vec![text("r-any")]);
}

#[test]
fn broken_folder_does_not_stop_its_siblings() {
    let mut drive = FakeDrive::new()
        .with_folder("R", vec![folder("Good1"), folder("Bad"), folder("Good2")])
        .with_folder("Good1", vec![file("G1")])
        .with_folder("Bad", vec![file("Hidden")])
        .with_folder("Good2", vec![file("G2")])
        .with_permissions("G1", vec![grant("g1", GranteeType::Anyone, Role::Reader)])
        .with_permissions("G2", vec![grant("g2", GranteeType::Anyone, Role::Reader)])
        .with_permissions("Hidden", vec![grant("h", GranteeType::Anyone, Role::Reader)]);
    drive.unlistable.push(text("Bad"));
    let outcome = sweep(&mut drive, "R", Policy::PublicGrant, false).unwrap();
    assert!(outcome.complete);
    assert!(!outcome.succeeded());
    assert_eq!(
        outcome.failures,
        vec![Failure {
            resource: text("Bad"),
            permission: None,
            operation: Operation::ListChildren,
            kind: ErrorKind::Authorization,
        }]
    );
    assert_eq!(outcome.revoked_count(), 2);
    assert_eq!(drive.ids_left_on("G1"), Vec::<String>::new());
    assert_eq!(drive.ids_left_on("G2"), Vec::<String>::new());
    assert_eq!(drive.ids_left_on("Hidden"), vec![text("h")]);
    assert_eq!(drive.inspections_of("Bad"), 1);
}

#[test]
fn permissions_on_three_pages_are_all_revoked() {
    let mut drive = FakeDrive::new().with_folder("R", vec![file("A")]).with_permissions(
        "A",
        vec![
            grant("1", GranteeType::Anyone, Role::Reader),
            grant("2", GranteeType::User, Role::Writer),
            grant("3", GranteeType::Anyone, Role::Writer),
            grant("4", GranteeType::User, Role::Owner),
            grant("5", GranteeType::Anyone, Role::Commenter),
        ],
    );
    drive.page_size = 2;
    let outcome = sweep(&mut drive, "R", Policy::PublicGrant, false).unwrap();
    let pages = drive
        .calls
        .iter()
        .filter(|c| matches!(c, Action::ListPermissions { .. }))
        .count();
    assert_eq!(pages, 3);
    assert_eq!(
        outcome.revoked,
        vec![revocation("A", "1"), revocation("A", "3"), revocation("A", "5")]
    );
    assert_eq!(drive.ids_left_on("A"), vec![text("2"), text("4")]);
}

#[test]
fn children_on_several_pages_are_all_visited() {
    let mut drive = FakeDrive::new()
        .with_folder("R", vec![file("A"), file("B"), file("C"), folder("D"), file("E")])
        .with_folder("D", vec![file("F")])
        .with_permissions("E", vec![grant("e", GranteeType::Anyone, Role::Reader)])
        .with_permissions("F", vec![grant("f", GranteeType::Anyone, Role::Reader)]);
    drive.page_size = 2;
    let outcome = sweep(&mut drive, "R", Policy::PublicGrant, false).unwrap();
    assert_eq!(
        outcome.visited,
        vec![text("R"), text("A"), text("B"), text("C"), text("D"), text("E"), text("F")]
    );
    assert_eq!(outcome.revoked, vec![revocation("E", "e"), revocation("F", "f")]);
}

#[test]
fn unlistable_root_is_fatal() {
    let mut drive = small_tree();
    drive.unlistable.push(text("R"));
    assert_eq!(
        sweep(&mut drive, "R", Policy::PublicGrant, false),
        Err(ErrorKind::Authorization)
    );
    assert_eq!(drive.ids_left_on("A"), vec![text("a-any"), text("a-own")]);
}

#[test]
fn root_that_is_gone_leaves_nothing_to_do() {
    let mut drive = FakeDrive::new();
    let outcome = sweep(&mut drive, "R", Policy::PublicGrant, false).unwrap();
    assert!(outcome.complete);
    assert!(outcome.succeeded());
    assert_eq!(outcome.visited, vec![text("R")]);
    assert_eq!(outcome.revoked_count(), 0);
}

#[test]
fn failed_delete_is_recorded_and_the_run_goes_on() {
    let mut drive = small_tree();
    drive.undeletable.push(text("a-any"));
    let outcome = sweep(&mut drive, "R", Policy::PublicGrant, false).unwrap();
    assert!(outcome.complete);
    assert!(!outcome.succeeded());
    assert_eq!(
        outcome.failures,
        vec![Failure {
            resource: text("A"),
            permission: Some(text("a-any")),
            operation: Operation::DeletePermission,
            kind: ErrorKind::Authorization,
        }]
    );
    assert_eq!(outcome.revoked, vec![revocation("C", "c-any")]);
}

#[test]
fn unreadable_permissions_are_recorded_and_the_run_goes_on() {
    let mut drive = small_tree();
    drive.unreadable.push(text("A"));
    let outcome = sweep(&mut drive, "R", Policy::PublicGrant, false).unwrap();
    assert!(outcome.complete);
    assert_eq!(
        outcome.failures,
        vec![Failure {
            resource: text("A"),
            permission: None,
            operation: Operation::ListPermissions,
            kind: ErrorKind::Transient,
        }]
    );
    assert_eq!(outcome.revoked, vec![revocation("C", "c-any")]);
    assert_eq!(drive.ids_left_on("A"), vec![text("a-any"), text("a-own")]);
}

#[test]
fn answers_out_of_turn_are_ignored() {
    let run = Traversal::new(text("R"), Policy::PublicGrant, false);
    let run = run.step(Event::Deletion(DeleteReply::Deleted));
    let run = run.step(Event::Permissions(PermissionsReply::NotFound));
    assert_eq!(run.pending(), Action::ListChildren { folder: text("R"), page_token: None });
    let run = run.step(Event::Children(ChildrenReply::Page {
        resources: vec![file("A")],
        next_page_token: None,
    }));
    assert_eq!(run.pending(), Action::ListPermissions { resource: text("A"), page_token: None });
    let run = run.step(Event::Children(ChildrenReply::NotFound));
    let run = run.step(Event::Deletion(DeleteReply::Deleted));
    assert_eq!(run.pending(), Action::ListPermissions { resource: text("A"), page_token: None });
    let run = run.step(Event::Permissions(PermissionsReply::NotFound));
    assert!(run.is_over());
    let run = run.step(Event::Children(ChildrenReply::NotFound));
    assert!(run.is_over());
    let outcome = run.conclude().unwrap();
    assert_eq!(outcome.visited, vec![text("R"), text("A")]);
    assert_eq!(outcome.revoked_count(), 0);
}

#[test]
fn run_that_is_cut_short_reports_its_progress() {
    let mut drive = small_tree();
    let mut run = Traversal::new(text("R"), Policy::PublicGrant, false);
    for _ in 0..3 {
        let event = drive.answer(&run.pending()).unwrap();
        run = run.step(event);
    }
    assert!(!run.is_over());
    let outcome = run.conclude().unwrap();
    assert!(!outcome.complete);
    assert_eq!(outcome.revoked, vec![revocation("A", "a-any")]);
    assert_eq!(outcome.visited, vec![text("R"), text("A"), text("B")]);
}

#[test]
fn repeated_child_in_one_listing_is_inspected_once() {
    let mut drive = FakeDrive::new()
        .with_folder("R", vec![file("A"), file("A"), folder("R")])
        .with_permissions("A", vec![grant("a", GranteeType::Anyone, Role::Reader)]);
    let outcome = sweep(&mut drive, "R", Policy::PublicGrant, false).unwrap();
    assert_eq!(drive.inspections_of("A"), 1);
    assert_eq!(outcome.visited, vec![text("R"), text("A")]);
    assert_eq!(outcome.revoked_count(), 1);
}
