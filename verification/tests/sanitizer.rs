use drive_sweep::model::{GranteeType, Permission, Role};
use drive_sweep::policy::Policy;
use drive_sweep::sanitizer::{Attempt, SanitizeStage, Sanitizer};
use drive_sweep::service::{Action, ChildrenReply, DeleteReply, ErrorKind, Event, PermissionsReply};

fn text(s: &str) -> String {
    s.to_string()
}

fn grant(id: &str, grantee: GranteeType, role: Role) -> Permission {
    Permission { id: text(id), grantee, role, display_name: None }
}

fn page(permissions: Vec<Permission>, next: Option<&str>) -> PermissionsReply {
    PermissionsReply::Page { permissions, next_page_token: next.map(text) }
}

fn list_call(resource: &str, token: Option<&str>) -> Action {
    Action::ListPermissions { resource: text(resource), page_token: token.map(text) }
}

fn delete_call(resource: &str, permission: &str) -> Action {
    Action::DeletePermission { resource: text(resource), permission: text(permission) }
}

#[test]
fn inspection_begins_by_listing_without_a_token() {
    let sanitizer = Sanitizer::new(text("doc"), Policy::PublicGrant);
    assert_eq!(sanitizer.stage(), SanitizeStage::Listing);
    assert_eq!(sanitizer.pending(), list_call("doc", None));
    assert_eq!(sanitizer.listing_error(), None);
}

#[test]
fn matches_on_every_page_are_revoked() {
    let sanitizer = Sanitizer::new(text("doc"), Policy::PublicGrant);
    let sanitizer = sanitizer.on_permissions(page(
        vec![
            grant("p1", GranteeType::Anyone, Role::Reader),
            grant("p2", GranteeType::User, Role::Owner),
        ],
        Some("page-2"),
    ));
    assert_eq!(sanitizer.stage(), SanitizeStage::Listing);
    assert_eq!(sanitizer.pending(), list_call("doc", Some("page-2")));
    let sanitizer = sanitizer.on_permissions(page(
        vec![
            grant("p3", GranteeType::Group, Role::Writer),
            grant("p4", GranteeType::Anyone, Role::Writer),
        ],
        Some("page-3"),
    ));
    assert_eq!(sanitizer.pending(), list_call("doc", Some("page-3")));
    let sanitizer = sanitizer
        .on_permissions(page(vec![grant("p5", GranteeType::Anyone, Role::Commenter)], None));
    assert_eq!(sanitizer.stage(), SanitizeStage::Revoking);
    assert_eq!(sanitizer.pending(), delete_call("doc", "p1"));
    let sanitizer = sanitizer.on_deletion(DeleteReply::Deleted);
    assert_eq!(sanitizer.pending(), delete_call("doc", "p4"));
    let sanitizer = sanitizer.on_deletion(DeleteReply::Deleted);
    assert_eq!(sanitizer.pending(), delete_call("doc", "p5"));
    let sanitizer = sanitizer.on_deletion(DeleteReply::Deleted);
    assert_eq!(sanitizer.stage(), SanitizeStage::Done);
    assert_eq!(sanitizer.pending(), Action::Finish);
    let report = sanitizer.into_report();
    assert_eq!(report.resource, "doc");
    assert_eq!(report.revoked_count(), 3);
    assert_eq!(report.skipped_count(), 0);
    assert!(report.is_clean());
    assert_eq!(report.failures(), Vec::new());
    assert_eq!(
        report.attempts,
        vec![
            Attempt { permission: text("p1"), reply: DeleteReply::Deleted },
            Attempt { permission: text("p4"), reply: DeleteReply::Deleted },
            Attempt { permission: text("p5"), reply: DeleteReply::Deleted },
        ]
    );
}

#[test]
fn nothing_is_deleted_before_the_last_page() {
    let sanitizer = Sanitizer::new(text("doc"), Policy::ReaderGrant);
    let sanitizer = sanitizer
        .on_permissions(page(vec![grant("p1", GranteeType::User, Role::Reader)], Some("more")));
    assert_eq!(sanitizer.stage(), SanitizeStage::Listing);
    let unmoved = sanitizer.on_deletion(DeleteReply::Deleted);
    assert_eq!(unmoved.stage(), SanitizeStage::Listing);
    assert_eq!(unmoved.pending(), list_call("doc", Some("more")));
    assert_eq!(unmoved.into_report().attempts, Vec::new());
}

#[test]
fn empty_token_is_the_last_page() {
    let sanitizer = Sanitizer::new(text("doc"), Policy::ReaderGrant);
    let sanitizer = sanitizer
        .on_permissions(page(vec![grant("p1", GranteeType::User, Role::Reader)], Some("")));
    assert_eq!(sanitizer.stage(), SanitizeStage::Revoking);
    assert_eq!(sanitizer.pending(), delete_call("doc", "p1"));
}

#[test]
fn list_without_matches_is_done_at_once() {
    let sanitizer = Sanitizer::new(text("doc"), Policy::PublicGrant);
    let sanitizer =
        sanitizer.on_permissions(page(vec![grant("p1", GranteeType::User, Role::Owner)], None));
    assert_eq!(sanitizer.stage(), SanitizeStage::Done);
    let report = sanitizer.into_report();
    assert_eq!(report.revoked_count(), 0);
    assert_eq!(report.skipped_count(), 0);
    assert!(report.is_clean());
}

#[test]
fn permission_gone_already_counts_as_revoked() {
    let sanitizer = Sanitizer::new(text("doc"), Policy::PublicGrant);
    let sanitizer = sanitizer
        .on_permissions(page(vec![grant("p1", GranteeType::Anyone, Role::Reader)], None));
    let sanitizer = sanitizer.on_deletion(DeleteReply::NotFound);
    assert_eq!(sanitizer.stage(), SanitizeStage::Done);
    let report = sanitizer.into_report();
    assert_eq!(report.revoked_count(), 1);
    assert_eq!(report.skipped_count(), 0);
    assert!(report.is_clean());
    assert_eq!(report.attempts, vec![Attempt { permission: text("p1"), reply: DeleteReply::NotFound }]);
}

#[test]
fn failed_delete_does_not_stop_the_rest() {
    let sanitizer = Sanitizer::new(text("doc"), Policy::PublicGrant);
    let sanitizer = sanitizer.on_permissions(page(
        vec![
            grant("p1", GranteeType::Anyone, Role::Reader),
            grant("p2", GranteeType::Anyone, Role::Writer),
            grant("p3", GranteeType::Anyone, Role::Commenter),
        ],
        None,
    ));
    let sanitizer = sanitizer.on_deletion(DeleteReply::Deleted);
    let sanitizer = sanitizer.on_deletion(DeleteReply::Failed(ErrorKind::Authorization));
    assert_eq!(sanitizer.stage(), SanitizeStage::Revoking);
    assert_eq!(sanitizer.pending(), delete_call("doc", "p3"));
    let sanitizer = sanitizer.on_deletion(DeleteReply::Deleted);
    assert_eq!(sanitizer.stage(), SanitizeStage::Done);
    let report = sanitizer.into_report();
    assert_eq!(report.revoked_count(), 2);
    assert_eq!(report.skipped_count(), 1);
    assert!(!report.is_clean());
    assert_eq!(report.failures(), vec![(text("p2"), ErrorKind::Authorization)]);
    assert_eq!(
        report.attempts[1],
        Attempt { permission: text("p2"), reply: DeleteReply::Failed(ErrorKind::Authorization) }
    );
}

#[test]
fn failed_listing_ends_the_inspection_with_nothing_deleted() {
    let sanitizer = Sanitizer::new(text("doc"), Policy::PublicGrant);
    let sanitizer = sanitizer
        .on_permissions(page(vec![grant("p1", GranteeType::Anyone, Role::Reader)], Some("t")));
    let sanitizer = sanitizer.on_permissions(PermissionsReply::Failed(ErrorKind::Transient));
    assert_eq!(sanitizer.stage(), SanitizeStage::Done);
    assert_eq!(sanitizer.listing_error(), Some(ErrorKind::Transient));
    assert_eq!(sanitizer.pending(), Action::Finish);
    let report = sanitizer.into_report();
    assert_eq!(report.listing_error, Some(ErrorKind::Transient));
    assert_eq!(report.attempts, Vec::new());
    assert!(!report.is_clean());
}

#[test]
fn resource_that_is_gone_has_no_permissions() {
    let sanitizer = Sanitizer::new(text("doc"), Policy::PublicGrant);
    let sanitizer = sanitizer.on_permissions(PermissionsReply::NotFound);
    assert_eq!(sanitizer.stage(), SanitizeStage::Done);
    assert_eq!(sanitizer.listing_error(), None);
    assert!(sanitizer.into_report().is_clean());
}

#[test]
fn sanitizer_ignores_answers_about_children() {
    let sanitizer = Sanitizer::new(text("doc"), Policy::PublicGrant);
    let sanitizer = sanitizer.step(Event::Children(ChildrenReply::NotFound));
    assert_eq!(sanitizer.stage(), SanitizeStage::Listing);
    let sanitizer = sanitizer.step(Event::Permissions(page(
        vec![grant("p1", GranteeType::Anyone, Role::Reader)],
        None,
    )));
    assert_eq!(sanitizer.pending(), delete_call("doc", "p1"));
    let sanitizer = sanitizer.step(Event::Permissions(PermissionsReply::NotFound));
    assert_eq!(sanitizer.pending(), delete_call("doc", "p1"));
    let sanitizer = sanitizer.step(Event::Deletion(DeleteReply::Deleted));
    assert_eq!(sanitizer.stage(), SanitizeStage::Done);
    let sanitizer = sanitizer.step(Event::Deletion(DeleteReply::Deleted));
    assert_eq!(sanitizer.into_report().revoked_count(), 1);
}

#[test]
fn second_inspection_of_a_clean_resource_revokes_nothing() {
    let before = vec![
        grant("p1", GranteeType::Anyone, Role::Reader),
        grant("p2", GranteeType::User, Role::Owner),
        grant("p3", GranteeType::User, Role::Writer),
    ];
    let after: Vec<Permission> = before
        .iter()
        .filter(|p| !Policy::PublicGrant.should_revoke(p))
        .map(|p| p.clone())
        .collect();
    let first = Sanitizer::new(text("doc"), Policy::PublicGrant)
        .on_permissions(page(before, None))
        .on_deletion(DeleteReply::Deleted);
    assert_eq!(first.into_report().revoked_count(), 1);
    let second = Sanitizer::new(text("doc"), Policy::PublicGrant).on_permissions(page(after, None));
    assert_eq!(second.stage(), SanitizeStage::Done);
    assert_eq!(second.into_report().revoked_count(), 0);
}
