use drive_sweep::model::{
    decode_permissions, decode_resources, GranteeType, Permission, RawPermission, RawResource,
    Resource, ResourceKind, Role,
};
use drive_sweep::service::{
    classify_status, continue_with, CallFailure, ChildrenReply, DeleteReply, ErrorKind,
    PermissionsReply,
};
use drive_sweep::text::{copy_opt_text, holds_text, is_text};

fn text(s: &str) -> String {
    s.to_string()
}

fn raw_permission(id: Option<&str>, grantee: Option<&str>, role: Option<&str>) -> RawPermission {
    RawPermission {
        id: id.map(text),
        grantee_type: grantee.map(text),
        role: role.map(text),
        display_name: None,
    }
}

#[test]
fn grantee_types_are_read_by_name() {
    assert_eq!(GranteeType::parse(&text("user")), Some(GranteeType::User));
    assert_eq!(GranteeType::parse(&text("group")), Some(GranteeType::Group));
    assert_eq!(GranteeType::parse(&text("domain")), Some(GranteeType::Domain));
    assert_eq!(GranteeType::parse(&text("anyone")), Some(GranteeType::Anyone));
    assert_eq!(GranteeType::parse(&text("Anyone")), None);
    assert_eq!(GranteeType::parse(&text("")), None);
}

#[test]
fn roles_are_read_by_name() {
    assert_eq!(Role::parse(&text("owner")), Role::Owner);
    assert_eq!(Role::parse(&text("writer")), Role::Writer);
    assert_eq!(Role::parse(&text("commenter")), Role::Commenter);
    assert_eq!(Role::parse(&text("reader")), Role::Reader);
    assert_eq!(Role::parse(&text("fileOrganizer")), Role::Other);
}

#[test]
fn folder_is_told_by_its_mime_type() {
    assert_eq!(
        ResourceKind::of_mime_type(&Some(text("application/vnd.google-apps.folder"))),
        ResourceKind::Folder
    );
    assert_eq!(ResourceKind::of_mime_type(&Some(text("text/plain"))), ResourceKind::File);
    assert_eq!(ResourceKind::of_mime_type(&None), ResourceKind::File);
}

#[test]
fn resource_record_needs_an_identifier() {
    let complete = RawResource {
        id: Some(text("f1")),
        mime_type: Some(text("application/vnd.google-apps.folder")),
        name: Some(text("Reports")),
    };
    assert_eq!(
        complete.decode(),
        Some(Resource { id: text("f1"), kind: ResourceKind::Folder, name: text("Reports") })
    );
    let nameless = RawResource { id: Some(text("f2")), mime_type: None, name: None };
    assert_eq!(
        nameless.decode(),
        Some(Resource { id: text("f2"), kind: ResourceKind::File, name: text("") })
    );
    let anonymous = RawResource { id: None, mime_type: None, name: Some(text("x")) };
    assert_eq!(anonymous.decode(), None);
}

#[test]
fn permission_record_needs_id_type_and_role() {
    let complete = RawPermission {
        id: Some(text("p1")),
        grantee_type: Some(text("anyone")),
        role: Some(text("reader")),
        display_name: Some(text("Everyone")),
    };
    assert_eq!(
        complete.decode(),
        Some(Permission {
            id: text("p1"),
            grantee: GranteeType::Anyone,
            role: Role::Reader,
            display_name: Some(text("Everyone")),
        })
    );
    assert_eq!(raw_permission(None, Some("user"), Some("owner")).decode(), None);
    assert_eq!(raw_permission(Some("p"), None, Some("owner")).decode(), None);
    assert_eq!(raw_permission(Some("p"), Some("user"), None).decode(), None);
    assert_eq!(raw_permission(Some("p"), Some("robot"), Some("owner")).decode(), None);
    assert_eq!(
        raw_permission(Some("p"), Some("user"), Some("organizer")).decode(),
        Some(Permission {
            id: text("p"),
            grantee: GranteeType::User,
            role: Role::Other,
            display_name: None,
        })
    );
}

#[test]
fn one_malformed_record_voids_the_page() {
    let good = vec![
        raw_permission(Some("p1"), Some("user"), Some("owner")),
        raw_permission(Some("p2"), Some("anyone"), Some("reader")),
    ];
    let decoded = decode_permissions(&good).unwrap();
    assert_eq!(decoded.len(), 2);
    assert_eq!(decoded[0].id, "p1");
    assert_eq!(decoded[1].grantee, GranteeType::Anyone);

    let bad = vec![
        raw_permission(Some("p1"), Some("user"), Some("owner")),
        raw_permission(None, Some("anyone"), Some("reader")),
    ];
    assert_eq!(decode_permissions(&bad), None);
    assert_eq!(decode_permissions(&Vec::new()), Some(Vec::new()));

    let resources = vec![
        RawResource { id: Some(text("a")), mime_type: None, name: None },
        RawResource { id: None, mime_type: None, name: None },
    ];
    assert_eq!(decode_resources(&resources), None);
    let sound = vec![RawResource { id: Some(text("a")), mime_type: None, name: None }];
    assert_eq!(
        decode_resources(&sound),
        Some(vec![Resource { id: text("a"), kind: ResourceKind::File, name: text("") }])
    );
}

#[test]
fn replies_are_built_from_records() {
    let page = vec![raw_permission(Some("p1"), Some("anyone"), Some("reader"))];
    assert_eq!(
        PermissionsReply::from_records(&page, Some(text("t2"))),
        PermissionsReply::Page {
            permissions: vec![Permission {
                id: text("p1"),
                grantee: GranteeType::Anyone,
                role: Role::Reader,
                display_name: None,
            }],
            next_page_token: Some(text("t2")),
        }
    );
    let broken = vec![raw_permission(Some("p1"), None, Some("reader"))];
    assert_eq!(
        PermissionsReply::from_records(&broken, None),
        PermissionsReply::Failed(ErrorKind::Malformed)
    );
    let children = vec![RawResource { id: Some(text("c")), mime_type: None, name: None }];
    assert_eq!(
        ChildrenReply::from_records(&children, None),
        ChildrenReply::Page {
            resources: vec![Resource { id: text("c"), kind: ResourceKind::File, name: text("") }],
            next_page_token: None,
        }
    );
    let nameless = vec![RawResource { id: None, mime_type: None, name: None }];
    assert_eq!(
        ChildrenReply::from_records(&nameless, None),
        ChildrenReply::Failed(ErrorKind::Malformed)
    );
}

#[test]
fn empty_token_ends_a_listing() {
    assert_eq!(continue_with(None), None);
    assert_eq!(continue_with(Some(text(""))), None);
    assert_eq!(continue_with(Some(text("next"))), Some(text("next")));
}

#[test]
fn gone_already_counts_as_absent() {
    assert!(DeleteReply::Deleted.is_absent());
    assert!(DeleteReply::NotFound.is_absent());
    assert!(!DeleteReply::Failed(ErrorKind::Transient).is_absent());
}

#[test]
fn text_helpers_compare_by_characters() {
    assert!(is_text(&text("anyone"), "anyone"));
    assert!(!is_text(&text("anyone"), "anyon"));
    assert_eq!(copy_opt_text(&Some(text("a"))), Some(text("a")));
    assert_eq!(copy_opt_text(&None), None);
    let ids = vec![text("a"), text("b")];
    assert!(holds_text(&ids, &text("b")));
    assert!(!holds_text(&ids, &text("c")));
    assert!(!holds_text(&Vec::new(), &text("a")));
}

#[test]
fn copies_keep_every_field() {
    let resource = Resource { id: text("r"), kind: ResourceKind::Folder, name: text("n") };
    assert_eq!(resource.clone(), resource);
    let permission = Permission {
        id: text("p"),
        grantee: GranteeType::Domain,
        role: Role::Commenter,
        display_name: Some(text("d")),
    };
    assert_eq!(permission.clone(), permission);
}

#[test]
fn http_status_is_sorted_into_the_taxonomy() {
    assert_eq!(classify_status(404), CallFailure::NotFound);
    assert_eq!(classify_status(401), CallFailure::Error(ErrorKind::Authorization));
    assert_eq!(classify_status(403), CallFailure::Error(ErrorKind::Authorization));
    assert_eq!(classify_status(408), CallFailure::Error(ErrorKind::Transient));
    assert_eq!(classify_status(429), CallFailure::Error(ErrorKind::Transient));
    assert_eq!(classify_status(500), CallFailure::Error(ErrorKind::Transient));
    assert_eq!(classify_status(503), CallFailure::Error(ErrorKind::Transient));
    assert_eq!(classify_status(599), CallFailure::Error(ErrorKind::Transient));
    assert_eq!(classify_status(600), CallFailure::Error(ErrorKind::Other));
    assert_eq!(classify_status(400), CallFailure::Error(ErrorKind::Other));
    assert_eq!(classify_status(499), CallFailure::Error(ErrorKind::Other));
}

#[test]
fn failed_call_becomes_the_matching_reply() {
    assert_eq!(CallFailure::NotFound.into_children_reply(), ChildrenReply::NotFound);
    assert_eq!(CallFailure::NotFound.into_permissions_reply(), PermissionsReply::NotFound);
    assert_eq!(CallFailure::NotFound.into_delete_reply(), DeleteReply::NotFound);
    let denied = CallFailure::Error(ErrorKind::Authorization);
    assert_eq!(denied.into_children_reply(), ChildrenReply::Failed(ErrorKind::Authorization));
    assert_eq!(denied.into_permissions_reply(), PermissionsReply::Failed(ErrorKind::Authorization));
    assert_eq!(denied.into_delete_reply(), DeleteReply::Failed(ErrorKind::Authorization));
}
