use drive_sweep::lister::{ChildLister, ListProgress};
use drive_sweep::model::{Resource, ResourceKind};
use drive_sweep::service::{Action, ChildrenReply, ErrorKind};

fn text(s: &str) -> String {
    s.to_string()
}

fn file(id: &str) -> Resource {
    Resource { id: text(id), kind: ResourceKind::File, name: text(id) }
}

fn page(resources: Vec<Resource>, next: Option<&str>) -> ChildrenReply {
    ChildrenReply::Page { resources, next_page_token: next.map(text) }
}

#[test]
fn listing_follows_tokens_to_the_last_page() {
    let lister = ChildLister::new(text("folder"));
    assert_eq!(lister.folder(), "folder");
    assert_eq!(
        lister.pending(),
        Action::ListChildren { folder: text("folder"), page_token: None }
    );
    let lister = match lister.on_children(page(vec![file("a"), file("b")], Some("t1"))) {
        ListProgress::More(lister) => lister,
        _ => panic!("the listing ended before its last page"),
    };
    assert_eq!(
        lister.pending(),
        Action::ListChildren { folder: text("folder"), page_token: Some(text("t1")) }
    );
    let lister = match lister.on_children(page(vec![], Some("t2"))) {
        ListProgress::More(lister) => lister,
        _ => panic!("the listing ended before its last page"),
    };
    match lister.on_children(page(vec![file("c")], None)) {
        ListProgress::Complete(children) => {
            assert_eq!(children, vec![file("a"), file("b"), file("c")])
        }
        _ => panic!("the listing did not complete"),
    }
}

#[test]
fn failed_page_voids_the_listing() {
    let lister = ChildLister::new(text("folder"));
    let lister = match lister.on_children(page(vec![file("a")], Some("t1"))) {
        ListProgress::More(lister) => lister,
        _ => panic!("the listing ended before its last page"),
    };
    match lister.on_children(ChildrenReply::Failed(ErrorKind::Authorization)) {
        ListProgress::Failed(kind) => assert_eq!(kind, ErrorKind::Authorization),
        _ => panic!("the failure was not surfaced"),
    }
}

#[test]
fn folder_that_is_gone_has_no_children() {
    let lister = ChildLister::new(text("folder"));
    match lister.on_children(ChildrenReply::NotFound) {
        ListProgress::Complete(children) => assert!(children.is_empty()),
        _ => panic!("the listing did not complete"),
    }
}
