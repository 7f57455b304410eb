//! Listing the direct children of one folder, page by page.

use vstd::prelude::*;
use crate::model::{resource_views, Resource, ResourceView};
use crate::service::{
    continuation, continue_with, Action, ActionView, ChildrenReply, ErrorKind, ListingView,
};
use crate::text::{copy_opt_text, opt_text};

verus! {

/// The state of a [`ChildLister`], as mathematical values.
pub struct ListerView {
    pub folder: Seq<char>,
    /// The token for the next page.
    pub page_token: Option<Seq<char>>,
    /// The children listed so far.
    pub children: Seq<ResourceView>,
}

/// Where a listing stands after an answer, as mathematical values.
pub enum ListProgressView {
    More(ListerView),
    Complete(Seq<ResourceView>),
    Failed(ErrorKind),
}

impl ListerView {
    /// The state in which the listing of `folder` begins.
    pub open spec fn start(folder: Seq<char>) -> ListerView {
        ListerView { folder, page_token: None, children: Seq::empty() }
    }

    /// The invariant of every state that [`ListerView::start`] and
    /// [`ListerView::on_children`] reach: a token that is kept is one to
    /// go on with.
    pub open spec fn wf(self) -> bool {
        continuation(self.page_token) == self.page_token
    }

    /// The call that the listing waits for.
    pub open spec fn pending(self) -> ActionView {
        ActionView::ListChildren { folder: self.folder, page_token: self.page_token }
    }

    /// Where the listing stands after a page of children, or the lack of
    /// one, came back. A page with a continuation token is kept and the next
    /// one asked for; the last page completes the listing with the children
    /// of all pages, in order. A folder that is gone has no children. A
    /// failure voids the listing: no part of it is handed out.
    pub open spec fn on_children(self, reply: ListingView<ResourceView>) -> ListProgressView {
        match reply {
            ListingView::Page { items, next_page_token } => match continuation(next_page_token) {
                Some(token) => ListProgressView::More(
                    ListerView {
                        page_token: Some(token),
                        children: self.children + items,
                        ..self
                    },
                ),
                None => ListProgressView::Complete(self.children + items),
            },
            ListingView::NotFound => ListProgressView::Complete(Seq::empty()),
            ListingView::Failed(kind) => ListProgressView::Failed(kind),
        }
    }
}

/// The listing of one folder's children, driven by the answers of the
/// service.
pub struct ChildLister {
    folder: String,
    page_token: Option<String>,
    children: Vec<Resource>,
}

impl View for ChildLister {
    type V = ListerView;

    closed spec fn view(&self) -> ListerView {
        ListerView {
            folder: self.folder@,
            page_token: opt_text(self.page_token),
            children: resource_views(self.children@),
        }
    }
}

/// Where a listing stands after an answer.
pub enum ListProgress {
    /// Another page is due.
    More(ChildLister),
    /// Every page has come in: these are the children.
    Complete(Vec<Resource>),
    /// A page could not be had.
    Failed(ErrorKind),
}

impl View for ListProgress {
    type V = ListProgressView;

    open spec fn view(&self) -> ListProgressView {
        match *self {
            ListProgress::More(lister) => ListProgressView::More(lister@),
            ListProgress::Complete(children) => ListProgressView::Complete(
                resource_views(children@),
            ),
            ListProgress::Failed(kind) => ListProgressView::Failed(kind),
        }
    }
}

impl ChildLister {
    #[verifier::type_invariant]
    closed spec fn inv(&self) -> bool {
        self@.wf()
    }

    /// Begins the listing of `folder`.
    pub fn new(folder: String) -> (lister: ChildLister)
        ensures
            lister@ == ListerView::start(folder@),
            lister@.wf(),
    {
        let lister = ChildLister { folder, page_token: None, children: Vec::new() };
        assert(resource_views(lister.children@) =~= Seq::empty());
        lister
    }

    /// The folder that is being listed.
    pub fn folder(&self) -> (folder: &String)
        ensures
            folder@ == self@.folder,
    {
        &self.folder
    }

    /// The call to make next.
    pub fn pending(&self) -> (action: Action)
        ensures
            action@ == self@.pending(),
    {
        Action::ListChildren {
            folder: self.folder.clone(),
            page_token: copy_opt_text(&self.page_token),
        }
    }

    /// Takes the answer to a request for a page of children.
    pub fn on_children(self, reply: ChildrenReply) -> (progress: ListProgress)
        ensures
            progress@ == self@.on_children(reply@),
            self@.wf(),
            progress@ matches ListProgressView::More(next) ==> next.wf(),
    {
        proof {
            use_type_invariant(&self);
        }
        match reply {
            ChildrenReply::Page { resources, next_page_token } => {
                let mut page = resources;
                let mut children = self.children;
                let ghost before = resource_views(children@);
                let ghost items = resource_views(page@);
                children.append(&mut page);
                assert(resource_views(children@) =~= before + items);
                match continue_with(next_page_token) {
                    Some(token) => ListProgress::More(
                        ChildLister { folder: self.folder, page_token: Some(token), children },
                    ),
                    None => ListProgress::Complete(children),
                }
            },
            ChildrenReply::NotFound => {
                let children: Vec<Resource> = Vec::new();
                assert(resource_views(children@) =~= Seq::empty());
                ListProgress::Complete(children)
            },
            ChildrenReply::Failed(kind) => ListProgress::Failed(kind),
        }
    }
}

} // verus!
