//! Browser shell: owns the pages and knows which one is active.

use vstd::prelude::*;
use crate::dom::{arena_view, arena_wf, tags_recognized};
use crate::http::HttpResponse;
use crate::page::Page;
use crate::parser::{fresh_build, spec_build};
use crate::utils::spec_print;

verus! {

pub struct Browser {
    active_page_index: usize,
    pages: Vec<Page>,
}

pub struct BrowserView {
    pub active_page_index: int,
    pub pages: Seq<Page>,
}

impl View for Browser {
    type V = BrowserView;

    closed spec fn view(&self) -> BrowserView {
        BrowserView { active_page_index: self.active_page_index as int, pages: self.pages@ }
    }
}

impl Browser {
    /// The active page index stays within the page list.
    pub open spec fn wf(self) -> bool {
        0 <= self@.active_page_index < self@.pages.len()
    }

    /// A browser with one empty page, which is active.
    pub fn new() -> (b: Browser)
        ensures
            b.wf(),
            b@.pages.len() == 1,
            b@.active_page_index == 0,
            b@.pages[0].frame_view() is None,
    {
        let mut pages: Vec<Page> = Vec::new();
        pages.push(Page::new());
        Browser { active_page_index: 0, pages }
    }

    /// The page the browser currently shows.
    pub fn current_page(&self) -> (p: &Page)
        requires
            self.wf(),
        ensures
            *p == self@.pages[self@.active_page_index],
    {
        &self.pages[self.active_page_index]
    }

    /// Hands the response to the active page — which parses the body into
    /// its frame — and returns the printed DOM. No other page moves.
    pub fn receive_response(&mut self, response: HttpResponse) -> (r: String)
        requires
            old(self).wf(),
        ensures
            final(self).wf(),
            final(self)@.active_page_index == old(self)@.active_page_index,
            final(self)@.pages.len() == old(self)@.pages.len(),
            forall|i: int|
                0 <= i < old(self)@.pages.len() && i != old(self)@.active_page_index
                    ==> final(self)@.pages[i] == old(self)@.pages[i],
            final(self)@.pages[old(self)@.active_page_index].frame_view() matches Some(a)
                && arena_wf(a) && tags_recognized(a) && r@ == seq!['\n'] + spec_print(
                a,
                Some(0),
                0,
            ) && (exists|n: nat|
                #![auto]
                spec_build(fresh_build(response@.body), n).0 == Some(arena_view(a))),
    {
        let i = self.active_page_index;
        let page = &mut self.pages[i];
        page.receive_response(response)
    }
}

} // verus!
