//! Page: holds the current document frame and dispatches a received HTTP
//! response into the tree builder, answering with the printer's output.

use vstd::prelude::*;
use crate::dom::{arena_view, arena_wf, tags_recognized, Node, Window};
use crate::http::HttpResponse;
use crate::parser::{fresh_build, init_build, spec_build, HtmlParser};
use crate::token::HtmlTokenizer;
use crate::utils::{convert_dom_to_string, opt_int, spec_print};

verus! {

pub struct Page {
    frame: Option<Window>,
}

impl Page {
    /// What the page's current frame holds, if a response has been received.
    pub closed spec fn frame_view(self) -> Option<Seq<Node>> {
        match self.frame {
            Some(w) => Some(w@),
            None => None,
        }
    }

    pub fn new() -> (p: Page)
        ensures
            p.frame_view() is None,
    {
        Page { frame: None }
    }

    /// Parses the response body into a fresh document frame — exactly the
    /// arena the tree-construction machine halts with on the body text — and
    /// returns the printed DOM.
    pub fn receive_response(&mut self, response: HttpResponse) -> (r: String)
        ensures
            final(self).frame_view() matches Some(a) && arena_wf(a) && tags_recognized(a) && r@
                == seq!['\n'] + spec_print(a, Some(0), 0) && (exists|n: nat|
                #![auto]
                spec_build(fresh_build(response@.body), n).0 == Some(arena_view(a))),
    {
        self.create_frame(response.body());
        match &self.frame {
            Some(frame) => {
                let document = frame.document();
                convert_dom_to_string(frame, Some(document))
            },
            None => String::new(),
        }
    }

    fn create_frame(&mut self, html: String)
        ensures
            final(self).frame_view() matches Some(a) && arena_wf(a) && tags_recognized(a) && (
            exists|n: nat| #![auto] spec_build(fresh_build(html@), n).0 == Some(arena_view(a))),
    {
        let tokenizer = HtmlTokenizer::new(html);
        let parser = HtmlParser::new(tokenizer);
        proof {
            assert(arena_view(parser@.window) =~= fresh_build(html@).arena);
            assert(crate::parser::stack_view(parser@.stack) =~= Seq::<int>::empty());
            assert(init_build(parser@) == fresh_build(html@));
        }
        let frame = parser.construct_tree();
        self.frame = Some(frame);
    }
}

} // verus!
