//! HTML tree builder: the insertion-mode automaton that consumes tokens and
//! grows the DOM. It never fails: malformed input falls through the mode
//! fallbacks, unknown tags are dropped, and a pop that finds no matching
//! open element simply empties the stack.
//!
//! The automaton is specified functionally: `spec_build_step` is its
//! transition table over a `BuildView` (tokenizer, token slot, modes, arena
//! and open-element stack), `spec_build` iterates it, and `construct_tree`
//! returns exactly the arena the machine halts with, well formed. The
//! builder maintains the window, the insertion mode, the mode saved before
//! switching into `Text`, and the stack of open elements (which, in this
//! core, also receives newly created text nodes).

use vstd::prelude::*;
use crate::attribute::{Attribute, AttributeView};
use crate::dom::{arena_view, arena_wf, children, kind_view, lemma_recognized_tags, spec_append,
    spec_append_text, spec_element_kind, tags_recognized, ElementKind, Element, Node, NodeKind,
    NodeKindView, NodeView, Window};
use crate::text::{push_char, str_eq};
use crate::token::{m_flag, m_pos, opt_token_view, spec_run, spec_step, st_rank, tokenizer_wf,
    HtmlToken, HtmlTokenizer, State, TokenView, TokenizerView};

verus! {

#[derive(Clone, Copy, Debug, PartialEq, Eq, Structural)]
pub enum InsertionMode {
    Initial,
    BeforeHtml,
    BeforeHead,
    InHead,
    AfterHead,
    InBody,
    Text,
    AfterBody,
    AfterAfterBody,
}

/// Every open element is a real, non-document node of the arena.
pub open spec fn stack_ok(w: Seq<Node>, s: Seq<usize>) -> bool {
    forall|k: int| 0 <= k < s.len() ==> 1 <= (#[trigger] s[k] as int) < w.len()
}

/// The open-element stack as plain integers.
pub open spec fn stack_view(s: Seq<usize>) -> Seq<int> {
    s.map_values(|u: usize| u as int)
}

/// The parent the next insertion attaches under: the top of the open-element
/// stack, or the document when the stack is empty.
pub open spec fn insertion_parent(s: Seq<usize>) -> int {
    if s.len() == 0 {
        0
    } else {
        s.last() as int
    }
}

/// The position from the top of the first stack entry of the given element
/// kind, if any.
pub open spec fn top_match(w: Seq<Node>, s: Seq<usize>, kind: ElementKind) -> Option<int>
    decreases s.len(),
{
    if s.len() == 0 {
        None
    } else if spec_element_kind(w[s.last() as int].kind) == Some(kind) {
        Some(s.len() - 1)
    } else {
        top_match(w, s.drop_last(), kind)
    }
}

/// The recognized kind of a node-kind view.
pub open spec fn view_element_kind(k: NodeKindView) -> Option<ElementKind> {
    match k {
        NodeKindView::Element { tag, .. } => ElementKind::spec_from_tag(tag),
        _ => None,
    }
}

/// `top_match` over views.
pub open spec fn view_top_match(a: Seq<NodeView>, s: Seq<int>, kind: ElementKind) -> Option<int>
    decreases s.len(),
{
    if s.len() == 0 {
        None
    } else if view_element_kind(a[s.last()].kind) == Some(kind) {
        Some(s.len() - 1)
    } else {
        view_top_match(a, s.drop_last(), kind)
    }
}

/// `top_match` and its view-level twin agree.
proof fn lemma_top_match_view(w: Seq<Node>, s: Seq<usize>, kind: ElementKind)
    requires
        forall|k: int| 0 <= k < s.len() ==> 0 <= (#[trigger] s[k] as int) < w.len(),
    ensures
        view_top_match(arena_view(w), stack_view(s), kind) == top_match(w, s, kind),
    decreases s.len(),
{
    if s.len() > 0 {
        assert(stack_view(s).last() == s.last() as int);
        assert(arena_view(w)[s.last() as int].kind == kind_view(w[s.last() as int].kind));
        assert(stack_view(s).drop_last() =~= stack_view(s.drop_last()));
        assert(forall|k: int| 0 <= k < s.len() - 1 ==> s.drop_last()[k] == s[k]);
        lemma_top_match_view(w, s.drop_last(), kind);
    } else {
        assert(stack_view(s).len() == 0);
    }
}

/// One element inserted under the current insertion parent and opened on the
/// stack: what `insert_element` does to arena and stack.
pub open spec fn tree_insert_element(
    a: Seq<NodeView>,
    s: Seq<int>,
    tag: Seq<char>,
    attributes: Seq<AttributeView>,
) -> (Seq<NodeView>, Seq<int>) {
    let p = if s.len() == 0 {
        0int
    } else {
        s.last()
    };
    (spec_append(a, p, NodeKindView::Element { tag, attributes }), s.push(a.len() as int))
}

/// One character inserted: what `insert_char` does to arena and stack.
pub open spec fn tree_insert_char(a: Seq<NodeView>, s: Seq<int>, ch: char) -> (
    Seq<NodeView>,
    Seq<int>,
) {
    if s.len() == 0 {
        (a, s)
    } else {
        let top = s.last();
        if a[top].kind is Text {
            (spec_append_text(a, top, ch), s)
        } else if ch == '\n' || ch == ' ' {
            (a, s)
        } else {
            (spec_append(a, top, NodeKindView::Text(seq![ch])), s.push(a.len() as int))
        }
    }
}

/// What `pop_until` leaves of the stack.
pub open spec fn tree_pop_until(a: Seq<NodeView>, s: Seq<int>, kind: ElementKind) -> Seq<int> {
    match view_top_match(a, s, kind) {
        Some(j) => s.subrange(0, j),
        None => Seq::<int>::empty(),
    }
}

/// What `pop_current_node` answers and leaves of the stack.
pub open spec fn tree_pop_current(a: Seq<NodeView>, s: Seq<int>, kind: ElementKind) -> (
    bool,
    Seq<int>,
) {
    if s.len() == 0 {
        (false, s)
    } else if view_element_kind(a[s.last()].kind) == Some(kind) {
        (true, s.drop_last())
    } else {
        (false, s)
    }
}

/// Whether the stack holds an element of this kind.
pub open spec fn tree_contains(a: Seq<NodeView>, s: Seq<int>, kind: ElementKind) -> bool {
    exists|k: int| 0 <= k < s.len() && view_element_kind(a[#[trigger] s[k]].kind) == Some(kind)
}

/// The token slot between the automaton and the tokenizer: empty and not yet
/// asked, in the middle of being filled, or holding what the tokenizer
/// answered (a token, or nothing — the end of the stream).
pub enum TokenSlot {
    Idle,
    Pulling,
    Have(Option<TokenView>),
}

/// The whole state of the tree construction: the tokenizer, the token slot,
/// the two insertion modes, and the tree being grown.
pub struct BuildView {
    pub tokenizer: TokenizerView,
    pub slot: TokenSlot,
    pub mode: InsertionMode,
    pub original_insertion_mode: InsertionMode,
    pub arena: Seq<NodeView>,
    pub stack: Seq<int>,
}

#[verifier::opaque]
pub open spec fn bstep_initial(t: TokenView, b: BuildView) -> (Option<Seq<NodeView>>, BuildView) {
    match t {
        TokenView::Char(_) => (None, BuildView { slot: TokenSlot::Idle, ..b }),
        _ => (None, BuildView { mode: InsertionMode::BeforeHtml, ..b }),
    }
}

#[verifier::opaque]
pub open spec fn bstep_before_html(t: TokenView, b: BuildView) -> (
    Option<Seq<NodeView>>,
    BuildView,
) {
    let synth = tree_insert_element(b.arena, b.stack, "html"@, Seq::<AttributeView>::empty());
    let fallback = BuildView {
        mode: InsertionMode::BeforeHead,
        arena: synth.0,
        stack: synth.1,
        ..b
    };
    match t {
        TokenView::StartTag { tag, attributes, .. } => if tag == "html"@ {
            let ins = tree_insert_element(b.arena, b.stack, tag, attributes);
            (
                None,
                BuildView {
                    slot: TokenSlot::Idle,
                    mode: InsertionMode::BeforeHead,
                    arena: ins.0,
                    stack: ins.1,
                    ..b
                },
            )
        } else {
            (None, fallback)
        },
        TokenView::Char(ch) => if ch == ' ' || ch == '\n' {
            (None, BuildView { slot: TokenSlot::Idle, ..b })
        } else {
            (None, fallback)
        },
        TokenView::Eof => (Some(b.arena), b),
        TokenView::EndTag { .. } => (None, fallback),
    }
}

#[verifier::opaque]
pub open spec fn bstep_before_head(t: TokenView, b: BuildView) -> (
    Option<Seq<NodeView>>,
    BuildView,
) {
    let synth = tree_insert_element(b.arena, b.stack, "head"@, Seq::<AttributeView>::empty());
    let fallback = BuildView {
        mode: InsertionMode::InHead,
        arena: synth.0,
        stack: synth.1,
        ..b
    };
    match t {
        TokenView::StartTag { tag, attributes, .. } => if tag == "head"@ {
            let ins = tree_insert_element(b.arena, b.stack, tag, attributes);
            (
                None,
                BuildView {
                    slot: TokenSlot::Idle,
                    mode: InsertionMode::InHead,
                    arena: ins.0,
                    stack: ins.1,
                    ..b
                },
            )
        } else {
            (None, fallback)
        },
        TokenView::Char(ch) => if ch == ' ' || ch == '\n' {
            (None, BuildView { slot: TokenSlot::Idle, ..b })
        } else {
            (None, fallback)
        },
        TokenView::Eof => (Some(b.arena), b),
        TokenView::EndTag { .. } => (None, fallback),
    }
}

#[verifier::opaque]
pub open spec fn bstep_in_head(t: TokenView, b: BuildView) -> (Option<Seq<NodeView>>, BuildView) {
    match t {
        TokenView::StartTag { tag, attributes, .. } => if tag == "style"@ || tag == "script"@ {
            let ins = tree_insert_element(b.arena, b.stack, tag, attributes);
            (
                None,
                BuildView {
                    slot: TokenSlot::Idle,
                    original_insertion_mode: InsertionMode::InHead,
                    mode: InsertionMode::Text,
                    arena: ins.0,
                    stack: ins.1,
                    ..b
                },
            )
        } else if ElementKind::spec_from_tag(tag) is Some {
            (
                None,
                BuildView {
                    mode: InsertionMode::AfterHead,
                    stack: tree_pop_until(b.arena, b.stack, ElementKind::Head),
                    ..b
                },
            )
        } else {
            (None, BuildView { slot: TokenSlot::Idle, ..b })
        },
        TokenView::EndTag { tag } => if tag == "head"@ {
            (
                None,
                BuildView {
                    slot: TokenSlot::Idle,
                    mode: InsertionMode::AfterHead,
                    stack: tree_pop_until(b.arena, b.stack, ElementKind::Head),
                    ..b
                },
            )
        } else {
            (None, BuildView { slot: TokenSlot::Idle, ..b })
        },
        TokenView::Char(ch) => if ch == ' ' || ch == '\n' {
            let ins = tree_insert_char(b.arena, b.stack, ch);
            (None, BuildView { slot: TokenSlot::Idle, arena: ins.0, stack: ins.1, ..b })
        } else {
            (None, BuildView { slot: TokenSlot::Idle, ..b })
        },
        TokenView::Eof => (Some(b.arena), b),
    }
}

#[verifier::opaque]
pub open spec fn bstep_after_head(t: TokenView, b: BuildView) -> (
    Option<Seq<NodeView>>,
    BuildView,
) {
    let synth = tree_insert_element(b.arena, b.stack, "body"@, Seq::<AttributeView>::empty());
    let fallback = BuildView {
        mode: InsertionMode::InBody,
        arena: synth.0,
        stack: synth.1,
        ..b
    };
    match t {
        TokenView::StartTag { tag, attributes, .. } => if tag == "body"@ {
            let ins = tree_insert_element(b.arena, b.stack, tag, attributes);
            (
                None,
                BuildView {
                    slot: TokenSlot::Idle,
                    mode: InsertionMode::InBody,
                    arena: ins.0,
                    stack: ins.1,
                    ..b
                },
            )
        } else {
            (None, fallback)
        },
        TokenView::Char(ch) => if ch == ' ' || ch == '\n' {
            let ins = tree_insert_char(b.arena, b.stack, ch);
            (None, BuildView { slot: TokenSlot::Idle, arena: ins.0, stack: ins.1, ..b })
        } else {
            (None, fallback)
        },
        TokenView::Eof => (Some(b.arena), b),
        TokenView::EndTag { .. } => (None, fallback),
    }
}

#[verifier::opaque]
pub open spec fn bstep_in_body(t: TokenView, b: BuildView) -> (Option<Seq<NodeView>>, BuildView) {
    match t {
        TokenView::StartTag { tag, attributes, .. } => if tag == "p"@ || tag == "h1"@ || tag
            == "h2"@ || tag == "h3"@ || tag == "a"@ {
            let ins = tree_insert_element(b.arena, b.stack, tag, attributes);
            (None, BuildView { slot: TokenSlot::Idle, arena: ins.0, stack: ins.1, ..b })
        } else {
            (None, BuildView { slot: TokenSlot::Idle, ..b })
        },
        TokenView::EndTag { tag } => if tag == "body"@ {
            if tree_contains(b.arena, b.stack, ElementKind::Body) {
                (
                    None,
                    BuildView {
                        slot: TokenSlot::Idle,
                        mode: InsertionMode::AfterBody,
                        stack: tree_pop_until(b.arena, b.stack, ElementKind::Body),
                        ..b
                    },
                )
            } else {
                (None, BuildView { slot: TokenSlot::Idle, mode: InsertionMode::AfterBody, ..b })
            }
        } else if tag == "html"@ {
            let popped = tree_pop_current(b.arena, b.stack, ElementKind::Body);
            if popped.0 {
                let again = tree_pop_current(b.arena, popped.1, ElementKind::Html);
                (None, BuildView { mode: InsertionMode::AfterBody, stack: again.1, ..b })
            } else {
                (None, BuildView { slot: TokenSlot::Idle, ..b })
            }
        } else if tag == "p"@ {
            (
                None,
                BuildView {
                    slot: TokenSlot::Idle,
                    stack: tree_pop_until(b.arena, b.stack, ElementKind::P),
                    ..b
                },
            )
        } else if tag == "h1"@ {
            (
                None,
                BuildView {
                    slot: TokenSlot::Idle,
                    stack: tree_pop_until(b.arena, b.stack, ElementKind::H1),
                    ..b
                },
            )
        } else if tag == "h2"@ {
            (
                None,
                BuildView {
                    slot: TokenSlot::Idle,
                    stack: tree_pop_until(b.arena, b.stack, ElementKind::H2),
                    ..b
                },
            )
        } else if tag == "h3"@ {
            (
                None,
                BuildView {
                    slot: TokenSlot::Idle,
                    stack: tree_pop_until(b.arena, b.stack, ElementKind::H3),
                    ..b
                },
            )
        } else if tag == "a"@ {
            (
                None,
                BuildView {
                    slot: TokenSlot::Idle,
                    stack: tree_pop_until(b.arena, b.stack, ElementKind::A),
                    ..b
                },
            )
        } else {
            (None, BuildView { slot: TokenSlot::Idle, ..b })
        },
        TokenView::Char(ch) => {
            let ins = tree_insert_char(b.arena, b.stack, ch);
            (None, BuildView { slot: TokenSlot::Idle, arena: ins.0, stack: ins.1, ..b })
        },
        TokenView::Eof => (Some(b.arena), b),
    }
}

#[verifier::opaque]
pub open spec fn bstep_text(t: TokenView, b: BuildView) -> (Option<Seq<NodeView>>, BuildView) {
    match t {
        TokenView::EndTag { tag } => if tag == "style"@ {
            (
                None,
                BuildView {
                    slot: TokenSlot::Idle,
                    mode: b.original_insertion_mode,
                    stack: tree_pop_until(b.arena, b.stack, ElementKind::Style),
                    ..b
                },
            )
        } else if tag == "script"@ {
            (
                None,
                BuildView {
                    slot: TokenSlot::Idle,
                    mode: b.original_insertion_mode,
                    stack: tree_pop_until(b.arena, b.stack, ElementKind::Script),
                    ..b
                },
            )
        } else {
            (None, BuildView { mode: b.original_insertion_mode, ..b })
        },
        TokenView::Char(ch) => {
            let ins = tree_insert_char(b.arena, b.stack, ch);
            (None, BuildView { slot: TokenSlot::Idle, arena: ins.0, stack: ins.1, ..b })
        },
        TokenView::Eof => (Some(b.arena), b),
        TokenView::StartTag { .. } => (None, BuildView { mode: b.original_insertion_mode, ..b }),
    }
}

#[verifier::opaque]
pub open spec fn bstep_after_body(t: TokenView, b: BuildView) -> (
    Option<Seq<NodeView>>,
    BuildView,
) {
    match t {
        TokenView::EndTag { tag } => if tag == "html"@ {
            (None, BuildView { slot: TokenSlot::Idle, mode: InsertionMode::AfterAfterBody, ..b })
        } else {
            (None, BuildView { mode: InsertionMode::InBody, ..b })
        },
        TokenView::Char(_) => (None, BuildView { slot: TokenSlot::Idle, ..b }),
        TokenView::Eof => (Some(b.arena), b),
        TokenView::StartTag { .. } => (None, BuildView { mode: InsertionMode::InBody, ..b }),
    }
}

#[verifier::opaque]
pub open spec fn bstep_after_after_body(t: TokenView, b: BuildView) -> (
    Option<Seq<NodeView>>,
    BuildView,
) {
    match t {
        TokenView::Char(_) => (None, BuildView { slot: TokenSlot::Idle, ..b }),
        TokenView::Eof => (Some(b.arena), b),
        _ => (None, BuildView { mode: InsertionMode::InBody, ..b }),
    }
}

/// One step of the tree construction: with an empty slot, ask the tokenizer
/// (its cursor already spent means the stream is over, else the tokenizer
/// machine is run one step at a time until it emits); with the stream over,
/// halt with the arena; with a token in the slot, take the current insertion
/// mode's transition.
pub open spec fn spec_build_step(b: BuildView) -> (Option<Seq<NodeView>>, BuildView) {
    match b.slot {
        TokenSlot::Idle => if b.tokenizer.pos >= b.tokenizer.input.len() {
            (None, BuildView { slot: TokenSlot::Have(None), ..b })
        } else {
            (None, BuildView { slot: TokenSlot::Pulling, ..b })
        },
        TokenSlot::Pulling => {
            let s = spec_step(b.tokenizer);
            match s.0 {
                Some(sig) => (None, BuildView { tokenizer: s.1, slot: TokenSlot::Have(sig), ..b }),
                None => (None, BuildView { tokenizer: s.1, ..b }),
            }
        },
        TokenSlot::Have(None) => (Some(b.arena), b),
        TokenSlot::Have(Some(t)) => match b.mode {
            InsertionMode::Initial => bstep_initial(t, b),
            InsertionMode::BeforeHtml => bstep_before_html(t, b),
            InsertionMode::BeforeHead => bstep_before_head(t, b),
            InsertionMode::InHead => bstep_in_head(t, b),
            InsertionMode::AfterHead => bstep_after_head(t, b),
            InsertionMode::InBody => bstep_in_body(t, b),
            InsertionMode::Text => bstep_text(t, b),
            InsertionMode::AfterBody => bstep_after_body(t, b),
            InsertionMode::AfterAfterBody => bstep_after_after_body(t, b),
        },
    }
}

/// At most `n` construction steps from `b`: the arena halted with, or the
/// state reached.
pub open spec fn spec_build(b: BuildView, n: nat) -> (Option<Seq<NodeView>>, BuildView)
    decreases n,
{
    if n == 0 {
        (None, b)
    } else {
        let s = spec_build_step(b);
        if s.0 is Some {
            s
        } else {
            spec_build(s.1, (n - 1) as nat)
        }
    }
}

/// Extending a non-halted construction run by one step performs that step on
/// the state reached.
pub proof fn lemma_build_run_step(b: BuildView, n: nat)
    requires
        spec_build(b, n).0 is None,
    ensures
        ({
            let s = spec_build_step(spec_build(b, n).1);
            spec_build(b, n + 1) == if s.0 is Some {
                s
            } else {
                (None::<Seq<NodeView>>, s.1)
            }
        }),
    decreases n,
{
    let s0 = spec_build_step(b);
    if n == 0 {
        assert(spec_build(b, 0) == (None::<Seq<NodeView>>, b));
        if s0.0 is None {
            assert(spec_build(s0.1, 0nat) == (None::<Seq<NodeView>>, s0.1));
            assert(spec_build(b, 1) == spec_build(s0.1, 0nat));
        }
    } else {
        if s0.0 is None {
            assert(spec_build(b, n) == spec_build(s0.1, (n - 1) as nat));
            assert(spec_build(b, n + 1) == spec_build(s0.1, n));
            lemma_build_run_step(s0.1, (n - 1) as nat);
        } else {
            assert(spec_build(b, n) == s0);
        }
    }
}

/// Runs compose: a non-halted run followed by another run is one run.
proof fn lemma_build_compose(b0: BuildView, k: nat, m: nat)
    requires
        spec_build(b0, k).0 is None,
    ensures
        spec_build(b0, k + m) == spec_build(spec_build(b0, k).1, m),
    decreases k,
{
    if k > 0 {
        let s0 = spec_build_step(b0);
        if s0.0 is None {
            assert(spec_build(b0, k) == spec_build(s0.1, (k - 1) as nat));
            assert(spec_build(b0, k + m) == spec_build(s0.1, ((k - 1) + m) as nat));
            lemma_build_compose(s0.1, (k - 1) as nat, m);
        } else {
            assert(spec_build(b0, k) == s0);
        }
    }
}

/// Lifting a tokenizer run into the construction: from a pulling slot, the
/// tokenizer's first emission lands in the slot.
proof fn lemma_build_pull(b: BuildView, n: nat)
    requires
        b.slot == TokenSlot::Pulling,
        spec_run(b.tokenizer, n).0 is Some,
    ensures
        exists|m: nat|
            #![auto]
            spec_build(b, m).0 is None && spec_build(b, m).1 == (BuildView {
                tokenizer: spec_run(b.tokenizer, n).1,
                slot: TokenSlot::Have(spec_run(b.tokenizer, n).0.unwrap()),
                ..b
            }),
    decreases n,
{
    let s = spec_step(b.tokenizer);
    if n == 0 {
        assert(spec_run(b.tokenizer, 0) == (None::<Option<TokenView>>, b.tokenizer));
    } else {
        if s.0 is Some {
            assert(spec_run(b.tokenizer, n) == s);
            let b1 = BuildView { tokenizer: s.1, slot: TokenSlot::Have(s.0.unwrap()), ..b };
            assert(spec_build_step(b) == (None::<Seq<NodeView>>, b1));
            assert(spec_build(b1, 0nat) == (None::<Seq<NodeView>>, b1));
            assert(spec_build(b, 1nat) == spec_build(b1, 0nat));
            assert(spec_build(b, 1nat).0 is None && spec_build(b, 1nat).1 == b1);
        } else {
            assert(spec_run(b.tokenizer, n) == spec_run(s.1, (n - 1) as nat));
            let b1 = BuildView { tokenizer: s.1, ..b };
            assert(spec_build_step(b) == (None::<Seq<NodeView>>, b1));
            lemma_build_pull(b1, (n - 1) as nat);
            let m0 = choose|m0: nat|
                #![auto]
                spec_build(b1, m0).0 is None && spec_build(b1, m0).1 == (BuildView {
                    tokenizer: spec_run(b1.tokenizer, (n - 1) as nat).1,
                    slot: TokenSlot::Have(spec_run(b1.tokenizer, (n - 1) as nat).0.unwrap()),
                    ..b1
                });
            assert(spec_build(b, m0 + 1) == spec_build(b1, m0));
        }
    }
}

/// Filling an idle slot: what the one exec call into the tokenizer does,
/// expressed as construction steps — the stream is over when the cursor is
/// already spent, else the tokenizer machine runs to its first emission.
proof fn lemma_build_fetch(
    b0: BuildView,
    k: nat,
    b1: BuildView,
    tok2: TokenizerView,
    r: Option<TokenView>,
)
    requires
        spec_build(b0, k).0 is None,
        spec_build(b0, k).1 == b1,
        b1.slot == TokenSlot::Idle,
        b1.tokenizer.pos >= b1.tokenizer.input.len() ==> tok2 == b1.tokenizer && r is None,
        b1.tokenizer.pos < b1.tokenizer.input.len() ==> exists|n: nat|
            spec_run(b1.tokenizer, n) == (Some(r), tok2),
    ensures
        exists|m: nat|
            #![auto]
            spec_build(b0, m).0 is None && spec_build(b0, m).1 == (BuildView {
                tokenizer: tok2,
                slot: TokenSlot::Have(r),
                ..b1
            }),
{
    if b1.tokenizer.pos >= b1.tokenizer.input.len() {
        lemma_build_run_step(b0, k);
        assert(spec_build_step(b1) == (None::<Seq<NodeView>>, (BuildView {
            slot: TokenSlot::Have(None),
            ..b1
        })));
        assert(spec_build(b0, k + 1).0 is None && spec_build(b0, k + 1).1 == (BuildView {
            tokenizer: tok2,
            slot: TokenSlot::Have(r),
            ..b1
        }));
    } else {
        lemma_build_run_step(b0, k);
        let bp = BuildView { slot: TokenSlot::Pulling, ..b1 };
        assert(spec_build_step(b1) == (None::<Seq<NodeView>>, bp));
        assert(spec_build(b0, k + 1).0 is None && spec_build(b0, k + 1).1 == bp);
        let n = choose|n: nat| spec_run(b1.tokenizer, n) == (Some(r), tok2);
        lemma_build_pull(bp, n);
        let m0 = choose|m0: nat|
            #![auto]
            spec_build(bp, m0).0 is None && spec_build(bp, m0).1 == (BuildView {
                tokenizer: spec_run(bp.tokenizer, n).1,
                slot: TokenSlot::Have(spec_run(bp.tokenizer, n).0.unwrap()),
                ..bp
            });
        lemma_build_compose(b0, (k + 1) as nat, m0);
        assert(spec_build(b0, (k + 1 + m0) as nat).0 is None && spec_build(
            b0,
            (k + 1 + m0) as nat,
        ).1 == (BuildView { tokenizer: tok2, slot: TokenSlot::Have(r), ..b1 }));
    }
}

pub struct HtmlParser {
    window: Window,
    mode: InsertionMode,
    original_insertion_mode: InsertionMode,
    stack_of_open_elements: Vec<usize>,
    tokenizer: HtmlTokenizer,
}

/// The parser's whole configuration.
pub struct ParserView {
    pub window: Seq<Node>,
    pub mode: InsertionMode,
    pub original_insertion_mode: InsertionMode,
    pub stack: Seq<usize>,
    pub tokenizer: TokenizerView,
}

impl View for HtmlParser {
    type V = ParserView;

    closed spec fn view(&self) -> ParserView {
        ParserView {
            window: self.window@,
            mode: self.mode,
            original_insertion_mode: self.original_insertion_mode,
            stack: self.stack_of_open_elements@,
            tokenizer: self.tokenizer@,
        }
    }
}

/// The construction state of a fresh parser over a fresh tokenizer on
/// `html`: what parsing a string from scratch runs.
pub open spec fn fresh_build(html: Seq<char>) -> BuildView {
    BuildView {
        tokenizer: TokenizerView {
            state: State::Data,
            pos: 0,
            past: false,
            re_consume: false,
            latest_token: None,
            input: html,
            buf: Seq::<char>::empty(),
        },
        slot: TokenSlot::Idle,
        mode: InsertionMode::Initial,
        original_insertion_mode: InsertionMode::Initial,
        arena: seq![
            NodeView {
                kind: NodeKindView::Document,
                parent: None,
                first_child: None,
                last_child: None,
                previous_sibling: None,
                next_sibling: None,
            },
        ],
        stack: Seq::<int>::empty(),
    }
}

/// The construction state a parser starts its run from: its own
/// configuration with an empty token slot.
pub open spec fn init_build(p: ParserView) -> BuildView {
    BuildView {
        tokenizer: p.tokenizer,
        slot: TokenSlot::Idle,
        mode: p.mode,
        original_insertion_mode: p.original_insertion_mode,
        arena: arena_view(p.window),
        stack: stack_view(p.stack),
    }
}

impl HtmlParser {
    /// The parser's well-formedness: the arena and the tokenizer are well
    /// formed, every open element is a real node, and the saved mode never
    /// points back into `Text`.
    pub closed spec fn wf(self) -> bool {
        &&& arena_wf(self.window@)
        &&& tags_recognized(self.window@)
        &&& stack_ok(self.window@, self.stack_of_open_elements@)
        &&& tokenizer_wf(self.tokenizer@)
        &&& self.original_insertion_mode != InsertionMode::Text
    }

    /// A parser over the given tokenizer, in the `Initial` mode, with an
    /// empty open-element stack and a fresh window holding one childless
    /// document node.
    pub fn new(tokenizer: HtmlTokenizer) -> (p: HtmlParser)
        requires
            tokenizer_wf(tokenizer@),
        ensures
            p.wf(),
            p@.mode == InsertionMode::Initial,
            p@.original_insertion_mode == InsertionMode::Initial,
            p@.stack == Seq::<usize>::empty(),
            p@.tokenizer == tokenizer@,
            p@.window.len() == 1,
            p@.window[0].kind is Document,
            p@.window[0].parent is None,
            p@.window[0].first_child is None,
            p@.window[0].last_child is None,
            p@.window[0].previous_sibling is None,
            p@.window[0].next_sibling is None,
    {
        let window = Window::new();
        proof {
            assert(crate::dom::node_wf(window@, 0));
        }
        HtmlParser {
            window,
            mode: InsertionMode::Initial,
            original_insertion_mode: InsertionMode::Initial,
            stack_of_open_elements: Vec::new(),
            tokenizer,
        }
    }

    /// An element node for this tag, carrying its attributes.
    fn create_element(&self, tag: &str, attributes: Vec<Attribute>) -> (k: NodeKind)
        ensures
            k matches NodeKind::Element(e) && e@.tag == tag@ && e@.attributes == attributes@
                .map_values(|a: Attribute| a@),
            kind_view(k) == (NodeKindView::Element {
                tag: tag@,
                attributes: attributes@.map_values(|a: Attribute| a@),
            }),
    {
        NodeKind::Element(Element::new(tag, attributes))
    }

    /// Creates an element and links it in as the last child of the current
    /// insertion parent, then opens it on the stack.
    fn insert_element(&mut self, tag: &str, attributes: Vec<Attribute>)
        requires
            arena_wf(old(self).window@),
            tags_recognized(old(self).window@),
            ElementKind::spec_from_tag(tag@) is Some,
            stack_ok(old(self).window@, old(self).stack_of_open_elements@),
        ensures
            arena_wf(final(self).window@),
            tags_recognized(final(self).window@),
            stack_ok(final(self).window@, final(self).stack_of_open_elements@),
            final(self).mode == old(self).mode,
            final(self).original_insertion_mode == old(self).original_insertion_mode,
            final(self).tokenizer == old(self).tokenizer,
            final(self).window@.len() == old(self).window@.len() + 1,
            final(self).stack_of_open_elements@ == old(self).stack_of_open_elements@.push(
                old(self).window@.len() as usize,
            ),
            ({
                let w = final(self).window@;
                let m = old(self).window@.len() as int;
                let p = insertion_parent(old(self).stack_of_open_elements@);
                &&& (w[m].kind matches NodeKind::Element(e) && e@.tag == tag@)
                &&& w[m].parent == Some(p as usize)
                &&& children(w, p) == children(old(self).window@, p).push(m)
                &&& (forall|i: int|
                    0 <= i < old(self).window@.len() ==> w[i].kind == old(self).window@[i].kind)
                &&& (forall|i: int|
                    0 <= i < old(self).window@.len() && i != p ==> children(w, i) == children(
                        old(self).window@,
                        i,
                    ))
            }),
            (
                arena_view(final(self).window@),
                stack_view(final(self).stack_of_open_elements@),
            ) == tree_insert_element(
                arena_view(old(self).window@),
                stack_view(old(self).stack_of_open_elements@),
                tag@,
                attributes@.map_values(|a: Attribute| a@),
            ),
    {
        let kind = self.create_element(tag, attributes);
        let parent: usize = if self.stack_of_open_elements.len() > 0 {
            self.stack_of_open_elements[self.stack_of_open_elements.len() - 1]
        } else {
            self.window.document()
        };
        let ghost w1 = self.window@;
        let ghost s1 = self.stack_of_open_elements@;
        let m = self.window.append_child(parent, kind);
        self.stack_of_open_elements.push(m);
        proof {
            let w2 = self.window@;
            assert forall|i: int| 0 <= i < w2.len() implies (match (#[trigger] w2[i].kind) {
                NodeKind::Element(e) => ElementKind::spec_from_tag(e@.tag) is Some,
                _ => true,
            }) by {
                if i < w1.len() {
                    assert(w2[i].kind == w1[i].kind);
                }
            }
            if s1.len() > 0 {
                assert(stack_view(s1).last() == s1.last() as int);
            }
            assert(stack_view(self.stack_of_open_elements@) =~= stack_view(s1).push(
                w1.len() as int,
            ));
        }
    }

    /// Pops the top of the stack when it is an element of this kind; returns
    /// whether it did.
    fn pop_current_node(&mut self, element_kind: ElementKind) -> (r: bool)
        requires
            arena_wf(old(self).window@),
            stack_ok(old(self).window@, old(self).stack_of_open_elements@),
        ensures
            final(self).window == old(self).window,
            final(self).mode == old(self).mode,
            final(self).original_insertion_mode == old(self).original_insertion_mode,
            final(self).tokenizer == old(self).tokenizer,
            stack_ok(final(self).window@, final(self).stack_of_open_elements@),
            ({
                let s0 = old(self).stack_of_open_elements@;
                if s0.len() == 0 {
                    !r && final(self).stack_of_open_elements@ == s0
                } else if spec_element_kind(old(self).window@[s0.last() as int].kind) == Some(
                    element_kind,
                ) {
                    r && final(self).stack_of_open_elements@ == s0.drop_last()
                } else {
                    !r && final(self).stack_of_open_elements@ == s0
                }
            }),
            (r, stack_view(final(self).stack_of_open_elements@)) == tree_pop_current(
                arena_view(old(self).window@),
                stack_view(old(self).stack_of_open_elements@),
                element_kind,
            ),
    {
        proof {
            let s0 = self.stack_of_open_elements@;
            if s0.len() > 0 {
                assert(stack_view(s0).last() == s0.last() as int);
                assert(arena_view(self.window@)[s0.last() as int].kind == kind_view(
                    self.window@[s0.last() as int].kind,
                ));
                assert(stack_view(s0).drop_last() =~= stack_view(s0.drop_last()));
            }
        }
        let n = self.stack_of_open_elements.len();
        if n == 0 {
            return false;
        }
        let current = self.stack_of_open_elements[n - 1];
        match (self.window.element_kind(current), element_kind) {
            (Some(k), _) => {
                if k == element_kind {
                    self.stack_of_open_elements.pop();
                    return true;
                }
                false
            },
            _ => false,
        }
    }

    /// Pops open elements until one of this kind has been popped; without
    /// one in the stack, empties it.
    fn pop_until(&mut self, element_kind: ElementKind)
        requires
            arena_wf(old(self).window@),
            stack_ok(old(self).window@, old(self).stack_of_open_elements@),
        ensures
            final(self).window == old(self).window,
            final(self).mode == old(self).mode,
            final(self).original_insertion_mode == old(self).original_insertion_mode,
            final(self).tokenizer == old(self).tokenizer,
            stack_ok(final(self).window@, final(self).stack_of_open_elements@),
            ({
                let s0 = old(self).stack_of_open_elements@;
                match top_match(old(self).window@, s0, element_kind) {
                    Some(j) => final(self).stack_of_open_elements@ == s0.subrange(0, j),
                    None => final(self).stack_of_open_elements@.len() == 0,
                }
            }),
            stack_view(final(self).stack_of_open_elements@) == tree_pop_until(
                arena_view(old(self).window@),
                stack_view(old(self).stack_of_open_elements@),
                element_kind,
            ),
    {
        proof {
            lemma_top_match_view(self.window@, self.stack_of_open_elements@, element_kind);
        }
        let ghost s0 = self.stack_of_open_elements@;
        let ghost w = self.window@;
        loop
            invariant
                self.window@ == w,
                arena_wf(w),
                stack_ok(w, self.stack_of_open_elements@),
                self.stack_of_open_elements@.len() <= s0.len(),
                self.stack_of_open_elements@ == s0.subrange(
                    0,
                    self.stack_of_open_elements@.len() as int,
                ),
                top_match(w, s0, element_kind) == top_match(
                    w,
                    self.stack_of_open_elements@,
                    element_kind,
                ),
                view_top_match(arena_view(w), stack_view(s0), element_kind) == top_match(
                    w,
                    s0,
                    element_kind,
                ),
                self.window == old(self).window,
                self.mode == old(self).mode,
                self.original_insertion_mode == old(self).original_insertion_mode,
                self.tokenizer == old(self).tokenizer,
                w == old(self).window@,
                s0 == old(self).stack_of_open_elements@,
            decreases self.stack_of_open_elements@.len(),
        {
            let ghost s_before = self.stack_of_open_elements@;
            let current = match self.stack_of_open_elements.pop() {
                Some(node) => node,
                None => {
                    proof {
                        assert(stack_view(self.stack_of_open_elements@) =~= Seq::<int>::empty());
                    }
                    return ;
                },
            };
            let matches_kind = match self.window.element_kind(current) {
                Some(k) => k == element_kind,
                None => false,
            };
            proof {
                assert(s_before.drop_last() =~= s0.subrange(
                    0,
                    self.stack_of_open_elements@.len() as int,
                ));
            }
            if matches_kind {
                proof {
                    assert(top_match(w, s_before, element_kind) == Some(s_before.len() - 1));
                    assert(stack_view(self.stack_of_open_elements@) =~= stack_view(s0).subrange(
                        0,
                        s_before.len() - 1,
                    ));
                }
                return ;
            }
        }
    }

    /// Whether the stack holds an element of this kind.
    fn contain_in_stack(&self, element_kind: ElementKind) -> (r: bool)
        requires
            arena_wf(self.window@),
            stack_ok(self.window@, self.stack_of_open_elements@),
        ensures
            r == exists|k: int|
                0 <= k < self.stack_of_open_elements@.len() && spec_element_kind(
                    self.window@[(#[trigger] self.stack_of_open_elements@[k]) as int].kind,
                ) == Some(element_kind),
            r == tree_contains(
                arena_view(self.window@),
                stack_view(self.stack_of_open_elements@),
                element_kind,
            ),
    {
        proof {
            let s = self.stack_of_open_elements@;
            let w = self.window@;
            assert forall|k: int|
                0 <= k < s.len() implies view_element_kind(
                arena_view(w)[#[trigger] stack_view(s)[k]].kind,
            ) == spec_element_kind(w[s[k] as int].kind) by {
                assert(stack_view(s)[k] == s[k] as int);
                assert(arena_view(w)[s[k] as int].kind == kind_view(w[s[k] as int].kind));
            }
        }
        let n = self.stack_of_open_elements.len();
        let mut i: usize = 0;
        while i < n
            invariant
                i <= n,
                n == self.stack_of_open_elements@.len(),
                arena_wf(self.window@),
                stack_ok(self.window@, self.stack_of_open_elements@),
                forall|k: int|
                    0 <= k < i ==> spec_element_kind(
                        self.window@[(#[trigger] self.stack_of_open_elements@[k]) as int].kind,
                    ) != Some(element_kind),
            decreases n - i,
        {
            let node = self.stack_of_open_elements[i];
            let found = match self.window.element_kind(node) {
                Some(k) => k == element_kind,
                None => false,
            };
            if found {
                proof {
                    let s = self.stack_of_open_elements@;
                    assert(stack_view(s)[i as int] == s[i as int] as int);
                    assert(view_element_kind(
                        arena_view(self.window@)[stack_view(s)[i as int]].kind,
                    ) == Some(element_kind));
                }
                return true;
            }
            i += 1;
        }
        proof {
            let s = self.stack_of_open_elements@;
            assert forall|k: int|
                0 <= k < s.len() implies view_element_kind(
                arena_view(self.window@)[#[trigger] stack_view(s)[k]].kind,
            ) != Some(element_kind) by {
                assert(stack_view(s)[k] == s[k] as int);
            }
        }
        false
    }

    /// Inserts one character: appended to the top text node if one is open;
    /// discarded at the root or as bare whitespace; otherwise opening a new
    /// text node under the current top.
    fn insert_char(&mut self, ch: char)
        requires
            arena_wf(old(self).window@),
            tags_recognized(old(self).window@),
            stack_ok(old(self).window@, old(self).stack_of_open_elements@),
        ensures
            arena_wf(final(self).window@),
            tags_recognized(final(self).window@),
            stack_ok(final(self).window@, final(self).stack_of_open_elements@),
            final(self).mode == old(self).mode,
            final(self).original_insertion_mode == old(self).original_insertion_mode,
            final(self).tokenizer == old(self).tokenizer,
            (
                arena_view(final(self).window@),
                stack_view(final(self).stack_of_open_elements@),
            ) == tree_insert_char(
                arena_view(old(self).window@),
                stack_view(old(self).stack_of_open_elements@),
                ch,
            ),
    {
        proof {
            let s0 = self.stack_of_open_elements@;
            if s0.len() > 0 {
                assert(stack_view(s0).last() == s0.last() as int);
                assert(arena_view(self.window@)[s0.last() as int].kind == kind_view(
                    self.window@[s0.last() as int].kind,
                ));
            }
        }
        let n = self.stack_of_open_elements.len();
        if n == 0 {
            return ;
        }
        let current = self.stack_of_open_elements[n - 1];
        let ghost w1 = self.window@;
        let ghost s1 = self.stack_of_open_elements@;
        if self.window.is_text(current) {
            self.window.append_to_text(current, ch);
            proof {
                lemma_tags_still_recognized(w1, self.window@);
            }
            return ;
        }
        if ch == '\n' || ch == ' ' {
            return ;
        }
        let m = self.window.append_child(current, self.create_text_node_from_char(ch));
        self.stack_of_open_elements.push(m);
        proof {
            lemma_tags_still_recognized(w1, self.window@);
            assert(stack_view(self.stack_of_open_elements@) =~= stack_view(s1).push(
                w1.len() as int,
            ));
        }
    }

    /// A text node holding just this character.
    fn create_text_node_from_char(&self, ch: char) -> (k: NodeKind)
        ensures
            k matches NodeKind::Text(s) && s@ == seq![ch],
            kind_view(k) == NodeKindView::Text(seq![ch]),
    {
        let mut s = String::new();
        push_char(&mut s, ch);
        proof {
            assert(s@ =~= seq![ch]);
        }
        NodeKind::Text(s)
    }

    /// How urgently the automaton must consume: the rank drops along every
    /// transition that changes the mode without consuming the token.
    pub open spec fn mode_rank(mode: InsertionMode, token: Option<HtmlToken>) -> int {
        match mode {
            InsertionMode::Initial => 9,
            InsertionMode::BeforeHtml => 8,
            InsertionMode::BeforeHead => 7,
            InsertionMode::InHead => 6,
            InsertionMode::AfterHead => 5,
            InsertionMode::InBody => 4,
            InsertionMode::Text => 10,
            InsertionMode::AfterBody => (match token {
                Some(HtmlToken::EndTag { tag }) => if tag@ == "html"@ {
                    3int
                } else {
                    5int
                },
                _ => 5int,
            }),
            InsertionMode::AfterAfterBody => 5,
        }
    }

    /// Runs the automaton to the end of the token stream and hands the
    /// window over: exactly the arena that `spec_build` halts with from this
    /// parser's configuration, and a well-formed one.
    #[verifier::rlimit(100)]
    pub fn construct_tree(self) -> (w: Window)
        requires
            self.wf(),
        ensures
            arena_wf(w@),
            tags_recognized(w@),
            exists|n: nat| #![auto] spec_build(init_build(self@), n).0 == Some(arena_view(w@)),
    {
        let ghost b0 = init_build(self@);
        let mut this = self;
        let ghost mut k: nat = 0;
        proof {
            assert(spec_build(b0, 0nat) == (None::<Seq<NodeView>>, b0));
        }
        let mut token: Option<HtmlToken> = this.tokenizer.next();
        proof {
            lemma_build_fetch(b0, 0nat, b0, this.tokenizer@, opt_token_view(token));
            k = choose|m: nat|
                #![auto]
                spec_build(b0, m).0 is None && spec_build(b0, m).1 == (BuildView {
                    tokenizer: this.tokenizer@,
                    slot: TokenSlot::Have(opt_token_view(token)),
                    ..b0
                });
        }
        loop
            invariant
                b0 == init_build(self@),
                arena_wf(this.window@),
                tags_recognized(this.window@),
                stack_ok(this.window@, this.stack_of_open_elements@),
                tokenizer_wf(this.tokenizer@),
                this.original_insertion_mode != InsertionMode::Text,
                spec_build(b0, k).0 is None,
                spec_build(b0, k).1 == (BuildView {
                    tokenizer: this.tokenizer@,
                    slot: TokenSlot::Have(opt_token_view(token)),
                    mode: this.mode,
                    original_insertion_mode: this.original_insertion_mode,
                    arena: arena_view(this.window@),
                    stack: stack_view(this.stack_of_open_elements@),
                }),
            decreases
                    m_pos(this.tokenizer@),
                    m_flag(this.tokenizer@),
                    this.tokenizer@.buf.len() as int,
                    st_rank(this.tokenizer@.state),
                    (if token is Some {
                        1int
                    } else {
                        0int
                    }),
                    Self::mode_rank(this.mode, token),
        {
            let ghost bu = spec_build(b0, k).1;
            proof {
                lemma_recognized_tags();
            }
            let t = match &token {
                Some(t) => t,
                None => {
                    proof {
                        lemma_build_run_step(b0, k);
                        assert(spec_build_step(bu).0 == Some(arena_view(this.window@)));
                        assert(spec_build(b0, k + 1).0 == Some(arena_view(this.window@)));
                    }
                    return this.window;
                },
            };
            match this.mode {
                InsertionMode::Initial => {
                    if let HtmlToken::Char(_) = t {
                        token = this.tokenizer.next();
                        proof {
                            reveal(bstep_initial);
                            let b_arm = BuildView { slot: TokenSlot::Idle, ..bu };
                            assert(spec_build_step(bu) == (None::<Seq<NodeView>>, b_arm));
                            lemma_build_run_step(b0, k);
                            lemma_build_fetch(
                                b0,
                                (k + 1) as nat,
                                b_arm,
                                this.tokenizer@,
                                opt_token_view(token),
                            );
                            k = choose|m: nat|
                                #![auto]
                                spec_build(b0, m).0 is None && spec_build(b0, m).1 == (BuildView {
                                    tokenizer: this.tokenizer@,
                                    slot: TokenSlot::Have(opt_token_view(token)),
                                    ..b_arm
                                });
                        }
                        continue;
                    }
                    this.mode = InsertionMode::BeforeHtml;
                    proof {
                        reveal(bstep_initial);
                        let b_arm = BuildView { mode: InsertionMode::BeforeHtml, ..bu };
                        assert(spec_build_step(bu) == (None::<Seq<NodeView>>, b_arm));
                        lemma_build_run_step(b0, k);
                        k = k + 1;
                    }
                    continue;
                },
                InsertionMode::BeforeHtml => {
                    match t {
                        HtmlToken::StartTag { tag, attributes, .. } => {
                            if str_eq(tag.as_str(), "html") {
                                this.insert_element("html", clone_attributes(attributes));
                                this.mode = InsertionMode::BeforeHead;
                                token = this.tokenizer.next();
                                proof {
                                    reveal(bstep_before_html);
                                    let b_arm = BuildView {
                                        tokenizer: bu.tokenizer,
                                        slot: TokenSlot::Idle,
                                        mode: this.mode,
                                        original_insertion_mode: this.original_insertion_mode,
                                        arena: arena_view(this.window@),
                                        stack: stack_view(this.stack_of_open_elements@),
                                    };
                                    assert(spec_build_step(bu) == (None::<Seq<NodeView>>, b_arm));
                                    lemma_build_run_step(b0, k);
                                    lemma_build_fetch(
                                        b0,
                                        (k + 1) as nat,
                                        b_arm,
                                        this.tokenizer@,
                                        opt_token_view(token),
                                    );
                                    k = choose|m: nat|
                                        #![auto]
                                        spec_build(b0, m).0 is None && spec_build(b0, m).1 == (
                                        BuildView {
                                            tokenizer: this.tokenizer@,
                                            slot: TokenSlot::Have(opt_token_view(token)),
                                            ..b_arm
                                        });
                                }
                                continue;
                            }
                        },
                        HtmlToken::Char(ch) => {
                            if *ch == ' ' || *ch == '\n' {
                                token = this.tokenizer.next();
                                proof {
                                    reveal(bstep_before_html);
                                    let b_arm = BuildView { slot: TokenSlot::Idle, ..bu };
                                    assert(spec_build_step(bu) == (None::<Seq<NodeView>>, b_arm));
                                    lemma_build_run_step(b0, k);
                                    lemma_build_fetch(
                                        b0,
                                        (k + 1) as nat,
                                        b_arm,
                                        this.tokenizer@,
                                        opt_token_view(token),
                                    );
                                    k = choose|m: nat|
                                        #![auto]
                                        spec_build(b0, m).0 is None && spec_build(b0, m).1 == (
                                        BuildView {
                                            tokenizer: this.tokenizer@,
                                            slot: TokenSlot::Have(opt_token_view(token)),
                                            ..b_arm
                                        });
                                }
                                continue;
                            }
                        },
                        HtmlToken::Eof => {
                            proof {
                                reveal(bstep_before_html);
                                lemma_build_run_step(b0, k);
                                assert(spec_build_step(bu).0 == Some(arena_view(this.window@)));
                                assert(spec_build(b0, k + 1).0 == Some(arena_view(this.window@)));
                            }
                            return this.window;
                        },
                        _ => {},
                    }
                    let empty_attrs: Vec<Attribute> = Vec::new();
                    this.insert_element("html", empty_attrs);
                    this.mode = InsertionMode::BeforeHead;
                    proof {
                        reveal(bstep_before_html);
                        assert(Seq::<Attribute>::empty().map_values(|a: Attribute| a@) =~= Seq::<
                            AttributeView,
                        >::empty());
                        let b_arm = BuildView {
                            tokenizer: bu.tokenizer,
                            slot: bu.slot,
                            mode: this.mode,
                            original_insertion_mode: this.original_insertion_mode,
                            arena: arena_view(this.window@),
                            stack: stack_view(this.stack_of_open_elements@),
                        };
                        assert(spec_build_step(bu) == (None::<Seq<NodeView>>, b_arm));
                        lemma_build_run_step(b0, k);
                        k = k + 1;
                    }
                    continue;
                },
                InsertionMode::BeforeHead => {
                    match t {
                        HtmlToken::StartTag { tag, attributes, .. } => {
                            if str_eq(tag.as_str(), "head") {
                                this.insert_element("head", clone_attributes(attributes));
                                this.mode = InsertionMode::InHead;
                                token = this.tokenizer.next();
                                proof {
                                    reveal(bstep_before_head);
                                    let b_arm = BuildView {
                                        tokenizer: bu.tokenizer,
                                        slot: TokenSlot::Idle,
                                        mode: this.mode,
                                        original_insertion_mode: this.original_insertion_mode,
                                        arena: arena_view(this.window@),
                                        stack: stack_view(this.stack_of_open_elements@),
                                    };
                                    assert(spec_build_step(bu) == (None::<Seq<NodeView>>, b_arm));
                                    lemma_build_run_step(b0, k);
                                    lemma_build_fetch(
                                        b0,
                                        (k + 1) as nat,
                                        b_arm,
                                        this.tokenizer@,
                                        opt_token_view(token),
                                    );
                                    k = choose|m: nat|
                                        #![auto]
                                        spec_build(b0, m).0 is None && spec_build(b0, m).1 == (
                                        BuildView {
                                            tokenizer: this.tokenizer@,
                                            slot: TokenSlot::Have(opt_token_view(token)),
                                            ..b_arm
                                        });
                                }
                                continue;
                            }
                        },
                        HtmlToken::Char(ch) => {
                            if *ch == ' ' || *ch == '\n' {
                                token = this.tokenizer.next();
                                proof {
                                    reveal(bstep_before_head);
                                    let b_arm = BuildView { slot: TokenSlot::Idle, ..bu };
                                    assert(spec_build_step(bu) == (None::<Seq<NodeView>>, b_arm));
                                    lemma_build_run_step(b0, k);
                                    lemma_build_fetch(
                                        b0,
                                        (k + 1) as nat,
                                        b_arm,
                                        this.tokenizer@,
                                        opt_token_view(token),
                                    );
                                    k = choose|m: nat|
                                        #![auto]
                                        spec_build(b0, m).0 is None && spec_build(b0, m).1 == (
                                        BuildView {
                                            tokenizer: this.tokenizer@,
                                            slot: TokenSlot::Have(opt_token_view(token)),
                                            ..b_arm
                                        });
                                }
                                continue;
                            }
                        },
                        HtmlToken::Eof => {
                            proof {
                                reveal(bstep_before_head);
                                lemma_build_run_step(b0, k);
                                assert(spec_build_step(bu).0 == Some(arena_view(this.window@)));
                                assert(spec_build(b0, k + 1).0 == Some(arena_view(this.window@)));
                            }
                            return this.window;
                        },
                        _ => {},
                    }
                    let empty_attrs: Vec<Attribute> = Vec::new();
                    this.insert_element("head", empty_attrs);
                    this.mode = InsertionMode::InHead;
                    proof {
                        reveal(bstep_before_head);
                        assert(Seq::<Attribute>::empty().map_values(|a: Attribute| a@) =~= Seq::<
                            AttributeView,
                        >::empty());
                        let b_arm = BuildView {
                            tokenizer: bu.tokenizer,
                            slot: bu.slot,
                            mode: this.mode,
                            original_insertion_mode: this.original_insertion_mode,
                            arena: arena_view(this.window@),
                            stack: stack_view(this.stack_of_open_elements@),
                        };
                        assert(spec_build_step(bu) == (None::<Seq<NodeView>>, b_arm));
                        lemma_build_run_step(b0, k);
                        k = k + 1;
                    }
                    continue;
                },
                InsertionMode::InHead => {
                    match t {
                        HtmlToken::StartTag { tag, attributes, .. } => {
                            if str_eq(tag.as_str(), "style") {
                                this.insert_element("style", clone_attributes(attributes));
                                this.original_insertion_mode = InsertionMode::InHead;
                                this.mode = InsertionMode::Text;
                            } else if str_eq(tag.as_str(), "script") {
                                this.insert_element("script", clone_attributes(attributes));
                                this.original_insertion_mode = InsertionMode::InHead;
                                this.mode = InsertionMode::Text;
                            } else if str_eq(tag.as_str(), "body") {
                                this.pop_until(ElementKind::Head);
                                this.mode = InsertionMode::AfterHead;
                                proof {
                                    reveal(bstep_in_head);
                                    let b_arm = BuildView {
                                        tokenizer: bu.tokenizer,
                                        slot: bu.slot,
                                        mode: this.mode,
                                        original_insertion_mode: this.original_insertion_mode,
                                        arena: arena_view(this.window@),
                                        stack: stack_view(this.stack_of_open_elements@),
                                    };
                                    assert(spec_build_step(bu) == (None::<Seq<NodeView>>, b_arm));
                                    lemma_build_run_step(b0, k);
                                    k = k + 1;
                                }
                                continue;
                            } else if ElementKind::from_str(tag.as_str()).is_some() {
                                this.pop_until(ElementKind::Head);
                                this.mode = InsertionMode::AfterHead;
                                proof {
                                    reveal(bstep_in_head);
                                    let b_arm = BuildView {
                                        tokenizer: bu.tokenizer,
                                        slot: bu.slot,
                                        mode: this.mode,
                                        original_insertion_mode: this.original_insertion_mode,
                                        arena: arena_view(this.window@),
                                        stack: stack_view(this.stack_of_open_elements@),
                                    };
                                    assert(spec_build_step(bu) == (None::<Seq<NodeView>>, b_arm));
                                    lemma_build_run_step(b0, k);
                                    k = k + 1;
                                }
                                continue;
                            }
                        },
                        HtmlToken::EndTag { tag } => {
                            if str_eq(tag.as_str(), "head") {
                                this.pop_until(ElementKind::Head);
                                this.mode = InsertionMode::AfterHead;
                            }
                        },
                        HtmlToken::Char(ch) => {
                            if *ch == ' ' || *ch == '\n' {
                                let c = *ch;
                                this.insert_char(c);
                            }
                        },
                        HtmlToken::Eof => {
                            proof {
                                reveal(bstep_in_head);
                                lemma_build_run_step(b0, k);
                                assert(spec_build_step(bu).0 == Some(arena_view(this.window@)));
                                assert(spec_build(b0, k + 1).0 == Some(arena_view(this.window@)));
                            }
                            return this.window;
                        },
                    }
                    // unsupported tags are dropped
                    token = this.tokenizer.next();
                    proof {
                        reveal(bstep_in_head);
                        let b_arm = BuildView {
                            tokenizer: bu.tokenizer,
                            slot: TokenSlot::Idle,
                            mode: this.mode,
                            original_insertion_mode: this.original_insertion_mode,
                            arena: arena_view(this.window@),
                            stack: stack_view(this.stack_of_open_elements@),
                        };
                        assert(spec_build_step(bu) == (None::<Seq<NodeView>>, b_arm));
                        lemma_build_run_step(b0, k);
                        lemma_build_fetch(
                            b0,
                            (k + 1) as nat,
                            b_arm,
                            this.tokenizer@,
                            opt_token_view(token),
                        );
                        k = choose|m: nat|
                            #![auto]
                            spec_build(b0, m).0 is None && spec_build(b0, m).1 == (BuildView {
                                tokenizer: this.tokenizer@,
                                slot: TokenSlot::Have(opt_token_view(token)),
                                ..b_arm
                            });
                    }
                    continue;
                },
                InsertionMode::AfterHead => {
                    match t {
                        HtmlToken::StartTag { tag, attributes, .. } => {
                            if str_eq(tag.as_str(), "body") {
                                this.insert_element("body", clone_attributes(attributes));
                                this.mode = InsertionMode::InBody;
                                token = this.tokenizer.next();
                                proof {
                                    reveal(bstep_after_head);
                                    let b_arm = BuildView {
                                        tokenizer: bu.tokenizer,
                                        slot: TokenSlot::Idle,
                                        mode: this.mode,
                                        original_insertion_mode: this.original_insertion_mode,
                                        arena: arena_view(this.window@),
                                        stack: stack_view(this.stack_of_open_elements@),
                                    };
                                    assert(spec_build_step(bu) == (None::<Seq<NodeView>>, b_arm));
                                    lemma_build_run_step(b0, k);
                                    lemma_build_fetch(
                                        b0,
                                        (k + 1) as nat,
                                        b_arm,
                                        this.tokenizer@,
                                        opt_token_view(token),
                                    );
                                    k = choose|m: nat|
                                        #![auto]
                                        spec_build(b0, m).0 is None && spec_build(b0, m).1 == (
                                        BuildView {
                                            tokenizer: this.tokenizer@,
                                            slot: TokenSlot::Have(opt_token_view(token)),
                                            ..b_arm
                                        });
                                }
                                continue;
                            }
                        },
                        HtmlToken::Char(ch) => {
                            if *ch == ' ' || *ch == '\n' {
                                let c = *ch;
                                this.insert_char(c);
                                token = this.tokenizer.next();
                                proof {
                                    reveal(bstep_after_head);
                                    let b_arm = BuildView {
                                        tokenizer: bu.tokenizer,
                                        slot: TokenSlot::Idle,
                                        mode: this.mode,
                                        original_insertion_mode: this.original_insertion_mode,
                                        arena: arena_view(this.window@),
                                        stack: stack_view(this.stack_of_open_elements@),
                                    };
                                    assert(spec_build_step(bu) == (None::<Seq<NodeView>>, b_arm));
                                    lemma_build_run_step(b0, k);
                                    lemma_build_fetch(
                                        b0,
                                        (k + 1) as nat,
                                        b_arm,
                                        this.tokenizer@,
                                        opt_token_view(token),
                                    );
                                    k = choose|m: nat|
                                        #![auto]
                                        spec_build(b0, m).0 is None && spec_build(b0, m).1 == (
                                        BuildView {
                                            tokenizer: this.tokenizer@,
                                            slot: TokenSlot::Have(opt_token_view(token)),
                                            ..b_arm
                                        });
                                }
                                continue;
                            }
                        },
                        HtmlToken::Eof => {
                            proof {
                                reveal(bstep_after_head);
                                lemma_build_run_step(b0, k);
                                assert(spec_build_step(bu).0 == Some(arena_view(this.window@)));
                                assert(spec_build(b0, k + 1).0 == Some(arena_view(this.window@)));
                            }
                            return this.window;
                        },
                        _ => {},
                    }
                    let empty_attrs: Vec<Attribute> = Vec::new();
                    this.insert_element("body", empty_attrs);
                    this.mode = InsertionMode::InBody;
                    proof {
                        reveal(bstep_after_head);
                        assert(Seq::<Attribute>::empty().map_values(|a: Attribute| a@) =~= Seq::<
                            AttributeView,
                        >::empty());
                        let b_arm = BuildView {
                            tokenizer: bu.tokenizer,
                            slot: bu.slot,
                            mode: this.mode,
                            original_insertion_mode: this.original_insertion_mode,
                            arena: arena_view(this.window@),
                            stack: stack_view(this.stack_of_open_elements@),
                        };
                        assert(spec_build_step(bu) == (None::<Seq<NodeView>>, b_arm));
                        lemma_build_run_step(b0, k);
                        k = k + 1;
                    }
                    continue;
                },
                InsertionMode::InBody => {
                    match t {
                        HtmlToken::StartTag { tag, attributes, .. } => {
                            if str_eq(tag.as_str(), "p") {
                                this.insert_element("p", clone_attributes(attributes));
                            } else if str_eq(tag.as_str(), "h1") {
                                this.insert_element("h1", clone_attributes(attributes));
                            } else if str_eq(tag.as_str(), "h2") {
                                this.insert_element("h2", clone_attributes(attributes));
                            } else if str_eq(tag.as_str(), "h3") {
                                this.insert_element("h3", clone_attributes(attributes));
                            } else if str_eq(tag.as_str(), "a") {
                                this.insert_element("a", clone_attributes(attributes));
                            }
                            // unknown start tags are dropped
                            token = this.tokenizer.next();
                            proof {
                                reveal(bstep_in_body);
                                let b_arm = BuildView {
                                    tokenizer: bu.tokenizer,
                                    slot: TokenSlot::Idle,
                                    mode: this.mode,
                                    original_insertion_mode: this.original_insertion_mode,
                                    arena: arena_view(this.window@),
                                    stack: stack_view(this.stack_of_open_elements@),
                                };
                                assert(spec_build_step(bu) == (None::<Seq<NodeView>>, b_arm));
                                lemma_build_run_step(b0, k);
                                lemma_build_fetch(
                                    b0,
                                    (k + 1) as nat,
                                    b_arm,
                                    this.tokenizer@,
                                    opt_token_view(token),
                                );
                                k = choose|m: nat|
                                    #![auto]
                                    spec_build(b0, m).0 is None && spec_build(b0, m).1 == (
                                    BuildView {
                                        tokenizer: this.tokenizer@,
                                        slot: TokenSlot::Have(opt_token_view(token)),
                                        ..b_arm
                                    });
                            }
                            continue;
                        },
                        HtmlToken::EndTag { tag } => {
                            if str_eq(tag.as_str(), "body") {
                                this.mode = InsertionMode::AfterBody;
                                token = this.tokenizer.next();
                                if this.contain_in_stack(ElementKind::Body) {
                                    this.pop_until(ElementKind::Body);
                                }
                                proof {
                                    reveal(bstep_in_body);
                                    let b_arm = BuildView {
                                        tokenizer: bu.tokenizer,
                                        slot: TokenSlot::Idle,
                                        mode: this.mode,
                                        original_insertion_mode: this.original_insertion_mode,
                                        arena: arena_view(this.window@),
                                        stack: stack_view(this.stack_of_open_elements@),
                                    };
                                    assert(spec_build_step(bu) == (None::<Seq<NodeView>>, b_arm));
                                    lemma_build_run_step(b0, k);
                                    lemma_build_fetch(
                                        b0,
                                        (k + 1) as nat,
                                        b_arm,
                                        this.tokenizer@,
                                        opt_token_view(token),
                                    );
                                    k = choose|m: nat|
                                        #![auto]
                                        spec_build(b0, m).0 is None && spec_build(b0, m).1 == (
                                        BuildView {
                                            tokenizer: this.tokenizer@,
                                            slot: TokenSlot::Have(opt_token_view(token)),
                                            ..b_arm
                                        });
                                }
                                continue;
                            }
                            if str_eq(tag.as_str(), "html") {
                                if this.pop_current_node(ElementKind::Body) {
                                    this.mode = InsertionMode::AfterBody;
                                    let _ = this.pop_current_node(ElementKind::Html);
                                    proof {
                                        reveal(bstep_in_body);
                                        let b_arm = BuildView {
                                            tokenizer: bu.tokenizer,
                                            slot: bu.slot,
                                            mode: this.mode,
                                            original_insertion_mode: this.original_insertion_mode,
                                            arena: arena_view(this.window@),
                                            stack: stack_view(this.stack_of_open_elements@),
                                        };
                                        assert(spec_build_step(bu) == (None::<Seq<NodeView>>, b_arm));
                                        lemma_build_run_step(b0, k);
                                        k = k + 1;
                                    }
                                } else {
                                    token = this.tokenizer.next();
                                    proof {
                                        reveal(bstep_in_body);
                                        let b_arm = BuildView { slot: TokenSlot::Idle, ..bu };
                                        assert(spec_build_step(bu) == (None::<Seq<NodeView>>, b_arm));
                                        lemma_build_run_step(b0, k);
                                        lemma_build_fetch(
                                            b0,
                                            (k + 1) as nat,
                                            b_arm,
                                            this.tokenizer@,
                                            opt_token_view(token),
                                        );
                                        k = choose|m: nat|
                                            #![auto]
                                            spec_build(b0, m).0 is None && spec_build(b0, m).1 == (
                                            BuildView {
                                                tokenizer: this.tokenizer@,
                                                slot: TokenSlot::Have(opt_token_view(token)),
                                                ..b_arm
                                            });
                                    }
                                }
                                continue;
                            }
                            if str_eq(tag.as_str(), "p") {
                                this.pop_until(ElementKind::P);
                            } else if str_eq(tag.as_str(), "h1") {
                                this.pop_until(ElementKind::H1);
                            } else if str_eq(tag.as_str(), "h2") {
                                this.pop_until(ElementKind::H2);
                            } else if str_eq(tag.as_str(), "h3") {
                                this.pop_until(ElementKind::H3);
                            } else if str_eq(tag.as_str(), "a") {
                                this.pop_until(ElementKind::A);
                            }
                            // unknown end tags are dropped
                            token = this.tokenizer.next();
                            proof {
                                reveal(bstep_in_body);
                                let b_arm = BuildView {
                                    tokenizer: bu.tokenizer,
                                    slot: TokenSlot::Idle,
                                    mode: this.mode,
                                    original_insertion_mode: this.original_insertion_mode,
                                    arena: arena_view(this.window@),
                                    stack: stack_view(this.stack_of_open_elements@),
                                };
                                assert(spec_build_step(bu) == (None::<Seq<NodeView>>, b_arm));
                                lemma_build_run_step(b0, k);
                                lemma_build_fetch(
                                    b0,
                                    (k + 1) as nat,
                                    b_arm,
                                    this.tokenizer@,
                                    opt_token_view(token),
                                );
                                k = choose|m: nat|
                                    #![auto]
                                    spec_build(b0, m).0 is None && spec_build(b0, m).1 == (
                                    BuildView {
                                        tokenizer: this.tokenizer@,
                                        slot: TokenSlot::Have(opt_token_view(token)),
                                        ..b_arm
                                    });
                            }
                            continue;
                        },
                        HtmlToken::Char(ch) => {
                            let c = *ch;
                            this.insert_char(c);
                            token = this.tokenizer.next();
                            proof {
                                reveal(bstep_in_body);
                                let b_arm = BuildView {
                                    tokenizer: bu.tokenizer,
                                    slot: TokenSlot::Idle,
                                    mode: this.mode,
                                    original_insertion_mode: this.original_insertion_mode,
                                    arena: arena_view(this.window@),
                                    stack: stack_view(this.stack_of_open_elements@),
                                };
                                assert(spec_build_step(bu) == (None::<Seq<NodeView>>, b_arm));
                                lemma_build_run_step(b0, k);
                                lemma_build_fetch(
                                    b0,
                                    (k + 1) as nat,
                                    b_arm,
                                    this.tokenizer@,
                                    opt_token_view(token),
                                );
                                k = choose|m: nat|
                                    #![auto]
                                    spec_build(b0, m).0 is None && spec_build(b0, m).1 == (
                                    BuildView {
                                        tokenizer: this.tokenizer@,
                                        slot: TokenSlot::Have(opt_token_view(token)),
                                        ..b_arm
                                    });
                            }
                            continue;
                        },
                        HtmlToken::Eof => {
                            proof {
                                reveal(bstep_in_body);
                                lemma_build_run_step(b0, k);
                                assert(spec_build_step(bu).0 == Some(arena_view(this.window@)));
                                assert(spec_build(b0, k + 1).0 == Some(arena_view(this.window@)));
                            }
                            return this.window;
                        },
                    }
                },
                InsertionMode::Text => {
                    match t {
                        HtmlToken::EndTag { tag } => {
                            if str_eq(tag.as_str(), "style") {
                                this.pop_until(ElementKind::Style);
                                this.mode = this.original_insertion_mode;
                                token = this.tokenizer.next();
                                proof {
                                    reveal(bstep_text);
                                    let b_arm = BuildView {
                                        tokenizer: bu.tokenizer,
                                        slot: TokenSlot::Idle,
                                        mode: this.mode,
                                        original_insertion_mode: this.original_insertion_mode,
                                        arena: arena_view(this.window@),
                                        stack: stack_view(this.stack_of_open_elements@),
                                    };
                                    assert(spec_build_step(bu) == (None::<Seq<NodeView>>, b_arm));
                                    lemma_build_run_step(b0, k);
                                    lemma_build_fetch(
                                        b0,
                                        (k + 1) as nat,
                                        b_arm,
                                        this.tokenizer@,
                                        opt_token_view(token),
                                    );
                                    k = choose|m: nat|
                                        #![auto]
                                        spec_build(b0, m).0 is None && spec_build(b0, m).1 == (
                                        BuildView {
                                            tokenizer: this.tokenizer@,
                                            slot: TokenSlot::Have(opt_token_view(token)),
                                            ..b_arm
                                        });
                                }
                                continue;
                            }
                            if str_eq(tag.as_str(), "script") {
                                this.pop_until(ElementKind::Script);
                                this.mode = this.original_insertion_mode;
                                token = this.tokenizer.next();
                                proof {
                                    reveal(bstep_text);
                                    let b_arm = BuildView {
                                        tokenizer: bu.tokenizer,
                                        slot: TokenSlot::Idle,
                                        mode: this.mode,
                                        original_insertion_mode: this.original_insertion_mode,
                                        arena: arena_view(this.window@),
                                        stack: stack_view(this.stack_of_open_elements@),
                                    };
                                    assert(spec_build_step(bu) == (None::<Seq<NodeView>>, b_arm));
                                    lemma_build_run_step(b0, k);
                                    lemma_build_fetch(
                                        b0,
                                        (k + 1) as nat,
                                        b_arm,
                                        this.tokenizer@,
                                        opt_token_view(token),
                                    );
                                    k = choose|m: nat|
                                        #![auto]
                                        spec_build(b0, m).0 is None && spec_build(b0, m).1 == (
                                        BuildView {
                                            tokenizer: this.tokenizer@,
                                            slot: TokenSlot::Have(opt_token_view(token)),
                                            ..b_arm
                                        });
                                }
                                continue;
                            }
                        },
                        HtmlToken::Char(ch) => {
                            let c = *ch;
                            this.insert_char(c);
                            token = this.tokenizer.next();
                            proof {
                                reveal(bstep_text);
                                let b_arm = BuildView {
                                    tokenizer: bu.tokenizer,
                                    slot: TokenSlot::Idle,
                                    mode: this.mode,
                                    original_insertion_mode: this.original_insertion_mode,
                                    arena: arena_view(this.window@),
                                    stack: stack_view(this.stack_of_open_elements@),
                                };
                                assert(spec_build_step(bu) == (None::<Seq<NodeView>>, b_arm));
                                lemma_build_run_step(b0, k);
                                lemma_build_fetch(
                                    b0,
                                    (k + 1) as nat,
                                    b_arm,
                                    this.tokenizer@,
                                    opt_token_view(token),
                                );
                                k = choose|m: nat|
                                    #![auto]
                                    spec_build(b0, m).0 is None && spec_build(b0, m).1 == (
                                    BuildView {
                                        tokenizer: this.tokenizer@,
                                        slot: TokenSlot::Have(opt_token_view(token)),
                                        ..b_arm
                                    });
                            }
                            continue;
                        },
                        HtmlToken::Eof => {
                            proof {
                                reveal(bstep_text);
                                lemma_build_run_step(b0, k);
                                assert(spec_build_step(bu).0 == Some(arena_view(this.window@)));
                                assert(spec_build(b0, k + 1).0 == Some(arena_view(this.window@)));
                            }
                            return this.window;
                        },
                        _ => {},
                    }
                    this.mode = this.original_insertion_mode;
                    proof {
                        reveal(bstep_text);
                        let b_arm = BuildView { mode: this.mode, ..bu };
                        assert(spec_build_step(bu) == (None::<Seq<NodeView>>, b_arm));
                        lemma_build_run_step(b0, k);
                        k = k + 1;
                    }
                    continue;
                },
                InsertionMode::AfterBody => {
                    match t {
                        HtmlToken::EndTag { tag } => {
                            if str_eq(tag.as_str(), "html") {
                                this.mode = InsertionMode::AfterAfterBody;
                                token = this.tokenizer.next();
                                proof {
                                    reveal(bstep_after_body);
                                    let b_arm = BuildView {
                                        slot: TokenSlot::Idle,
                                        mode: InsertionMode::AfterAfterBody,
                                        ..bu
                                    };
                                    assert(spec_build_step(bu) == (None::<Seq<NodeView>>, b_arm));
                                    lemma_build_run_step(b0, k);
                                    lemma_build_fetch(
                                        b0,
                                        (k + 1) as nat,
                                        b_arm,
                                        this.tokenizer@,
                                        opt_token_view(token),
                                    );
                                    k = choose|m: nat|
                                        #![auto]
                                        spec_build(b0, m).0 is None && spec_build(b0, m).1 == (
                                        BuildView {
                                            tokenizer: this.tokenizer@,
                                            slot: TokenSlot::Have(opt_token_view(token)),
                                            ..b_arm
                                        });
                                }
                                continue;
                            }
                        },
                        HtmlToken::Char(_) => {
                            token = this.tokenizer.next();
                            proof {
                                reveal(bstep_after_body);
                                let b_arm = BuildView { slot: TokenSlot::Idle, ..bu };
                                assert(spec_build_step(bu) == (None::<Seq<NodeView>>, b_arm));
                                lemma_build_run_step(b0, k);
                                lemma_build_fetch(
                                    b0,
                                    (k + 1) as nat,
                                    b_arm,
                                    this.tokenizer@,
                                    opt_token_view(token),
                                );
                                k = choose|m: nat|
                                    #![auto]
                                    spec_build(b0, m).0 is None && spec_build(b0, m).1 == (
                                    BuildView {
                                        tokenizer: this.tokenizer@,
                                        slot: TokenSlot::Have(opt_token_view(token)),
                                        ..b_arm
                                    });
                            }
                            continue;
                        },
                        HtmlToken::Eof => {
                            proof {
                                reveal(bstep_after_body);
                                lemma_build_run_step(b0, k);
                                assert(spec_build_step(bu).0 == Some(arena_view(this.window@)));
                                assert(spec_build(b0, k + 1).0 == Some(arena_view(this.window@)));
                            }
                            return this.window;
                        },
                        _ => {},
                    }
                    this.mode = InsertionMode::InBody;
                    proof {
                        reveal(bstep_after_body);
                        let b_arm = BuildView { mode: InsertionMode::InBody, ..bu };
                        assert(spec_build_step(bu) == (None::<Seq<NodeView>>, b_arm));
                        lemma_build_run_step(b0, k);
                        k = k + 1;
                    }
                    continue;
                },
                InsertionMode::AfterAfterBody => {
                    match t {
                        HtmlToken::Char(_) => {
                            token = this.tokenizer.next();
                            proof {
                                reveal(bstep_after_after_body);
                                let b_arm = BuildView { slot: TokenSlot::Idle, ..bu };
                                assert(spec_build_step(bu) == (None::<Seq<NodeView>>, b_arm));
                                lemma_build_run_step(b0, k);
                                lemma_build_fetch(
                                    b0,
                                    (k + 1) as nat,
                                    b_arm,
                                    this.tokenizer@,
                                    opt_token_view(token),
                                );
                                k = choose|m: nat|
                                    #![auto]
                                    spec_build(b0, m).0 is None && spec_build(b0, m).1 == (
                                    BuildView {
                                        tokenizer: this.tokenizer@,
                                        slot: TokenSlot::Have(opt_token_view(token)),
                                        ..b_arm
                                    });
                            }
                            continue;
                        },
                        HtmlToken::Eof => {
                            proof {
                                reveal(bstep_after_after_body);
                                lemma_build_run_step(b0, k);
                                assert(spec_build_step(bu).0 == Some(arena_view(this.window@)));
                                assert(spec_build(b0, k + 1).0 == Some(arena_view(this.window@)));
                            }
                            return this.window;
                        },
                        _ => {},
                    }
                    this.mode = InsertionMode::InBody;
                    proof {
                        reveal(bstep_after_after_body);
                        let b_arm = BuildView { mode: InsertionMode::InBody, ..bu };
                        assert(spec_build_step(bu) == (None::<Seq<NodeView>>, b_arm));
                        lemma_build_run_step(b0, k);
                        k = k + 1;
                    }
                    continue;
                },
            }
        }
    }
}

/// Tags stay recognized when every node of the new arena either keeps its
/// old kind or is not an element.
proof fn lemma_tags_still_recognized(w1: Seq<Node>, w2: Seq<Node>)
    requires
        tags_recognized(w1),
        forall|i: int|
            0 <= i < w2.len() ==> (i < w1.len() && #[trigger] w2[i].kind == w1[i].kind || !(w2[
                i
            ].kind is Element)),
    ensures
        tags_recognized(w2),
{
    assert forall|i: int| 0 <= i < w2.len() implies (match (#[trigger] w2[i].kind) {
        NodeKind::Element(e) => ElementKind::spec_from_tag(e@.tag) is Some,
        _ => true,
    }) by {
        if w2[i].kind is Element {
            assert(w2[i].kind == w1[i].kind);
        }
    }
}

/// An attribute list copied entry for entry.
fn clone_attributes(attributes: &Vec<Attribute>) -> (r: Vec<Attribute>)
    ensures
        r@.map_values(|a: Attribute| a@) == attributes@.map_values(|a: Attribute| a@),
{
    let mut out: Vec<Attribute> = Vec::new();
    let n = attributes.len();
    let mut i: usize = 0;
    while i < n
        invariant
            i <= n,
            n == attributes@.len(),
            out@.len() == i,
            forall|j: int| 0 <= j < i ==> out@[j]@ == attributes@[j]@,
        decreases n - i,
    {
        out.push(attributes[i].duplicate());
        i += 1;
    }
    proof {
        assert(out@.map_values(|a: Attribute| a@) =~= attributes@.map_values(|a: Attribute| a@));
    }
    out
}

} // verus!
