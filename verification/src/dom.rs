//! DOM graph: the node tree that the tree builder populates. Nodes live in an
//! arena owned by the `Window`; every link (parent, first/last child,
//! previous/next sibling) is an index into that arena. Nodes are created when
//! parsing inserts them and never deleted.
//!
//! Well-formedness (`arena_wf`) pins the link discipline down: node 0 is the
//! document; a parent stands strictly before its children and a node before
//! its next sibling, so the strong links (first_child, next_sibling) form no
//! cycle; the sibling chain from `first_child` ends exactly at `last_child`,
//! all the back links agree with it, and every non-root node stands on its
//! parent's chain — parents really own their children.

use vstd::prelude::*;
use crate::attribute::{Attribute, AttributeView};
use crate::text::str_eq;

verus! {

/// The tag identities the tree builder recognizes structurally.
#[derive(Clone, Copy, Debug, PartialEq, Eq, Structural)]
pub enum ElementKind {
    Html,
    Head,
    Style,
    Script,
    Body,
    P,
    H1,
    H2,
    H3,
    A,
}

impl ElementKind {
    /// The kind a tag name denotes, if the builder recognizes it.
    pub open spec fn spec_from_tag(tag: Seq<char>) -> Option<ElementKind> {
        if tag == "html"@ {
            Some(ElementKind::Html)
        } else if tag == "head"@ {
            Some(ElementKind::Head)
        } else if tag == "style"@ {
            Some(ElementKind::Style)
        } else if tag == "script"@ {
            Some(ElementKind::Script)
        } else if tag == "body"@ {
            Some(ElementKind::Body)
        } else if tag == "p"@ {
            Some(ElementKind::P)
        } else if tag == "h1"@ {
            Some(ElementKind::H1)
        } else if tag == "h2"@ {
            Some(ElementKind::H2)
        } else if tag == "h3"@ {
            Some(ElementKind::H3)
        } else if tag == "a"@ {
            Some(ElementKind::A)
        } else {
            None
        }
    }

    pub fn from_str(tag: &str) -> (r: Option<ElementKind>)
        ensures
            r == ElementKind::spec_from_tag(tag@),
    {
        if str_eq(tag, "html") {
            Some(ElementKind::Html)
        } else if str_eq(tag, "head") {
            Some(ElementKind::Head)
        } else if str_eq(tag, "style") {
            Some(ElementKind::Style)
        } else if str_eq(tag, "script") {
            Some(ElementKind::Script)
        } else if str_eq(tag, "body") {
            Some(ElementKind::Body)
        } else if str_eq(tag, "p") {
            Some(ElementKind::P)
        } else if str_eq(tag, "h1") {
            Some(ElementKind::H1)
        } else if str_eq(tag, "h2") {
            Some(ElementKind::H2)
        } else if str_eq(tag, "h3") {
            Some(ElementKind::H3)
        } else if str_eq(tag, "a") {
            Some(ElementKind::A)
        } else {
            None
        }
    }
}

/// An element: its tag name and its attributes in input order. Its kind is
/// computed from the name.
#[derive(Clone, Debug, PartialEq, Eq)]
pub struct Element {
    tag: String,
    attributes: Vec<Attribute>,
}

pub struct ElementView {
    pub tag: Seq<char>,
    pub attributes: Seq<AttributeView>,
}

impl View for Element {
    type V = ElementView;

    closed spec fn view(&self) -> ElementView {
        ElementView {
            tag: self.tag@,
            attributes: self.attributes@.map_values(|a: Attribute| a@),
        }
    }
}

impl Element {
    pub fn new(tag: &str, attributes: Vec<Attribute>) -> (e: Element)
        ensures
            e@.tag == tag@,
            e@.attributes == attributes@.map_values(|a: Attribute| a@),
    {
        Element { tag: tag.to_owned(), attributes }
    }

    pub fn tag_name(&self) -> (r: String)
        ensures
            r@ == self@.tag,
    {
        self.tag.clone()
    }

    pub fn kind(&self) -> (r: Option<ElementKind>)
        ensures
            r == ElementKind::spec_from_tag(self@.tag),
    {
        ElementKind::from_str(self.tag.as_str())
    }
}

#[derive(Clone, Debug, PartialEq, Eq)]
pub enum NodeKind {
    Document,
    Element(Element),
    Text(String),
}

/// The kind a node's tag denotes, if the node is an element with a
/// recognized tag.
pub open spec fn spec_element_kind(k: NodeKind) -> Option<ElementKind> {
    match k {
        NodeKind::Element(e) => ElementKind::spec_from_tag(e@.tag),
        _ => None,
    }
}

/// Every element node of the arena carries a tag the builder recognizes:
/// the tree builder only ever creates the elements it knows.
pub open spec fn tags_recognized(a: Seq<Node>) -> bool {
    forall|i: int|
        0 <= i < a.len() ==> (match (#[trigger] a[i].kind) {
            NodeKind::Element(e) => ElementKind::spec_from_tag(e@.tag) is Some,
            _ => true,
        })
}

/// The ten recognized tag names each denote their kind.
pub proof fn lemma_recognized_tags()
    ensures
        ElementKind::spec_from_tag("html"@) == Some(ElementKind::Html),
        ElementKind::spec_from_tag("head"@) == Some(ElementKind::Head),
        ElementKind::spec_from_tag("style"@) == Some(ElementKind::Style),
        ElementKind::spec_from_tag("script"@) == Some(ElementKind::Script),
        ElementKind::spec_from_tag("body"@) == Some(ElementKind::Body),
        ElementKind::spec_from_tag("p"@) == Some(ElementKind::P),
        ElementKind::spec_from_tag("h1"@) == Some(ElementKind::H1),
        ElementKind::spec_from_tag("h2"@) == Some(ElementKind::H2),
        ElementKind::spec_from_tag("h3"@) == Some(ElementKind::H3),
        ElementKind::spec_from_tag("a"@) == Some(ElementKind::A),
{
    reveal_strlit("html");
    reveal_strlit("head");
    reveal_strlit("style");
    reveal_strlit("script");
    reveal_strlit("body");
    reveal_strlit("p");
    reveal_strlit("h1");
    reveal_strlit("h2");
    reveal_strlit("h3");
    reveal_strlit("a");
    // pairs of different length differ by their length
    assert("html"@.len() == 4);
    assert("head"@.len() == 4);
    assert("style"@.len() == 5);
    assert("script"@.len() == 6);
    assert("body"@.len() == 4);
    assert("p"@.len() == 1);
    assert("h1"@.len() == 2);
    assert("h2"@.len() == 2);
    assert("h3"@.len() == 2);
    assert("a"@.len() == 1);
    // the pairs of equal length differ at a witness position
    assert("head"@ != "html"@) by {
        assert("head"@[1] == 'e' && "html"@[1] == 't');
    }
    assert("body"@ != "html"@) by {
        assert("body"@[0] == 'b' && "html"@[0] == 'h');
    }
    assert("body"@ != "head"@) by {
        assert("body"@[0] == 'b' && "head"@[0] == 'h');
    }
    assert("h2"@ != "h1"@) by {
        assert("h2"@[1] == '2' && "h1"@[1] == '1');
    }
    assert("h3"@ != "h1"@) by {
        assert("h3"@[1] == '3' && "h1"@[1] == '1');
    }
    assert("h3"@ != "h2"@) by {
        assert("h3"@[1] == '3' && "h2"@[1] == '2');
    }
    assert("a"@ != "p"@) by {
        assert("a"@[0] == 'a' && "p"@[0] == 'p');
    }
}

/// One node of the graph: its kind and its five links. The strong ownership
/// runs along `first_child` and `next_sibling`; the other three links point
/// backwards.
#[derive(Debug)]
pub struct Node {
    pub kind: NodeKind,
    pub parent: Option<usize>,
    pub first_child: Option<usize>,
    pub last_child: Option<usize>,
    pub previous_sibling: Option<usize>,
    pub next_sibling: Option<usize>,
}

impl Node {
    pub fn new(kind: NodeKind) -> (n: Node)
        ensures
            n.kind == kind,
            n.parent is None,
            n.first_child is None,
            n.last_child is None,
            n.previous_sibling is None,
            n.next_sibling is None,
    {
        Node {
            kind,
            parent: None,
            first_child: None,
            last_child: None,
            previous_sibling: None,
            next_sibling: None,
        }
    }
}

/// The mathematical shape of a node kind: tag names, attribute texts and
/// character data as sequences.
pub enum NodeKindView {
    Document,
    Element { tag: Seq<char>, attributes: Seq<AttributeView> },
    Text(Seq<char>),
}

pub open spec fn kind_view(k: NodeKind) -> NodeKindView {
    match k {
        NodeKind::Document => NodeKindView::Document,
        NodeKind::Element(e) => NodeKindView::Element { tag: e@.tag, attributes: e@.attributes },
        NodeKind::Text(s) => NodeKindView::Text(s@),
    }
}

/// The mathematical shape of a node: its kind's view and its five links as
/// plain integers.
pub struct NodeView {
    pub kind: NodeKindView,
    pub parent: Option<int>,
    pub first_child: Option<int>,
    pub last_child: Option<int>,
    pub previous_sibling: Option<int>,
    pub next_sibling: Option<int>,
}

pub open spec fn opt_index(o: Option<usize>) -> Option<int> {
    match o {
        Some(u) => Some(u as int),
        None => None,
    }
}

pub open spec fn node_view(n: Node) -> NodeView {
    NodeView {
        kind: kind_view(n.kind),
        parent: opt_index(n.parent),
        first_child: opt_index(n.first_child),
        last_child: opt_index(n.last_child),
        previous_sibling: opt_index(n.previous_sibling),
        next_sibling: opt_index(n.next_sibling),
    }
}

pub open spec fn arena_view(a: Seq<Node>) -> Seq<NodeView> {
    a.map_values(|n: Node| node_view(n))
}

/// A fresh node of the given kind linked in as the last child of `p`: how
/// `append_child` reshapes the arena, node for node.
pub open spec fn spec_append(a: Seq<NodeView>, p: int, kind: NodeKindView) -> Seq<NodeView> {
    let m = a.len() as int;
    let lc = a[p].last_child;
    let a1 = match lc {
        Some(l) => a.update(l, NodeView { next_sibling: Some(m), ..a[l] }),
        None => a.update(p, NodeView { first_child: Some(m), ..a[p] }),
    };
    let a2 = a1.update(p, NodeView { last_child: Some(m), ..a1[p] });
    a2.push(
        NodeView {
            kind,
            parent: Some(p),
            first_child: None,
            last_child: None,
            previous_sibling: lc,
            next_sibling: None,
        },
    )
}

/// One character appended to the text node `id`: how `append_to_text`
/// reshapes the arena.
pub open spec fn spec_append_text(a: Seq<NodeView>, id: int, ch: char) -> Seq<NodeView> {
    match a[id].kind {
        NodeKindView::Text(s) => a.update(id, NodeView { kind: NodeKindView::Text(s.push(ch)), ..a[id] }),
        _ => a,
    }
}

/// The local link discipline of node `i`: parents stand before children,
/// siblings grow to the right, and every link's target points back.
pub open spec fn node_wf(a: Seq<Node>, i: int) -> bool {
    let n = a[i];
    &&& (match n.parent {
        Some(p) => 0 <= (p as int) && (p as int) < i,
        None => i == 0,
    })
    &&& (match n.first_child {
        Some(c) => i < (c as int) && (c as int) < a.len() && a[c as int].parent == Some(i as usize)
            && a[c as int].previous_sibling is None,
        None => true,
    })
    &&& (n.first_child is Some <==> n.last_child is Some)
    &&& (match n.last_child {
        Some(l) => i < (l as int) && (l as int) < a.len() && a[l as int].parent == Some(i as usize)
            && a[l as int].next_sibling is None,
        None => true,
    })
    &&& (match n.next_sibling {
        Some(s) => i < (s as int) && (s as int) < a.len() && a[s as int].previous_sibling == Some(
            i as usize,
        ) && a[s as int].parent == n.parent,
        None => true,
    })
    &&& (match n.previous_sibling {
        Some(q) => 0 <= (q as int) && (q as int) < i && a[q as int].next_sibling == Some(i as usize)
            && a[q as int].parent == n.parent,
        None => true,
    })
}

/// Next-sibling links stay in the arena and strictly increase.
pub open spec fn next_links_up(a: Seq<Node>) -> bool {
    forall|i: int|
        0 <= i < a.len() ==> (match #[trigger] a[i].next_sibling {
            Some(s) => i < (s as int) && (s as int) < a.len(),
            None => true,
        })
}

/// The sibling chain from `c`: `c` and everything reachable from it along
/// `next_sibling`.
pub open spec fn sib_chain(a: Seq<Node>, c: int) -> Seq<int>
    decreases a.len() - c when 0 <= c < a.len() && next_links_up(a)
{
    match a[c].next_sibling {
        Some(s) => seq![c] + sib_chain(a, s as int),
        None => seq![c],
    }
}

/// The sibling chain from `first_child` ends exactly at `last_child`.
pub open spec fn chain_wf(a: Seq<Node>, i: int) -> bool {
    match (a[i].first_child, a[i].last_child) {
        (Some(c), Some(l)) => sib_chain(a, c as int).last() == l as int,
        (None, None) => true,
        _ => false,
    }
}

/// The children of node `i`, in order: the sibling chain from its first
/// child.
pub open spec fn children(a: Seq<Node>, i: int) -> Seq<int> {
    match a[i].first_child {
        Some(c) => sib_chain(a, c as int),
        None => Seq::<int>::empty(),
    }
}

/// Every non-root node stands on its parent's child chain: parents really
/// own their children, and child lists are complete.
pub open spec fn parent_closed(a: Seq<Node>) -> bool {
    forall|i: int|
        1 <= i < a.len() ==> (match (#[trigger] a[i].parent) {
            Some(p) => children(a, p as int).contains(i),
            None => false,
        })
}

/// A well-formed arena: node 0 is the document and the root, every node
/// meets the link discipline, every child chain is closed off by
/// `last_child`, and every non-root node stands on its parent's chain.
pub open spec fn arena_wf(a: Seq<Node>) -> bool {
    &&& 1 <= a.len() <= (usize::MAX as int) + 1
    &&& a[0].kind is Document
    &&& a[0].parent is None
    &&& a[0].previous_sibling is None
    &&& a[0].next_sibling is None
    &&& (forall|i: int| 0 <= i < a.len() ==> #[trigger] node_wf(a, i))
    &&& (forall|i: int| 0 <= i < a.len() ==> #[trigger] chain_wf(a, i))
    &&& parent_closed(a)
}

/// Parenthood stays closed when parents are kept, the one reshaped child
/// list only grows by the one new node, and that node's parent is the list's
/// owner.
proof fn lemma_parent_closed_after_append(a1: Seq<Node>, a2: Seq<Node>, p: int, m: int)
    requires
        parent_closed(a1),
        forall|i: int| 0 <= i < a1.len() ==> #[trigger] node_wf(a1, i),
        a1.len() <= usize::MAX as int,
        0 <= p < a1.len(),
        m == a1.len(),
        a2.len() == a1.len() + 1,
        forall|i: int| 0 <= i < a1.len() ==> #[trigger] a2[i].parent == a1[i].parent,
        a2[m].parent == Some(p as usize),
        children(a2, p) == children(a1, p).push(m),
        forall|i: int| 0 <= i < a1.len() && i != p ==> children(a2, i) == children(a1, i),
    ensures
        parent_closed(a2),
{
    assert forall|i: int| 1 <= i < a2.len() implies (match (#[trigger] a2[i].parent) {
        Some(q) => children(a2, q as int).contains(i),
        None => false,
    }) by {
        if i < a1.len() {
            assert(node_wf(a1, i));
            match a1[i].parent {
                Some(q) => {
                    assert(children(a1, q as int).contains(i));
                    let k = choose|k: int|
                        0 <= k < children(a1, q as int).len() && children(a1, q as int)[k] == i;
                    if q as int == p {
                        assert(children(a2, p)[k] == i);
                    } else {
                        assert(children(a2, q as int) == children(a1, q as int));
                        assert(children(a2, q as int)[k] == i);
                    }
                },
                None => {},
            }
        } else {
            assert(children(a2, p).last() == m);
        }
    }
}

/// The link discipline alone makes next-sibling links increase.
pub proof fn lemma_next_up(a: Seq<Node>)
    requires
        forall|i: int| 0 <= i < a.len() ==> #[trigger] node_wf(a, i),
    ensures
        next_links_up(a),
{
    assert forall|i: int| 0 <= i < a.len() implies (match #[trigger] a[i].next_sibling {
        Some(s) => i < (s as int) && (s as int) < a.len(),
        None => true,
    }) by {
        assert(node_wf(a, i));
    }
}

/// What a sibling chain looks like: nonempty, starting at `c`, strictly
/// increasing, all members sharing `c`'s parent, linked consecutively by
/// `next_sibling`, and ending at the one node of the chain with no next
/// sibling.
pub proof fn lemma_chain_props(a: Seq<Node>, c: int)
    requires
        forall|i: int| 0 <= i < a.len() ==> #[trigger] node_wf(a, i),
        0 <= c < a.len(),
    ensures
        sib_chain(a, c).len() >= 1,
        sib_chain(a, c)[0] == c,
        forall|k: int|
            0 <= k < sib_chain(a, c).len() ==> c <= #[trigger] sib_chain(a, c)[k] < a.len(),
        forall|k: int|
            0 <= k < sib_chain(a, c).len() ==> a[#[trigger] sib_chain(a, c)[k]].parent
                == a[c].parent,
        a[sib_chain(a, c).last()].next_sibling is None,
        forall|k: int|
            0 <= k < sib_chain(a, c).len() - 1 ==> a[#[trigger] sib_chain(a, c)[k]].next_sibling
                == Some(sib_chain(a, c)[k + 1] as usize),
    decreases a.len() - c,
{
    lemma_next_up(a);
    assert(node_wf(a, c));
    let ch = sib_chain(a, c);
    match a[c].next_sibling {
        Some(s) => {
            lemma_chain_props(a, s as int);
            let tail = sib_chain(a, s as int);
            assert(ch == seq![c] + tail);
            assert(ch[0] == c);
            assert(forall|k: int| 1 <= k < ch.len() ==> ch[k] == tail[k - 1]);
            assert(a[s as int].parent == a[c].parent);
            assert(ch.last() == tail.last());
        },
        None => {
            assert(ch == seq![c]);
        },
    }
}

/// Chains only read `next_sibling`: two arenas that agree on every
/// next-sibling link have the same chains.
pub proof fn lemma_chain_same(a1: Seq<Node>, a2: Seq<Node>, c: int)
    requires
        next_links_up(a1),
        next_links_up(a2),
        0 <= c < a1.len(),
        a1.len() <= a2.len(),
        forall|j: int| 0 <= j < a1.len() ==> #[trigger] a2[j].next_sibling == a1[j].next_sibling,
    ensures
        sib_chain(a2, c) == sib_chain(a1, c),
    decreases a1.len() - c,
{
    match a1[c].next_sibling {
        Some(s) => {
            lemma_chain_same(a1, a2, s as int);
        },
        None => {},
    }
}

/// A chain that avoids `l` is untouched by a change of `l`'s next-sibling
/// link.
pub proof fn lemma_chain_same_except(a1: Seq<Node>, a2: Seq<Node>, c: int, l: int)
    requires
        next_links_up(a1),
        next_links_up(a2),
        0 <= c < a1.len(),
        a1.len() <= a2.len(),
        0 <= l < a1.len(),
        forall|j: int|
            0 <= j < a1.len() && j != l ==> #[trigger] a2[j].next_sibling == a1[j].next_sibling,
        !sib_chain(a1, c).contains(l),
    ensures
        sib_chain(a2, c) == sib_chain(a1, c),
    decreases a1.len() - c,
{
    assert(sib_chain(a1, c)[0] == c);
    assert(sib_chain(a1, c).contains(c));
    match a1[c].next_sibling {
        Some(s) => {
            assert(forall|k: int|
                0 <= k < sib_chain(a1, s as int).len() ==> sib_chain(a1, c)[k + 1] == #[trigger] sib_chain(
                    a1,
                    s as int,
                )[k]);
            assert forall|e: int| sib_chain(a1, s as int).contains(e) implies sib_chain(
                a1,
                c,
            ).contains(e) by {
                let k = choose|k: int|
                    0 <= k < sib_chain(a1, s as int).len() && sib_chain(a1, s as int)[k] == e;
                assert(sib_chain(a1, c)[k + 1] == e);
            }
            lemma_chain_same_except(a1, a2, s as int, l);
        },
        None => {},
    }
}

/// Setting the next-sibling link of a chain's final node `l` to a fresh node
/// `m` with no next sibling extends the chain by exactly `m`.
pub proof fn lemma_chain_extend(a1: Seq<Node>, a2: Seq<Node>, c: int, l: int, m: usize)
    requires
        next_links_up(a1),
        next_links_up(a2),
        0 <= c < a1.len(),
        0 <= l < a1.len(),
        m as int == a1.len(),
        a2.len() == a1.len() + 1,
        sib_chain(a1, c).last() == l,
        a1[l].next_sibling is None,
        forall|j: int|
            0 <= j < a1.len() && j != l ==> #[trigger] a2[j].next_sibling == a1[j].next_sibling,
        a2[l].next_sibling == Some(m),
        a2[m as int].next_sibling is None,
    ensures
        sib_chain(a2, c) == sib_chain(a1, c).push(m as int),
    decreases a1.len() - c,
{
    if c == l {
        assert(sib_chain(a1, c) == seq![c]);
        assert(sib_chain(a2, m as int) == seq![m as int]);
        assert(sib_chain(a2, c) == seq![c] + seq![m as int]);
        assert(sib_chain(a2, c) =~= sib_chain(a1, c).push(m as int));
    } else {
        match a1[c].next_sibling {
            Some(s) => {
                assert(sib_chain(a1, c) == seq![c] + sib_chain(a1, s as int));
                assert(sib_chain(a1, s as int).last() == l);
                lemma_chain_extend(a1, a2, s as int, l, m);
                assert(sib_chain(a2, c) == seq![c] + sib_chain(a2, s as int));
                assert(sib_chain(a2, c) =~= sib_chain(a1, c).push(m as int));
            },
            None => {
                assert(sib_chain(a1, c) == seq![c]);
                assert(false);
            },
        }
    }
}

/// A strong link: from a node to its first child or to its next sibling.
pub open spec fn strong_edge(a: Seq<Node>, x: int, y: int) -> bool {
    &&& 0 <= x < a.len()
    &&& 0 <= y < a.len()
    &&& (a[x].first_child == Some(y as usize) || a[x].next_sibling == Some(y as usize))
}

/// `p` walks the strong-link graph.
pub open spec fn strong_path(a: Seq<Node>, p: Seq<int>) -> bool {
    forall|k: int| 0 <= k < p.len() - 1 ==> strong_edge(a, #[trigger] p[k], p[k + 1])
}

/// Along every strong path the node index strictly grows.
proof fn lemma_path_increases(a: Seq<Node>, p: Seq<int>)
    requires
        forall|i: int| 0 <= i < a.len() ==> #[trigger] node_wf(a, i),
        strong_path(a, p),
        p.len() >= 2,
    ensures
        p[0] < p[p.len() - 1],
    decreases p.len(),
{
    assert(strong_edge(a, p[0], p[1]));
    assert(node_wf(a, p[0]));
    if p.len() > 2 {
        let q = p.subrange(1, p.len() as int);
        assert(forall|k: int| 0 <= k < q.len() ==> q[k] == p[k + 1]);
        assert(forall|k: int|
            0 <= k < q.len() - 1 ==> strong_edge(a, #[trigger] q[k], q[k + 1]));
        lemma_path_increases(a, q);
    }
}

/// No strong cycles: the strong-link graph (first_child, next_sibling) of a
/// well-formed arena is acyclic — no nonempty strong path returns to its
/// start.
pub proof fn lemma_no_strong_cycles(a: Seq<Node>, p: Seq<int>)
    requires
        arena_wf(a),
        strong_path(a, p),
        p.len() >= 2,
    ensures
        p[0] != p[p.len() - 1],
{
    lemma_path_increases(a, p);
}

/// Tree well-formedness: in a well-formed arena the children `[C1..Cn]` of
/// any node `N` satisfy `first_child == C1`, `last_child == Cn`,
/// `Ci.next_sibling == C(i+1)`, `Ci.previous_sibling == C(i-1)`, and
/// `Ci.parent == N`; the first child has no previous sibling and the last no
/// next one.
#[verifier::rlimit(100)]
pub proof fn lemma_tree_well_formed(a: Seq<Node>, i: int)
    requires
        arena_wf(a),
        0 <= i < a.len(),
    ensures
        (a[i].first_child is Some <==> children(a, i).len() > 0),
        children(a, i).len() > 0 ==> a[i].first_child == Some(children(a, i)[0] as usize),
        children(a, i).len() > 0 ==> a[i].last_child == Some(
            children(a, i).last() as usize,
        ),
        forall|k: int|
            0 <= k < children(a, i).len() ==> 0 <= #[trigger] children(a, i)[k] < a.len() && a[
                children(a, i)[k]
            ].parent == Some(i as usize),
        forall|k: int|
            0 <= k < children(a, i).len() - 1 ==> a[#[trigger] children(a, i)[k]].next_sibling
                == Some(children(a, i)[k + 1] as usize),
        forall|k: int|
            1 <= k < children(a, i).len() ==> a[#[trigger] children(a, i)[k]].previous_sibling
                == Some(children(a, i)[k - 1] as usize),
        children(a, i).len() > 0 ==> a[children(a, i)[0]].previous_sibling is None && a[
            children(a, i).last()
        ].next_sibling is None,
{
    assert(node_wf(a, i));
    assert(chain_wf(a, i));
    match a[i].first_child {
        Some(c) => {
            lemma_chain_props(a, c as int);
            let cs = children(a, i);
            assert(cs == sib_chain(a, c as int));
            assert(cs[0] == c as int);
            assert(a[c as int].parent == Some(i as usize));
            assert forall|k: int| 1 <= k < cs.len() implies a[#[trigger] cs[k]].previous_sibling
                == Some(cs[k - 1] as usize) by {
                assert(a[cs[k - 1]].next_sibling == Some(cs[k] as usize));
                assert(node_wf(a, cs[k - 1]));
                assert(0 <= cs[k] < a.len());
                assert(cs[k] <= usize::MAX as int);
                assert((cs[k] as usize) as int == cs[k]);
            }
        },
        None => {},
    }
}

/// When only `l`'s next-sibling link changes (and no first-child link),
/// every node other than `l`'s parent keeps its child list: those chains
/// never pass through `l`.
proof fn lemma_children_preserved_except(a1: Seq<Node>, a2: Seq<Node>, l: int)
    requires
        forall|i: int| 0 <= i < a1.len() ==> #[trigger] node_wf(a1, i),
        next_links_up(a2),
        a1.len() <= a2.len(),
        a1.len() <= (usize::MAX as int) + 1,
        0 <= l < a1.len(),
        forall|j: int|
            0 <= j < a1.len() && j != l ==> #[trigger] a2[j].next_sibling == a1[j].next_sibling,
        forall|j: int| 0 <= j < a1.len() ==> #[trigger] a2[j].first_child == a1[j].first_child,
    ensures
        forall|i: int|
            0 <= i < a1.len() && a1[l].parent != Some(i as usize) ==> #[trigger] children(a2, i)
                == children(a1, i),
{
    lemma_next_up(a1);
    assert forall|i: int|
        0 <= i < a1.len() && a1[l].parent != Some(i as usize) implies #[trigger] children(a2, i)
        == children(a1, i) by {
        assert(node_wf(a1, i));
        match a1[i].first_child {
            Some(c) => {
                lemma_chain_props(a1, c as int);
                assert(a1[c as int].parent == Some(i as usize));
                if sib_chain(a1, c as int).contains(l) {
                    let k = choose|k: int|
                        0 <= k < sib_chain(a1, c as int).len() && sib_chain(a1, c as int)[k] == l;
                    assert(a1[l].parent == Some(i as usize));
                }
                lemma_chain_same_except(a1, a2, c as int, l);
            },
            None => {},
        }
    }
}

/// Rewiring for an append under a parent `p` that already had a last child
/// `l`: with `l`'s next-sibling link moved to the fresh final node `m`, the
/// arena is well formed again and only `p`'s child list changed, by exactly
/// `m` at its end.
#[verifier::rlimit(100)]
proof fn lemma_append_rewire_some(a1: Seq<Node>, a2: Seq<Node>, p: usize, l: usize, m: usize)
    requires
        arena_wf(a1),
        (p as int) < a1.len(),
        a1[p as int].last_child == Some(l),
        m as int == a1.len(),
        a2.len() == a1.len() + 1,
        forall|i: int|
            0 <= i < a1.len() && i != l as int && i != p as int ==> #[trigger] a2[i] == a1[i],
        a2[l as int].kind == a1[l as int].kind,
        a2[l as int].parent == a1[l as int].parent,
        a2[l as int].first_child == a1[l as int].first_child,
        a2[l as int].last_child == a1[l as int].last_child,
        a2[l as int].previous_sibling == a1[l as int].previous_sibling,
        a2[l as int].next_sibling == Some(m),
        a2[p as int].kind == a1[p as int].kind,
        a2[p as int].parent == a1[p as int].parent,
        a2[p as int].first_child == a1[p as int].first_child,
        a2[p as int].last_child == Some(m),
        a2[p as int].previous_sibling == a1[p as int].previous_sibling,
        a2[p as int].next_sibling == a1[p as int].next_sibling,
        a2[m as int].parent == Some(p),
        a2[m as int].first_child is None,
        a2[m as int].last_child is None,
        a2[m as int].previous_sibling == Some(l),
        a2[m as int].next_sibling is None,
    ensures
        arena_wf(a2),
        children(a2, p as int) == children(a1, p as int).push(m as int),
        forall|i: int|
            0 <= i < a1.len() && i != p as int ==> children(a2, i) == children(a1, i),
{
    assert(node_wf(a1, p as int));
    assert(node_wf(a1, l as int));
    lemma_next_up(a1);
    assert forall|i: int| 0 <= i < a2.len() implies (match #[trigger] a2[i].next_sibling {
        Some(s) => i < (s as int) && (s as int) < a2.len(),
        None => true,
    }) by {
        if i < a1.len() {
            assert(node_wf(a1, i));
        }
    }
    assert(next_links_up(a2));
    // only node p has l as its last child
    assert forall|i: int|
        0 <= i < a1.len() && a1[i].last_child == Some(l) implies i == p as int by {
        assert(node_wf(a1, i));
        assert(a1[l as int].parent == Some(i as usize));
        assert(a1[l as int].parent == Some(p));
    }
    assert forall|i: int| 0 <= i < a2.len() implies #[trigger] node_wf(a2, i) by {
        if i < a1.len() {
            assert(node_wf(a1, i));
        }
    }
    lemma_children_preserved_except(a1, a2, l as int);
    assert(a1[l as int].parent == Some(p));
    assert forall|i: int|
        0 <= i < a1.len() && i != p as int implies children(a2, i) == children(a1, i) by {
        assert(a1[l as int].parent != Some(i as usize));
    }
    // p's chain is the old chain extended by m
    assert(chain_wf(a1, p as int));
    match a1[p as int].first_child {
        Some(c0) => {
            lemma_chain_props(a1, c0 as int);
            lemma_chain_extend(a1, a2, c0 as int, l as int, m);
        },
        None => {
            assert(false);
        },
    }
    assert(children(a2, p as int) =~= children(a1, p as int).push(m as int));
    assert forall|i: int| 0 <= i < a2.len() implies #[trigger] chain_wf(a2, i) by {
        if i < a1.len() && i != p as int {
            assert(chain_wf(a1, i));
            assert(children(a2, i) == children(a1, i));
        }
    }
    assert forall|i: int| 0 <= i < a1.len() implies #[trigger] a2[i].parent == a1[i].parent by {}
    lemma_parent_closed_after_append(a1, a2, p as int, m as int);
}

/// Rewiring for an append under a parent `p` with no children yet: the fresh
/// final node `m` becomes its one-element child list and nothing else moves.
#[verifier::rlimit(100)]
proof fn lemma_append_rewire_none(a1: Seq<Node>, a2: Seq<Node>, p: usize, m: usize)
    requires
        arena_wf(a1),
        (p as int) < a1.len(),
        a1[p as int].last_child is None,
        m as int == a1.len(),
        a2.len() == a1.len() + 1,
        forall|i: int| 0 <= i < a1.len() && i != p as int ==> #[trigger] a2[i] == a1[i],
        a2[p as int].kind == a1[p as int].kind,
        a2[p as int].parent == a1[p as int].parent,
        a2[p as int].first_child == Some(m),
        a2[p as int].last_child == Some(m),
        a2[p as int].previous_sibling == a1[p as int].previous_sibling,
        a2[p as int].next_sibling == a1[p as int].next_sibling,
        a2[m as int].parent == Some(p),
        a2[m as int].first_child is None,
        a2[m as int].last_child is None,
        a2[m as int].previous_sibling is None,
        a2[m as int].next_sibling is None,
    ensures
        arena_wf(a2),
        children(a2, p as int) == children(a1, p as int).push(m as int),
        forall|i: int|
            0 <= i < a1.len() && i != p as int ==> children(a2, i) == children(a1, i),
{
    assert(node_wf(a1, p as int));
    lemma_next_up(a1);
    assert forall|i: int| 0 <= i < a2.len() implies (match #[trigger] a2[i].next_sibling {
        Some(s) => i < (s as int) && (s as int) < a2.len(),
        None => true,
    }) by {
        if i < a1.len() {
            assert(node_wf(a1, i));
        }
    }
    assert(next_links_up(a2));
    assert forall|i: int| 0 <= i < a2.len() implies #[trigger] node_wf(a2, i) by {
        if i < a1.len() {
            assert(node_wf(a1, i));
        }
    }
    assert forall|i: int|
        0 <= i < a1.len() && i != p as int implies children(a2, i) == children(a1, i) by {
        assert(node_wf(a1, i));
        match a1[i].first_child {
            Some(c) => {
                lemma_chain_same(a1, a2, c as int);
            },
            None => {},
        }
    }
    assert(sib_chain(a2, m as int) == seq![m as int]);
    assert(children(a1, p as int) =~= Seq::<int>::empty());
    assert(children(a2, p as int) =~= children(a1, p as int).push(m as int));
    assert forall|i: int| 0 <= i < a2.len() implies #[trigger] chain_wf(a2, i) by {
        if i < a1.len() && i != p as int {
            assert(chain_wf(a1, i));
            assert(children(a2, i) == children(a1, i));
        }
    }
    assert forall|i: int| 0 <= i < a1.len() implies #[trigger] a2[i].parent == a1[i].parent by {}
    lemma_parent_closed_after_append(a1, a2, p as int, m as int);
}

/// A root object owning the node arena, with the document at index 0.
pub struct Window {
    arena: Vec<Node>,
}

impl View for Window {
    type V = Seq<Node>;

    closed spec fn view(&self) -> Seq<Node> {
        self.arena@
    }
}

impl Window {
    /// A window owning exactly one document node.
    pub fn new() -> (w: Window)
        ensures
            arena_wf(w@),
            tags_recognized(w@),
            w@.len() == 1,
            w@[0].kind is Document,
            w@[0].first_child is None,
    {
        let mut arena: Vec<Node> = Vec::new();
        arena.push(Node::new(NodeKind::Document));
        let w = Window { arena };
        proof {
            assert forall|i: int| 0 <= i < w@.len() implies #[trigger] node_wf(w@, i) by {}
            assert forall|i: int| 0 <= i < w@.len() implies #[trigger] chain_wf(w@, i) by {}
        }
        w
    }

    /// The root document node.
    pub fn document(&self) -> (r: usize)
        requires
            self@.len() >= 1,
        ensures
            r == 0,
    {
        0
    }

    pub fn node_count(&self) -> (r: usize)
        ensures
            r == self@.len(),
    {
        self.arena.len()
    }

    pub fn kind(&self, id: usize) -> (r: &NodeKind)
        requires
            id < self@.len(),
        ensures
            *r == self@[id as int].kind,
    {
        &self.arena[id].kind
    }

    pub fn parent(&self, id: usize) -> (r: Option<usize>)
        requires
            id < self@.len(),
        ensures
            r == self@[id as int].parent,
    {
        self.arena[id].parent
    }

    pub fn first_child(&self, id: usize) -> (r: Option<usize>)
        requires
            id < self@.len(),
        ensures
            r == self@[id as int].first_child,
    {
        self.arena[id].first_child
    }

    pub fn last_child(&self, id: usize) -> (r: Option<usize>)
        requires
            id < self@.len(),
        ensures
            r == self@[id as int].last_child,
    {
        self.arena[id].last_child
    }

    pub fn previous_sibling(&self, id: usize) -> (r: Option<usize>)
        requires
            id < self@.len(),
        ensures
            r == self@[id as int].previous_sibling,
    {
        self.arena[id].previous_sibling
    }

    pub fn next_sibling(&self, id: usize) -> (r: Option<usize>)
        requires
            id < self@.len(),
        ensures
            r == self@[id as int].next_sibling,
    {
        self.arena[id].next_sibling
    }

    /// The recognized kind of the node's element tag, if the node is an
    /// element.
    pub fn element_kind(&self, id: usize) -> (r: Option<ElementKind>)
        requires
            id < self@.len(),
        ensures
            r == spec_element_kind(self@[id as int].kind),
    {
        match &self.arena[id].kind {
            NodeKind::Element(e) => e.kind(),
            _ => None,
        }
    }

    pub fn is_text(&self, id: usize) -> (r: bool)
        requires
            id < self@.len(),
        ensures
            r == (self@[id as int].kind is Text),
    {
        match &self.arena[id].kind {
            NodeKind::Text(_) => true,
            _ => false,
        }
    }

    /// Appends one character to a text node's string; no link moves.
    pub fn append_to_text(&mut self, id: usize, ch: char)
        requires
            arena_wf(old(self)@),
            id < old(self)@.len(),
            old(self)@[id as int].kind is Text,
        ensures
            arena_wf(final(self)@),
            final(self)@.len() == old(self)@.len(),
            forall|i: int|
                0 <= i < old(self)@.len() && i != id ==> final(self)@[i] == old(self)@[i],
            final(self)@[id as int].parent == old(self)@[id as int].parent,
            final(self)@[id as int].first_child == old(self)@[id as int].first_child,
            final(self)@[id as int].last_child == old(self)@[id as int].last_child,
            final(self)@[id as int].previous_sibling == old(self)@[id as int].previous_sibling,
            final(self)@[id as int].next_sibling == old(self)@[id as int].next_sibling,
            final(self)@[id as int].kind matches NodeKind::Text(s) && (old(
                self,
            )@[id as int].kind matches NodeKind::Text(s0) && s@ == s0@.push(ch)),
            forall|i: int|
                0 <= i < old(self)@.len() ==> children(final(self)@, i) == children(old(self)@, i),
            arena_view(final(self)@) == spec_append_text(arena_view(old(self)@), id as int, ch),
    {
        let ghost a1 = self.arena@;
        match &mut self.arena[id].kind {
            NodeKind::Text(s) => crate::text::push_char(s, ch),
            _ => {},
        }
        proof {
            assert(arena_view(self.arena@) =~= spec_append_text(arena_view(a1), id as int, ch));
        }
        proof {
            let a2 = self.arena@;
            assert(node_wf(a1, id as int));
            assert forall|i: int| 0 <= i < a2.len() implies #[trigger] node_wf(a2, i) by {
                assert(node_wf(a1, i));
            }
            lemma_next_up(a1);
            lemma_next_up(a2);
            assert forall|i: int| 0 <= i < a2.len() implies #[trigger] chain_wf(a2, i) by {
                assert(chain_wf(a1, i));
                assert(node_wf(a1, i));
                match a1[i].first_child {
                    Some(c) => {
                        lemma_chain_same(a1, a2, c as int);
                    },
                    None => {},
                }
            }
            assert forall|i: int| 0 <= i < a1.len() implies children(a2, i) == children(
                a1,
                i,
            ) by {
                assert(node_wf(a1, i));
                match a1[i].first_child {
                    Some(c) => {
                        lemma_chain_same(a1, a2, c as int);
                    },
                    None => {},
                }
            }
            assert forall|i: int| 1 <= i < a2.len() implies (match (#[trigger] a2[i].parent) {
                Some(q) => children(a2, q as int).contains(i),
                None => false,
            }) by {
                assert(node_wf(a1, i));
                match a1[i].parent {
                    Some(q) => {
                        assert(children(a1, q as int).contains(i));
                        assert(children(a2, q as int) == children(a1, q as int));
                    },
                    None => {},
                }
            }
        }
    }

    /// Creates a node of the given kind and links it in as the last child of
    /// `p`: the five links are set atomically, the parent's child list gains
    /// exactly the new node at its end, and every other node keeps its kind,
    /// links and children.
    pub fn append_child(&mut self, p: usize, kind: NodeKind) -> (m: usize)
        requires
            arena_wf(old(self)@),
            p < old(self)@.len(),
        ensures
            arena_wf(final(self)@),
            m == old(self)@.len(),
            final(self)@.len() == old(self)@.len() + 1,
            final(self)@[m as int].kind == kind,
            final(self)@[m as int].parent == Some(p),
            final(self)@[m as int].first_child is None,
            final(self)@[m as int].last_child is None,
            final(self)@[m as int].next_sibling is None,
            final(self)@[m as int].previous_sibling == old(self)@[p as int].last_child,
            final(self)@[p as int].last_child == Some(m),
            final(self)@[p as int].kind == old(self)@[p as int].kind,
            children(final(self)@, p as int) == children(old(self)@, p as int).push(m as int),
            forall|i: int|
                0 <= i < old(self)@.len() ==> final(self)@[i].kind == old(self)@[i].kind,
            forall|i: int|
                0 <= i < old(self)@.len() && i != p ==> children(final(self)@, i) == children(
                    old(self)@,
                    i,
                ),
            arena_view(final(self)@) == spec_append(arena_view(old(self)@), p as int, kind_view(kind)),
    {
        let m = self.arena.len();
        let lc = self.arena[p].last_child;
        let ghost a1 = self.arena@;
        proof {
            assert(node_wf(a1, p as int));
        }
        match lc {
            Some(l) => {
                self.arena[l].next_sibling = Some(m);
            },
            None => {
                self.arena[p].first_child = Some(m);
            },
        }
        self.arena[p].last_child = Some(m);
        self.arena.push(
            Node {
                kind,
                parent: Some(p),
                first_child: None,
                last_child: None,
                previous_sibling: lc,
                next_sibling: None,
            },
        );
        proof {
            match lc {
                Some(l) => {
                    lemma_append_rewire_some(a1, self.arena@, p, l, m);
                },
                None => {
                    lemma_append_rewire_none(a1, self.arena@, p, m);
                },
            }
            assert(arena_view(self.arena@) =~= spec_append(arena_view(a1), p as int, kind_view(self.arena@[m as int].kind)));
        }
        m
    }
}

} // verus!
