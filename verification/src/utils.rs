//! DOM printer: a depth-first pre-order stringifier used for debug output
//! and tests. Each node prints as two spaces per depth level, a label for
//! its kind, and a newline; the whole output opens with a single newline.

use vstd::prelude::*;
use vstd::string::{StrSliceExecFns, StringExecFns};
use crate::dom::{arena_wf, node_wf, NodeKind, Node, Window};

verus! {

/// Two spaces for every level of depth.
pub open spec fn spec_indent(depth: int) -> Seq<char>
    decreases depth,
{
    if depth <= 0 {
        Seq::<char>::empty()
    } else {
        spec_indent(depth - 1) + seq![' ', ' ']
    }
}

/// The printed label of a node kind.
pub open spec fn kind_label(k: NodeKind) -> Seq<char> {
    match k {
        NodeKind::Document => "Document"@,
        NodeKind::Element(e) => "Element("@ + e@.tag + ")"@,
        NodeKind::Text(s) => "Text("@ + s@ + ")"@,
    }
}

/// Both strong links point to later nodes of the arena.
pub open spec fn links_up(a: Seq<Node>) -> bool {
    forall|i: int|
        0 <= i < a.len() ==> ((match #[trigger] a[i].first_child {
            Some(c) => i < (c as int) && (c as int) < a.len(),
            None => true,
        }) && (match a[i].next_sibling {
            Some(s) => i < (s as int) && (s as int) < a.len(),
            None => true,
        }))
}

pub open spec fn opt_int(o: Option<usize>) -> Option<int> {
    match o {
        Some(u) => Some(u as int),
        None => None,
    }
}

/// What the printer emits from `n` on: indentation, label and newline, then
/// the subtree under `first_child` one level deeper, then the siblings from
/// `next_sibling` at the same level.
pub open spec fn spec_print(a: Seq<Node>, n: Option<int>, depth: int) -> Seq<char>
    decreases (match n {
        Some(i) => a.len() - i,
        None => 0int,
    }) when (links_up(a) && (match n {
        Some(i) => 0 <= i < a.len(),
        None => true,
    }))
{
    match n {
        None => Seq::<char>::empty(),
        Some(i) => spec_indent(depth) + kind_label(a[i].kind) + seq!['\n'] + spec_print(
            a,
            opt_int(a[i].first_child),
            depth + 1,
        ) + spec_print(a, opt_int(a[i].next_sibling), depth),
    }
}

/// The links of a well-formed arena point upward.
pub proof fn lemma_links_up(a: Seq<Node>)
    requires
        forall|i: int| 0 <= i < a.len() ==> #[trigger] node_wf(a, i),
    ensures
        links_up(a),
{
    assert forall|i: int| 0 <= i < a.len() implies ((match #[trigger] a[i].first_child {
        Some(c) => i < (c as int) && (c as int) < a.len(),
        None => true,
    }) && (match a[i].next_sibling {
        Some(s) => i < (s as int) && (s as int) < a.len(),
        None => true,
    })) by {
        assert(node_wf(a, i));
    }
}

/// Debug-prints the tree under `root`: one leading newline, then one line
/// per node in depth-first pre-order.
pub fn convert_dom_to_string(window: &Window, root: Option<usize>) -> (r: String)
    requires
        arena_wf(window@),
        match root {
            Some(i) => i < window@.len(),
            None => true,
        },
    ensures
        r@ == seq!['\n'] + spec_print(window@, opt_int(root), 0),
{
    let mut result = String::new();
    push_newline(&mut result);
    convert_dom_to_string_internal(window, root, 0, &mut result);
    proof {
        assert(seq!['\n'] + Seq::<char>::empty() =~= seq!['\n']);
    }
    result
}

fn push_newline(s: &mut String)
    ensures
        final(s)@ == old(s)@ + seq!['\n'],
{
    crate::text::push_char(s, '\n');
    proof {
        assert(old(s)@.push('\n') =~= old(s)@ + seq!['\n']);
    }
}

fn convert_dom_to_string_internal(
    window: &Window,
    node: Option<usize>,
    depth: usize,
    result: &mut String,
)
    requires
        arena_wf(window@),
        match node {
            Some(i) => depth <= i < window@.len(),
            None => true,
        },
    ensures
        final(result)@ == old(result)@ + spec_print(window@, opt_int(node), depth as int),
    decreases (match node {
        Some(i) => window@.len() - i,
        None => 0int,
    }),
{
    proof {
        lemma_links_up(window@);
    }
    let i = match node {
        Some(i) => i,
        None => {
            proof {
                assert(old(result)@ + Seq::<char>::empty() =~= old(result)@);
            }
            return ;
        },
    };
    let ghost r0 = result@;
    let mut d: usize = 0;
    while d < depth
        invariant
            d <= depth,
            result@ == r0 + spec_indent(d as int),
        decreases depth - d,
    {
        result.append("  ");
        proof {
            reveal_strlit("  ");
            assert(("  ")@ =~= seq![' ', ' ']);
        }
        d += 1;
    }
    proof {
        assert(spec_indent(0) =~= Seq::<char>::empty());
        assert(r0 + Seq::<char>::empty() =~= r0);
    }
    match window.kind(i) {
        NodeKind::Document => {
            result.append("Document");
        },
        NodeKind::Element(e) => {
            result.append("Element(");
            let t = e.tag_name();
            result.append(t.as_str());
            result.append(")");
        },
        NodeKind::Text(s) => {
            result.append("Text(");
            let t = s.clone();
            result.append(t.as_str());
            result.append(")");
        },
    }
    push_newline(result);
    proof {
        assert(result@ =~= r0 + spec_indent(depth as int) + kind_label(window@[i as int].kind)
            + seq!['\n']);
        assert(node_wf(window@, i as int));
    }
    let fc = window.first_child(i);
    if let Some(c) = fc {
        convert_dom_to_string_internal(window, Some(c), depth + 1, result);
    }
    let ns = window.next_sibling(i);
    convert_dom_to_string_internal(window, ns, depth, result);
    proof {
        let a = window@;
        let ii = i as int;
        if a[ii].first_child is None {
            assert(spec_print(a, opt_int(a[ii].first_child), depth as int + 1)
                == Seq::<char>::empty());
        }
        assert(result@ =~= old(result)@ + spec_print(a, opt_int(node), depth as int));
    }
}

} // verus!
