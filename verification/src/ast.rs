//! Typed views over tree nodes.
//!
//! A view for a node kind is obtained by a cast that succeeds if and only if
//! the node carries exactly that tag; a node admits at most one view among
//! Heading, Paragraph, List and ListItem (`lemma_cast_exclusive`).  Each
//! populated view exposes the semantic text of its node: the concatenation
//! of the node's direct child tokens, in order, skipping the block's own
//! markup (leading Hash run plus one Whitespace for a heading; the Dash and
//! one Whitespace for a list item) and NewLine trivia.

use vstd::prelude::*;

pub mod heading;
pub mod list;
pub mod paragraph;

use crate::syntax::SyntaxKind;
use crate::tree::Element;
use crate::tree::SyntaxTree;
use crate::tree::elem_wf;
use crate::tree::node_body_wf;
use crate::tree::node_wf;

verus! {

/// The tag check every cast performs.
pub open spec fn castable(t: &SyntaxTree, node: int, kind: SyntaxKind) -> bool {
    t.arena@[node].kind == kind
}

/// Cast exclusivity: a node's tag admits at most one typed view among
/// Heading, Paragraph, List and ListItem, determined solely by its kind.
pub proof fn lemma_cast_exclusive(t: &SyntaxTree, node: int)
    requires
        0 <= node < t.arena@.len(),
    ensures
        !(castable(t, node, SyntaxKind::Heading) && castable(t, node, SyntaxKind::Paragraph)),
        !(castable(t, node, SyntaxKind::Heading) && castable(t, node, SyntaxKind::List)),
        !(castable(t, node, SyntaxKind::Heading) && castable(t, node, SyntaxKind::ListItem)),
        !(castable(t, node, SyntaxKind::Paragraph) && castable(t, node, SyntaxKind::List)),
        !(castable(t, node, SyntaxKind::Paragraph) && castable(t, node, SyntaxKind::ListItem)),
        !(castable(t, node, SyntaxKind::List) && castable(t, node, SyntaxKind::ListItem)),
{
}

/// The semantic text of a child list from index `j` on: direct child
/// tokens' input slices concatenated in order, skipping nested nodes and
/// NewLine trivia.
pub open spec fn inline_text_from(input: Seq<u8>, cs: Seq<Element>, j: int) -> Seq<u8>
    decreases cs.len() - j,
{
    if j < 0 || j >= cs.len() {
        Seq::empty()
    } else {
        (match cs[j] {
            Element::Token(t) => if t.kind == SyntaxKind::NewLine {
                Seq::empty()
            } else {
                input.subrange(t.start as int, t.end as int)
            },
            Element::Node(_) => Seq::empty(),
        }) + inline_text_from(input, cs, j + 1)
    }
}

/// Collect the semantic text of node `node` starting at child `from`.
pub fn collect_inline_text(t: &SyntaxTree, node: usize, from: usize) -> (r: Vec<u8>)
    requires
        t.wf(),
        node < t.arena@.len(),
    ensures
        r@ == inline_text_from(t.input@, t.arena@[node as int].children@, from as int),
{
    let ghost cs = t.arena@[node as int].children@;
    let n = t.child_count(node);
    let mut acc: Vec<u8> = Vec::new();
    if from > n {
        return acc;
    }
    let mut j = from;
    while j < n
        invariant
            t.wf(),
            node < t.arena@.len(),
            cs == t.arena@[node as int].children@,
            n == cs.len(),
            from <= j <= n,
            inline_text_from(t.input@, cs, from as int) == acc@ + inline_text_from(
                t.input@,
                cs,
                j as int,
            ),
        decreases n - j,
    {
        let ghost prev = acc@;
        match t.child(node, j) {
            Element::Token(tok) => {
                if tok.kind != SyntaxKind::NewLine {
                    proof {
                        assert(node_wf(t.arena@, node as int));
                        assert(node_body_wf(t.arena@, t.arena@[node as int], node as int));
                        assert(elem_wf(t.arena@, cs[j as int], node as int));
                        crate::tree::lemma_child_in_span(t.arena@, node as int, j as int);
                    }
                    let mut k = tok.start;
                    while k < tok.end
                        invariant
                            t.wf(),
                            tok.start <= k <= tok.end <= t.input@.len(),
                            acc@ == prev + t.input@.subrange(tok.start as int, k as int),
                        decreases tok.end - k,
                    {
                        acc.push(t.input[k]);
                        proof {
                            assert(prev + t.input@.subrange(tok.start as int, k + 1) =~= (prev
                                + t.input@.subrange(tok.start as int, k as int)).push(
                                t.input@[k as int],
                            ));
                        }
                        k = k + 1;
                    }
                }
            },
            Element::Node(_) => {},
        }
        proof {
            assert(inline_text_from(t.input@, cs, j as int) == (match cs[j as int] {
                Element::Token(tk) => if tk.kind == SyntaxKind::NewLine {
                    Seq::<u8>::empty()
                } else {
                    t.input@.subrange(tk.start as int, tk.end as int)
                },
                Element::Node(_) => Seq::<u8>::empty(),
            }) + inline_text_from(t.input@, cs, j + 1));
            assert(prev + Seq::<u8>::empty() =~= prev);
            assert(acc@ + inline_text_from(t.input@, cs, j + 1) =~= prev + inline_text_from(
                t.input@,
                cs,
                j as int,
            ));
        }
        j = j + 1;
    }
    acc
}

} // verus!
