//! Typed view for Heading nodes.

use vstd::prelude::*;

use crate::ast::castable;
use crate::ast::collect_inline_text;
use crate::ast::inline_text_from;
use crate::syntax::SyntaxKind;
use crate::tree::Element;
use crate::tree::SyntaxTree;

verus! {

/// A Heading node, by its arena index.
#[derive(Clone, Copy, Debug, PartialEq, Eq, Structural)]
pub struct Heading {
    pub node: usize,
}

/// True of a Hash token element.
pub open spec fn is_hash_token(e: Element) -> bool {
    e matches Element::Token(t) && t.kind == SyntaxKind::Hash
}

/// True of a Whitespace token element.
pub open spec fn is_ws_token(e: Element) -> bool {
    e matches Element::Token(t) && t.kind == SyntaxKind::Whitespace
}

/// Index just past the run of leading Hash tokens starting at `j`.
pub open spec fn hash_run_end(cs: Seq<Element>, j: int) -> int
    decreases cs.len() - j,
{
    if 0 <= j < cs.len() && is_hash_token(cs[j]) {
        hash_run_end(cs, j + 1)
    } else {
        j
    }
}

/// Where a heading's semantic content begins: past the leading Hash run and
/// the one required Whitespace, when present.
pub open spec fn heading_content_start(cs: Seq<Element>) -> int {
    let h = hash_run_end(cs, 0);
    if h < cs.len() && is_ws_token(cs[h]) {
        h + 1
    } else {
        h
    }
}

impl Heading {
    /// Cast a node to a Heading view; succeeds exactly when the node's tag
    /// is Heading.
    pub fn cast(tree: &SyntaxTree, node: usize) -> (r: Option<Heading>)
        requires
            node < tree.arena@.len(),
        ensures
            r is Some <==> castable(tree, node as int, SyntaxKind::Heading),
            r is Some ==> (r == Some(Heading { node })),
    {
        if tree.kind_of(node) == SyntaxKind::Heading {
            Some(Heading { node })
        } else {
            None
        }
    }

    /// The heading's semantic text: its direct child tokens after the Hash
    /// run and the one Whitespace that follows it, NewLine trivia skipped.
    pub fn text(&self, tree: &SyntaxTree) -> (r: Vec<u8>)
        requires
            tree.wf(),
            self.node < tree.arena@.len(),
        ensures
            r@ == inline_text_from(
                tree.input@,
                tree.arena@[self.node as int].children@,
                heading_content_start(tree.arena@[self.node as int].children@),
            ),
    {
        let ghost cs = tree.arena@[self.node as int].children@;
        let n = tree.child_count(self.node);
        let mut h: usize = 0;
        while h < n && matches!(tree.child(self.node, h), Element::Token(t) if t.kind == SyntaxKind::Hash)
            invariant
                tree.wf(),
                self.node < tree.arena@.len(),
                cs == tree.arena@[self.node as int].children@,
                n == cs.len(),
                0 <= h <= n,
                hash_run_end(cs, 0) == hash_run_end(cs, h as int),
            decreases n - h,
        {
            h = h + 1;
        }
        proof {
            assert(hash_run_end(cs, h as int) == h);
        }
        let start = if h < n {
            match tree.child(self.node, h) {
                Element::Token(t) => if t.kind == SyntaxKind::Whitespace {
                    h + 1
                } else {
                    h
                },
                Element::Node(_) => h,
            }
        } else {
            h
        };
        collect_inline_text(tree, self.node, start)
    }
}

} // verus!
