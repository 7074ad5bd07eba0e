//! Typed view for Paragraph nodes.

use vstd::prelude::*;

use crate::ast::castable;
use crate::ast::collect_inline_text;
use crate::ast::inline_text_from;
use crate::syntax::SyntaxKind;
use crate::tree::SyntaxTree;

verus! {

/// A Paragraph node, by its arena index.
#[derive(Clone, Copy, Debug, PartialEq, Eq, Structural)]
pub struct Paragraph {
    pub node: usize,
}

impl Paragraph {
    /// Cast a node to a Paragraph view; succeeds exactly when the node's
    /// tag is Paragraph.
    pub fn cast(tree: &SyntaxTree, node: usize) -> (r: Option<Paragraph>)
        requires
            node < tree.arena@.len(),
        ensures
            r is Some <==> castable(tree, node as int, SyntaxKind::Paragraph),
            r is Some ==> (r == Some(Paragraph { node })),
    {
        if tree.kind_of(node) == SyntaxKind::Paragraph {
            Some(Paragraph { node })
        } else {
            None
        }
    }

    /// The paragraph's semantic text: all its direct child tokens in order,
    /// NewLine trivia skipped.
    pub fn text(&self, tree: &SyntaxTree) -> (r: Vec<u8>)
        requires
            tree.wf(),
            self.node < tree.arena@.len(),
        ensures
            r@ == inline_text_from(tree.input@, tree.arena@[self.node as int].children@, 0),
    {
        collect_inline_text(tree, self.node, 0)
    }
}

} // verus!
