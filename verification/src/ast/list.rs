//! Typed views for List and ListItem nodes.

use vstd::prelude::*;

use crate::ast::castable;
use crate::ast::collect_inline_text;
use crate::ast::inline_text_from;
use crate::syntax::SyntaxKind;
use crate::tree::Element;
use crate::tree::SyntaxTree;

verus! {

/// A List node, by its arena index.
#[derive(Clone, Copy, Debug, PartialEq, Eq, Structural)]
pub struct List {
    pub node: usize,
}

/// A ListItem node, by its arena index.
#[derive(Clone, Copy, Debug, PartialEq, Eq, Structural)]
pub struct ListItem {
    pub node: usize,
}

/// Where a list item's semantic content begins: past the Dash marker and
/// the one required Whitespace, when present.
pub open spec fn item_content_start(cs: Seq<Element>) -> int {
    if cs.len() > 0 && (cs[0] matches Element::Token(t) && t.kind == SyntaxKind::Dash) {
        if cs.len() > 1 && (cs[1] matches Element::Token(w) && w.kind == SyntaxKind::Whitespace) {
            2
        } else {
            1
        }
    } else {
        0
    }
}

impl List {
    /// Cast a node to a List view; succeeds exactly when the node's tag is
    /// List.
    pub fn cast(tree: &SyntaxTree, node: usize) -> (r: Option<List>)
        requires
            node < tree.arena@.len(),
        ensures
            r is Some <==> castable(tree, node as int, SyntaxKind::List),
            r is Some ==> (r == Some(List { node })),
    {
        if tree.kind_of(node) == SyntaxKind::List {
            Some(List { node })
        } else {
            None
        }
    }
}

impl ListItem {
    /// Cast a node to a ListItem view; succeeds exactly when the node's tag
    /// is ListItem.
    pub fn cast(tree: &SyntaxTree, node: usize) -> (r: Option<ListItem>)
        requires
            node < tree.arena@.len(),
        ensures
            r is Some <==> castable(tree, node as int, SyntaxKind::ListItem),
            r is Some ==> (r == Some(ListItem { node })),
    {
        if tree.kind_of(node) == SyntaxKind::ListItem {
            Some(ListItem { node })
        } else {
            None
        }
    }

    /// The item's semantic text: its direct child tokens after the Dash
    /// marker and the one Whitespace that follows it, NewLine trivia
    /// skipped.
    pub fn text(&self, tree: &SyntaxTree) -> (r: Vec<u8>)
        requires
            tree.wf(),
            self.node < tree.arena@.len(),
        ensures
            r@ == inline_text_from(
                tree.input@,
                tree.arena@[self.node as int].children@,
                item_content_start(tree.arena@[self.node as int].children@),
            ),
    {
        let n = tree.child_count(self.node);
        let start: usize = if n > 0 && matches!(
            tree.child(self.node, 0),
            Element::Token(t) if t.kind == SyntaxKind::Dash
        ) {
            if n > 1 && matches!(
                tree.child(self.node, 1),
                Element::Token(w) if w.kind == SyntaxKind::Whitespace
            ) {
                2
            } else {
                1
            }
        } else {
            0
        };
        collect_inline_text(tree, self.node, start)
    }
}

} // verus!
