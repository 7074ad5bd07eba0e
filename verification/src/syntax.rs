//! The closed set of syntax tags: one tag per token or node of the tree.

use vstd::prelude::*;

verus! {

/// Tag carried by every tree element.  The first eleven variants tag tokens
/// (terminal leaves), the rest tag nodes (non-terminals).
#[derive(Clone, Copy, Debug, Hash, PartialEq, Eq, Structural)]
pub enum SyntaxKind {
    // Tokens
    Hash,
    Dash,
    Star,
    Backtick,
    LBracket,
    RBracket,
    LParen,
    RParen,
    Text,
    Whitespace,
    NewLine,
    // Nodes
    Document,
    Heading,
    Paragraph,
    List,
    ListItem,
    CodeBlock,
    Error,
}

/// True of the tags that a token (a terminal leaf) may carry.
pub open spec fn is_token_kind(k: SyntaxKind) -> bool {
    k == SyntaxKind::Hash || k == SyntaxKind::Dash || k == SyntaxKind::Star || k
        == SyntaxKind::Backtick || k == SyntaxKind::LBracket || k == SyntaxKind::RBracket || k
        == SyntaxKind::LParen || k == SyntaxKind::RParen || k == SyntaxKind::Text || k
        == SyntaxKind::Whitespace || k == SyntaxKind::NewLine
}

/// True of the tags that a tree node (a non-terminal) may carry.
pub open spec fn is_node_kind(k: SyntaxKind) -> bool {
    k == SyntaxKind::Document || k == SyntaxKind::Heading || k == SyntaxKind::Paragraph || k
        == SyntaxKind::List || k == SyntaxKind::ListItem || k == SyntaxKind::CodeBlock || k
        == SyntaxKind::Error
}

} // verus!
