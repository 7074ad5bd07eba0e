//! Recursive-descent parser over the token sequence.
//!
//! Block dispatch happens at the start of a line: a Hash opens a Heading, a
//! Dash immediately followed by Whitespace opens a List (a maximal run of
//! list items), and anything else opens a Paragraph; a NewLine between
//! blocks attaches directly to the Document.  A Heading or ListItem that is
//! missing its required Whitespace recovers by wrapping exactly one
//! unexpected token in an Error node and continuing.  Every block path
//! consumes at least one token, so parsing terminates for every input.
//!
//! The grammar is also stated once at the specification level, as a
//! segmentation of the token sequence: `block_end` gives each block's
//! extent, the `*_children_ok` predicates give each node's exact children,
//! and `doc_prefix_ok` ties the finished Document to that segmentation.
//! The parser's contracts equate the built tree with it, and
//! `lemma_segmentation_deterministic` shows the segmentation is unique.

use vstd::prelude::*;
use vstd::string::StringSliceAdditionalSpecFns;

use crate::builder::TreeBuilder;
use crate::lexer::Token;
use crate::lexer::lemma_tokenize_props;
use crate::lexer::spec_tokenize;
use crate::syntax::SyntaxKind;
use crate::syntax::is_token_kind;
use crate::tree::Element;
use crate::tree::NodeData;
use crate::tree::SyntaxTree;
use crate::tree::lemma_node_text_cover;

verus! {

/// The tokens tile `[0, len)` in order: the first starts at zero, each ends
/// where the next starts, the last ends at `len`, and no token is empty.
pub open spec fn token_seq_wf(ts: Seq<Token>, len: int) -> bool {
    &&& (forall|j: int|
        0 <= j < ts.len() ==> (#[trigger] ts[j]).start < ts[j].end <= len && is_token_kind(
            ts[j].kind,
        ))
    &&& (forall|j: int|
        #![trigger ts[j], ts[j + 1]]
        0 <= j < ts.len() - 1 ==> ts[j].end == ts[j + 1].start)
    &&& (ts.len() > 0 ==> ts[0].start == 0 && ts.last().end == len)
    &&& (ts.len() == 0 ==> len == 0)
}

/// A Document child: a block node, or a NewLine token standing between
/// blocks.
pub open spec fn block_elem(arena: Seq<NodeData>, e: Element) -> bool {
    match e {
        Element::Token(t) => t.kind == SyntaxKind::NewLine,
        Element::Node(c) => 0 <= c < arena.len() && ((#[trigger] arena[c as int]).kind
            == SyntaxKind::Heading || arena[c as int].kind == SyntaxKind::List || arena[
            c as int
        ].kind == SyntaxKind::Paragraph),
    }
}

/// `b` extends `a`: it is at least as long and agrees with `a` on `a`'s
/// whole length.
pub open spec fn seq_extends<T>(a: Seq<T>, b: Seq<T>) -> bool {
    a.len() <= b.len() && forall|i: int| 0 <= i < a.len() ==> (#[trigger] a[i]) == b[i]
}

/// Between two parser states: the open-node stack has the same shape, every
/// open node below the top is untouched, the top keeps its kind and start
/// and only gains children, and the arena only grows.
pub open spec fn top_extended(p0: Parser, p1: Parser) -> bool {
    &&& p1.builder.stack@.len() == p0.builder.stack@.len()
    &&& p0.builder.stack@.len() > 0
    &&& (forall|j: int|
        0 <= j < p0.builder.stack@.len() - 1 ==> p1.builder.stack@[j] == p0.builder.stack@[j])
    &&& p1.builder.top().kind == p0.builder.top().kind
    &&& p1.builder.top().start == p0.builder.top().start
    &&& seq_extends(p0.builder.top().children@, p1.builder.top().children@)
    &&& seq_extends(p0.builder.arena@, p1.builder.arena@)
    &&& p1.tokens == p0.tokens
    &&& p1.input == p0.input
}

/// Between two parser states: exactly one node of the given kind was built,
/// appended to the arena, and recorded as one new child of the unchanged
/// top.
pub open spec fn wrapped_block(p0: Parser, p1: Parser, kind: SyntaxKind) -> bool {
    &&& p1.builder.stack@.len() == p0.builder.stack@.len()
    &&& p0.builder.stack@.len() > 0
    &&& (forall|j: int|
        0 <= j < p0.builder.stack@.len() - 1 ==> p1.builder.stack@[j] == p0.builder.stack@[j])
    &&& p1.builder.top().kind == p0.builder.top().kind
    &&& p1.builder.top().start == p0.builder.top().start
    &&& seq_extends(p0.builder.arena@, p1.builder.arena@)
    &&& p1.builder.arena@.len() > p0.builder.arena@.len()
    &&& p1.builder.arena@.last().kind == kind
    &&& p1.builder.arena@.last().start == p0.builder.cur()
    &&& p1.builder.top().children@ == p0.builder.top().children@.push(
        Element::Node((p1.builder.arena@.len() - 1) as usize),
    )
    &&& p1.tokens == p0.tokens
    &&& p1.input == p0.input
}

pub proof fn lemma_wrapped_is_extended(p0: Parser, p1: Parser, kind: SyntaxKind)
    requires
        wrapped_block(p0, p1, kind),
    ensures
        top_extended(p0, p1),
{
}

/// Start of a line at token `p`: the first token, or right after a NewLine.
pub open spec fn line_start_at(ts: Seq<Token>, p: int) -> bool {
    p == 0 || ts[p - 1].kind == SyntaxKind::NewLine
}

/// The tokens `a..b` as leaf elements, in order.
pub open spec fn token_elems(ts: Seq<Token>, a: int, b: int) -> Seq<Element> {
    Seq::new((b - a) as nat, |k: int| Element::Token(ts[a + k]))
}

/// First position at or after `p` that ends a line: a NewLine token, or the
/// end of the tokens.
pub open spec fn inline_end(ts: Seq<Token>, p: int) -> int
    decreases ts.len() - p,
{
    if p < 0 || p >= ts.len() || ts[p].kind == SyntaxKind::NewLine {
        p
    } else {
        inline_end(ts, p + 1)
    }
}

/// End of the maximal run of Hash tokens starting at `p`.
pub open spec fn hash_end(ts: Seq<Token>, p: int) -> int
    decreases ts.len() - p,
{
    if 0 <= p < ts.len() && ts[p].kind == SyntaxKind::Hash {
        hash_end(ts, p + 1)
    } else {
        p
    }
}

/// Where the heading whose first Hash stands at `p` ends: past its hash
/// run, its required Whitespace or the one token taken for recovery, and
/// its inline content.
pub open spec fn heading_end(ts: Seq<Token>, p: int) -> int {
    let h = hash_end(ts, p);
    if h >= ts.len() {
        h
    } else if ts[h].kind == SyntaxKind::Whitespace {
        inline_end(ts, h)
    } else {
        inline_end(ts, h + 1)
    }
}

/// Where the list item whose Dash stands at `p` ends: past its inline
/// content and its trailing NewLine when one is present.
pub open spec fn item_end(ts: Seq<Token>, p: int) -> int {
    let q = if p + 1 >= ts.len() {
        p + 1
    } else if ts[p + 1].kind == SyntaxKind::Whitespace {
        inline_end(ts, p + 1)
    } else {
        inline_end(ts, p + 2)
    };
    if q < ts.len() && ts[q].kind == SyntaxKind::NewLine {
        q + 1
    } else {
        q
    }
}

/// A list item may begin at `p`: a Dash at the start of a line, with
/// Whitespace immediately after.
pub open spec fn item_start_ok(ts: Seq<Token>, p: int) -> bool {
    0 <= p < ts.len() && line_start_at(ts, p) && ts[p].kind == SyntaxKind::Dash && p + 1 < ts.len()
        && ts[p + 1].kind == SyntaxKind::Whitespace
}

pub proof fn lemma_inline_end_bounds(ts: Seq<Token>, p: int)
    requires
        0 <= p <= ts.len(),
    ensures
        p <= inline_end(ts, p) <= ts.len(),
    decreases ts.len() - p,
{
    if p < ts.len() && ts[p].kind != SyntaxKind::NewLine {
        lemma_inline_end_bounds(ts, p + 1);
    }
}

pub proof fn lemma_hash_end_bounds(ts: Seq<Token>, p: int)
    requires
        0 <= p <= ts.len(),
    ensures
        p <= hash_end(ts, p) <= ts.len(),
    decreases ts.len() - p,
{
    if p < ts.len() && ts[p].kind == SyntaxKind::Hash {
        lemma_hash_end_bounds(ts, p + 1);
    }
}

/// An item always takes at least its Dash and stays inside the tokens.
pub proof fn lemma_item_end_bounds(ts: Seq<Token>, p: int)
    requires
        0 <= p < ts.len(),
    ensures
        p < item_end(ts, p) <= ts.len(),
{
    if p + 1 < ts.len() {
        if ts[p + 1].kind == SyntaxKind::Whitespace {
            lemma_inline_end_bounds(ts, p + 1);
        } else {
            lemma_inline_end_bounds(ts, p + 2);
        }
    }
}

/// Where the list whose first item's Dash stands at `p` ends: one item per
/// consecutive line that may begin one, a maximal run.
pub open spec fn list_end(ts: Seq<Token>, p: int) -> int
    decreases ts.len() - p,
        when 0 <= p < ts.len()
    via list_end_decreases
{
    let q = item_end(ts, p);
    if item_start_ok(ts, q) {
        list_end(ts, q)
    } else {
        q
    }
}

#[via_fn]
proof fn list_end_decreases(ts: Seq<Token>, p: int) {
    if 0 <= p < ts.len() {
        lemma_item_end_bounds(ts, p);
    }
}

/// Where the block dispatched at `p` ends.
pub open spec fn block_end(ts: Seq<Token>, p: int) -> int {
    if ts[p].kind == SyntaxKind::NewLine {
        p + 1
    } else if line_start_at(ts, p) && ts[p].kind == SyntaxKind::Hash {
        heading_end(ts, p)
    } else if item_start_ok(ts, p) {
        list_end(ts, p)
    } else {
        inline_end(ts, p)
    }
}

pub proof fn lemma_token_elems_concat(ts: Seq<Token>, a: int, b: int, c: int)
    requires
        a <= b <= c,
    ensures
        token_elems(ts, a, b) + token_elems(ts, b, c) == token_elems(ts, a, c),
{
    assert(token_elems(ts, a, b) + token_elems(ts, b, c) =~= token_elems(ts, a, c));
}

pub proof fn lemma_token_elems_push(ts: Seq<Token>, a: int, b: int)
    requires
        a <= b,
    ensures
        token_elems(ts, a, b).push(Element::Token(ts[b])) == token_elems(ts, a, b + 1),
{
    assert(token_elems(ts, a, b).push(Element::Token(ts[b])) =~= token_elems(ts, a, b + 1));
}

pub proof fn lemma_token_elems_trivial(ts: Seq<Token>, a: int)
    ensures
        token_elems(ts, a, a) == Seq::<Element>::empty(),
        token_elems(ts, a, a + 1) == seq![Element::Token(ts[a])],
{
    assert(token_elems(ts, a, a) =~= Seq::<Element>::empty());
    assert(token_elems(ts, a, a + 1) =~= seq![Element::Token(ts[a])]);
}

/// An Error child node wrapping exactly the given token, or holding
/// nothing where recovery hit the end of the input.
pub open spec fn error_wraps(arena: Seq<NodeData>, e: Element, t: Option<Token>) -> bool {
    &&& (e matches Element::Node(c) && 0 <= c < arena.len() && arena[c as int].kind
        == SyntaxKind::Error)
    &&& (e matches Element::Node(c) ==> (match t {
        Some(tok) => arena[c as int].children@ == seq![Element::Token(tok)],
        None => arena[c as int].children@.len() == 0,
    }))
}

/// The exact children of a Heading parsed at `p`: the maximal Hash run,
/// then either the required Whitespace followed by the line's tokens
/// verbatim, or an Error node wrapping the one unexpected token and then
/// the rest of the line.
pub open spec fn heading_children_ok(
    arena: Seq<NodeData>,
    cs: Seq<Element>,
    ts: Seq<Token>,
    p: int,
) -> bool {
    let h = hash_end(ts, p);
    if h < ts.len() && ts[h].kind == SyntaxKind::Whitespace {
        cs == token_elems(ts, p, heading_end(ts, p))
    } else if h < ts.len() {
        exists|ec: Element|
            cs == token_elems(ts, p, h) + seq![ec] + token_elems(ts, h + 1, heading_end(ts, p))
                && error_wraps(arena, ec, Some(ts[h]))
    } else {
        exists|ec: Element|
            cs == token_elems(ts, p, h).push(ec) && error_wraps(arena, ec, None)
    }
}

/// The exact children of a ListItem parsed at `p`: the Dash, then either
/// the required Whitespace and the line's tokens verbatim, or an Error
/// node wrapping the one unexpected token and the rest of the line; the
/// trailing NewLine is included exactly when one is present.
pub open spec fn item_children_ok(
    arena: Seq<NodeData>,
    cs: Seq<Element>,
    ts: Seq<Token>,
    p: int,
) -> bool {
    if p + 1 < ts.len() && ts[p + 1].kind == SyntaxKind::Whitespace {
        cs == token_elems(ts, p, item_end(ts, p))
    } else if p + 1 < ts.len() {
        exists|ec: Element|
            cs == token_elems(ts, p, p + 1) + seq![ec] + token_elems(ts, p + 2, item_end(ts, p))
                && error_wraps(arena, ec, Some(ts[p + 1]))
    } else {
        exists|ec: Element|
            cs == token_elems(ts, p, p + 1).push(ec) && error_wraps(arena, ec, None)
    }
}

/// The exact children of a Paragraph parsed at `p`: every token up to the
/// first NewLine or the end of the input, verbatim, with no nested nodes.
pub open spec fn paragraph_children_ok(cs: Seq<Element>, ts: Seq<Token>, p: int) -> bool {
    cs == token_elems(ts, p, inline_end(ts, p))
}

/// The exact children of a List parsed at `p`: one ListItem node per
/// consecutive item line from `p` to `p_end`, each with its exact
/// children.
pub open spec fn list_items_ok(
    arena: Seq<NodeData>,
    cs: Seq<Element>,
    ts: Seq<Token>,
    p: int,
    p_end: int,
) -> bool
    decreases cs.len(),
{
    if cs.len() == 0 {
        p == p_end
    } else {
        &&& (cs[0] matches Element::Node(c) && 0 <= c < arena.len() && arena[c as int].kind
            == SyntaxKind::ListItem && item_children_ok(arena, arena[c as int].children@, ts, p))
        &&& list_items_ok(arena, cs.drop_first(), ts, item_end(ts, p), p_end)
    }
}

pub proof fn lemma_error_wraps_extend(
    arena: Seq<NodeData>,
    arena2: Seq<NodeData>,
    e: Element,
    t: Option<Token>,
)
    requires
        seq_extends(arena, arena2),
        error_wraps(arena, e, t),
    ensures
        error_wraps(arena2, e, t),
{
    match e {
        Element::Node(c) => {
            assert(arena2[c as int] == arena[c as int]);
        },
        Element::Token(_) => {},
    }
}

pub proof fn lemma_item_children_extend(
    arena: Seq<NodeData>,
    arena2: Seq<NodeData>,
    cs: Seq<Element>,
    ts: Seq<Token>,
    p: int,
)
    requires
        seq_extends(arena, arena2),
        item_children_ok(arena, cs, ts, p),
    ensures
        item_children_ok(arena2, cs, ts, p),
{
    if p + 1 < ts.len() && ts[p + 1].kind == SyntaxKind::Whitespace {
    } else if p + 1 < ts.len() {
        let ec = choose|ec: Element|
            cs == token_elems(ts, p, p + 1) + seq![ec] + token_elems(ts, p + 2, item_end(ts, p))
                && error_wraps(arena, ec, Some(ts[p + 1]));
        lemma_error_wraps_extend(arena, arena2, ec, Some(ts[p + 1]));
    } else {
        let ec = choose|ec: Element|
            cs == token_elems(ts, p, p + 1).push(ec) && error_wraps(arena, ec, None);
        lemma_error_wraps_extend(arena, arena2, ec, None);
    }
}

pub proof fn lemma_heading_children_extend(
    arena: Seq<NodeData>,
    arena2: Seq<NodeData>,
    cs: Seq<Element>,
    ts: Seq<Token>,
    p: int,
)
    requires
        seq_extends(arena, arena2),
        heading_children_ok(arena, cs, ts, p),
    ensures
        heading_children_ok(arena2, cs, ts, p),
{
    let h = hash_end(ts, p);
    if h < ts.len() && ts[h].kind == SyntaxKind::Whitespace {
    } else if h < ts.len() {
        let ec = choose|ec: Element|
            cs == token_elems(ts, p, h) + seq![ec] + token_elems(ts, h + 1, heading_end(ts, p))
                && error_wraps(arena, ec, Some(ts[h]));
        lemma_error_wraps_extend(arena, arena2, ec, Some(ts[h]));
    } else {
        let ec = choose|ec: Element|
            cs == token_elems(ts, p, h).push(ec) && error_wraps(arena, ec, None);
        lemma_error_wraps_extend(arena, arena2, ec, None);
    }
}

pub proof fn lemma_list_items_extend(
    arena: Seq<NodeData>,
    arena2: Seq<NodeData>,
    cs: Seq<Element>,
    ts: Seq<Token>,
    p: int,
    p_end: int,
)
    requires
        seq_extends(arena, arena2),
        list_items_ok(arena, cs, ts, p, p_end),
    ensures
        list_items_ok(arena2, cs, ts, p, p_end),
    decreases cs.len(),
{
    if cs.len() > 0 {
        match cs[0] {
            Element::Node(c) => {
                assert(arena2[c as int] == arena[c as int]);
                lemma_item_children_extend(arena, arena2, arena[c as int].children@, ts, p);
            },
            Element::Token(_) => {},
        }
        lemma_list_items_extend(arena, arena2, cs.drop_first(), ts, item_end(ts, p), p_end);
    }
}

pub proof fn lemma_list_items_snoc(
    arena: Seq<NodeData>,
    cs: Seq<Element>,
    ts: Seq<Token>,
    p: int,
    mid: int,
    e: Element,
)
    requires
        list_items_ok(arena, cs, ts, p, mid),
        (e matches Element::Node(c) && 0 <= c < arena.len() && arena[c as int].kind
            == SyntaxKind::ListItem && item_children_ok(arena, arena[c as int].children@, ts, mid)),
    ensures
        list_items_ok(arena, cs.push(e), ts, p, item_end(ts, mid)),
    decreases cs.len(),
{
    if cs.len() == 0 {
        assert(cs.push(e)[0] == e);
        assert(cs.push(e).drop_first() =~= Seq::<Element>::empty());
        assert(list_items_ok(
            arena,
            cs.push(e).drop_first(),
            ts,
            item_end(ts, p),
            item_end(ts, mid),
        ));
    } else {
        assert(cs.push(e)[0] == cs[0]);
        assert(cs.push(e).drop_first() =~= cs.drop_first().push(e));
        lemma_list_items_snoc(arena, cs.drop_first(), ts, item_end(ts, p), mid, e);
    }
}

/// The exact content of the block dispatched at `p`: a NewLine token
/// attaches itself; otherwise a node of the dispatched kind whose children
/// are exactly what the grammar prescribes from `p` on.
pub open spec fn block_matches(arena: Seq<NodeData>, ts: Seq<Token>, e: Element, p: int) -> bool {
    if ts[p].kind == SyntaxKind::NewLine {
        e == Element::Token(ts[p])
    } else if line_start_at(ts, p) && ts[p].kind == SyntaxKind::Hash {
        e matches Element::Node(c) && 0 <= c < arena.len() && arena[c as int].kind
            == SyntaxKind::Heading && heading_children_ok(arena, arena[c as int].children@, ts, p)
    } else if item_start_ok(ts, p) {
        e matches Element::Node(c) && 0 <= c < arena.len() && arena[c as int].kind
            == SyntaxKind::List && list_items_ok(
            arena,
            arena[c as int].children@,
            ts,
            p,
            list_end(ts, p),
        )
    } else {
        e matches Element::Node(c) && 0 <= c < arena.len() && arena[c as int].kind
            == SyntaxKind::Paragraph && paragraph_children_ok(arena[c as int].children@, ts, p)
    }
}

/// The Document children `cs` are exactly the segmentation of the tokens
/// from position `p` to `p_end`: one entry per dispatched block, in order,
/// each with its exact content.
pub open spec fn doc_prefix_ok(
    arena: Seq<NodeData>,
    ts: Seq<Token>,
    cs: Seq<Element>,
    p: int,
    p_end: int,
) -> bool
    decreases cs.len(),
{
    if cs.len() == 0 {
        p == p_end
    } else {
        0 <= p < ts.len() && block_matches(arena, ts, cs[0], p) && doc_prefix_ok(
            arena,
            ts,
            cs.drop_first(),
            block_end(ts, p),
            p_end,
        )
    }
}

pub proof fn lemma_block_matches_extend(
    arena: Seq<NodeData>,
    arena2: Seq<NodeData>,
    ts: Seq<Token>,
    e: Element,
    p: int,
)
    requires
        seq_extends(arena, arena2),
        block_matches(arena, ts, e, p),
    ensures
        block_matches(arena2, ts, e, p),
{
    match e {
        Element::Node(c) => {
            assert(arena2[c as int] == arena[c as int]);
            if !(ts[p].kind == SyntaxKind::NewLine) {
                if line_start_at(ts, p) && ts[p].kind == SyntaxKind::Hash {
                    lemma_heading_children_extend(
                        arena,
                        arena2,
                        arena[c as int].children@,
                        ts,
                        p,
                    );
                } else if item_start_ok(ts, p) {
                    lemma_list_items_extend(
                        arena,
                        arena2,
                        arena[c as int].children@,
                        ts,
                        p,
                        list_end(ts, p),
                    );
                }
            }
        },
        Element::Token(_) => {},
    }
}

pub proof fn lemma_doc_prefix_extend(
    arena: Seq<NodeData>,
    arena2: Seq<NodeData>,
    ts: Seq<Token>,
    cs: Seq<Element>,
    p: int,
    p_end: int,
)
    requires
        seq_extends(arena, arena2),
        doc_prefix_ok(arena, ts, cs, p, p_end),
    ensures
        doc_prefix_ok(arena2, ts, cs, p, p_end),
    decreases cs.len(),
{
    if cs.len() > 0 {
        lemma_block_matches_extend(arena, arena2, ts, cs[0], p);
        lemma_doc_prefix_extend(arena, arena2, ts, cs.drop_first(), block_end(ts, p), p_end);
    }
}

pub proof fn lemma_doc_prefix_snoc(
    arena: Seq<NodeData>,
    ts: Seq<Token>,
    cs: Seq<Element>,
    e: Element,
    p: int,
    mid: int,
)
    requires
        doc_prefix_ok(arena, ts, cs, p, mid),
        0 <= mid < ts.len(),
        block_matches(arena, ts, e, mid),
    ensures
        doc_prefix_ok(arena, ts, cs.push(e), p, block_end(ts, mid)),
    decreases cs.len(),
{
    if cs.len() == 0 {
        assert(cs.push(e)[0] == e);
        assert(cs.push(e).drop_first() =~= Seq::<Element>::empty());
        assert(doc_prefix_ok(
            arena,
            ts,
            cs.push(e).drop_first(),
            block_end(ts, p),
            block_end(ts, mid),
        ));
    } else {
        assert(cs.push(e)[0] == cs[0]);
        assert(cs.push(e).drop_first() =~= cs.drop_first().push(e));
        lemma_doc_prefix_snoc(arena, ts, cs.drop_first(), e, block_end(ts, p), mid);
    }
}

/// A list always takes at least one token and stays inside the tokens.
pub proof fn lemma_list_end_bounds(ts: Seq<Token>, p: int)
    requires
        0 <= p < ts.len(),
    ensures
        p < list_end(ts, p) <= ts.len(),
    decreases ts.len() - p,
{
    lemma_item_end_bounds(ts, p);
    let q = item_end(ts, p);
    if item_start_ok(ts, q) {
        lemma_list_end_bounds(ts, q);
    }
}

/// Every dispatched block takes at least one token and stays inside the
/// tokens.
pub proof fn lemma_block_end_bounds(ts: Seq<Token>, p: int)
    requires
        0 <= p < ts.len(),
    ensures
        p < block_end(ts, p) <= ts.len(),
{
    if ts[p].kind == SyntaxKind::NewLine {
    } else if line_start_at(ts, p) && ts[p].kind == SyntaxKind::Hash {
        lemma_hash_end_bounds(ts, p + 1);
        let h = hash_end(ts, p);
        if h < ts.len() {
            if ts[h].kind == SyntaxKind::Whitespace {
                lemma_inline_end_bounds(ts, h);
            } else {
                lemma_inline_end_bounds(ts, h + 1);
            }
        }
    } else if item_start_ok(ts, p) {
        lemma_list_end_bounds(ts, p);
    } else {
        lemma_inline_end_bounds(ts, p + 1);
    }
}

/// A segmentation only moves forward.
pub proof fn lemma_doc_prefix_monotone(
    arena: Seq<NodeData>,
    ts: Seq<Token>,
    cs: Seq<Element>,
    p: int,
    p_end: int,
)
    requires
        doc_prefix_ok(arena, ts, cs, p, p_end),
    ensures
        p <= p_end,
    decreases cs.len(),
{
    if cs.len() > 0 {
        lemma_block_end_bounds(ts, p);
        lemma_doc_prefix_monotone(arena, ts, cs.drop_first(), block_end(ts, p), p_end);
    }
}

/// Two elements agree as observations: equal tokens, or nodes of one kind.
pub open spec fn elem_same_shape(
    arena1: Seq<NodeData>,
    arena2: Seq<NodeData>,
    e1: Element,
    e2: Element,
) -> bool {
    match e1 {
        Element::Token(t1) => e2 == Element::Token(t1),
        Element::Node(c1) => (e2 matches Element::Node(c2) && arena1[c1 as int].kind == arena2[
            c2 as int
        ].kind),
    }
}

/// Determinism of the segmentation: the parser's contract admits only one
/// block decomposition for a given token sequence.  Any two Document child
/// lists that both segment the same tokens over the same span have the
/// same length, and agree position by position: equal NewLine tokens, or
/// block nodes of the same kind whose children are pinned by the same
/// `block_matches` description at the same token position.
pub proof fn lemma_segmentation_deterministic(
    arena1: Seq<NodeData>,
    arena2: Seq<NodeData>,
    ts: Seq<Token>,
    cs1: Seq<Element>,
    cs2: Seq<Element>,
    p: int,
    p_end: int,
)
    requires
        doc_prefix_ok(arena1, ts, cs1, p, p_end),
        doc_prefix_ok(arena2, ts, cs2, p, p_end),
    ensures
        cs1.len() == cs2.len(),
        forall|k: int|
            0 <= k < cs1.len() ==> elem_same_shape(arena1, arena2, #[trigger] cs1[k], cs2[k]),
    decreases cs1.len(),
{
    if cs1.len() == 0 {
        if cs2.len() > 0 {
            lemma_block_end_bounds(ts, p);
            lemma_doc_prefix_monotone(arena2, ts, cs2.drop_first(), block_end(ts, p), p_end);
        }
    } else {
        lemma_block_end_bounds(ts, p);
        if cs2.len() == 0 {
            lemma_doc_prefix_monotone(arena1, ts, cs1.drop_first(), block_end(ts, p), p_end);
        } else {
            assert(elem_same_shape(arena1, arena2, cs1[0], cs2[0]));
            lemma_segmentation_deterministic(
                arena1,
                arena2,
                ts,
                cs1.drop_first(),
                cs2.drop_first(),
                block_end(ts, p),
                p_end,
            );
            assert forall|k: int| 0 <= k < cs1.len() implies elem_same_shape(
                arena1,
                arena2,
                #[trigger] cs1[k],
                cs2[k],
            ) by {
                if k > 0 {
                    assert(cs1[k] == cs1.drop_first()[k - 1]);
                    assert(cs2[k] == cs2.drop_first()[k - 1]);
                }
            }
        }
    }
}

/// Grammar shape of a single finished node: a Heading begins with a Hash
/// token, a ListItem begins with a Dash token, and a List holds nothing but
/// ListItem nodes.
pub open spec fn grammar_node_ok(arena: Seq<NodeData>, nd: NodeData) -> bool {
    &&& (nd.kind == SyntaxKind::List ==> forall|j: int|
        0 <= j < nd.children@.len() ==> ((#[trigger] nd.children@[j]) matches Element::Node(c)
            && 0 <= c < arena.len() && arena[c as int].kind == SyntaxKind::ListItem))
    &&& (nd.kind == SyntaxKind::Heading ==> nd.children@.len() > 0 && (nd.children@[0] matches
    Element::Token(t) && t.kind == SyntaxKind::Hash))
    &&& (nd.kind == SyntaxKind::ListItem ==> nd.children@.len() > 0 && (nd.children@[0] matches
    Element::Token(t) && t.kind == SyntaxKind::Dash))
}

/// Grammar shape of the whole arena.
pub open spec fn grammar_wf(arena: Seq<NodeData>) -> bool {
    forall|i: int| 0 <= i < arena.len() ==> grammar_node_ok(arena, #[trigger] arena[i])
}

/// Appending a node that is itself in shape keeps the arena in shape.
pub proof fn lemma_grammar_push(arena: Seq<NodeData>, nd: NodeData)
    requires
        grammar_wf(arena),
        grammar_node_ok(arena.push(nd), nd),
    ensures
        grammar_wf(arena.push(nd)),
{
    let a2 = arena.push(nd);
    assert forall|i: int| 0 <= i < a2.len() implies grammar_node_ok(a2, #[trigger] a2[i]) by {
        if i < arena.len() {
            assert(a2[i] == arena[i]);
            assert(grammar_node_ok(arena, arena[i]));
            if a2[i].kind == SyntaxKind::List {
                assert forall|j: int| 0 <= j < a2[i].children@.len() implies (#[trigger] a2[
                i].children@[j]) matches Element::Node(c) && 0 <= c < a2.len() && a2[
                c as int].kind == SyntaxKind::ListItem by {
                    assert(arena[i].children@[j] matches Element::Node(c) && 0 <= c
                        < arena.len() && arena[c as int].kind == SyntaxKind::ListItem);
                }
            }
        }
    }
}

/// Parser state: the token sequence, the input bytes, the position in the
/// token sequence, and the tree builder being driven.
pub struct Parser {
    pub tokens: Vec<Token>,
    pub input: Vec<u8>,
    pub pos: usize,
    pub builder: TreeBuilder,
}

impl Parser {
    /// Byte offset of token `p`, or the input's length past the end.
    pub open spec fn tok_off(&self, p: int) -> int {
        if p < self.tokens@.len() {
            self.tokens@[p].start as int
        } else {
            self.input@.len() as int
        }
    }

    /// Start of a line: the first token, or right after a NewLine.
    pub open spec fn spec_line_start(&self, p: int) -> bool {
        line_start_at(self.tokens@, p)
    }

    /// The parser invariant: the builder is well formed, its position is the
    /// byte offset of the current token, the tokens tile the input, and all
    /// recorded ranges stay inside the input.
    pub open spec fn wf(&self) -> bool {
        &&& self.builder.wf()
        &&& self.pos <= self.tokens@.len()
        &&& token_seq_wf(self.tokens@, self.input@.len() as int)
        &&& self.builder.cur() == self.tok_off(self.pos as int)
        &&& (forall|i: int|
            0 <= i < self.builder.arena@.len() ==> (#[trigger] self.builder.arena@[i]).end
                <= self.input@.len())
        &&& (forall|j: int|
            0 <= j < self.builder.stack@.len() ==> (#[trigger] self.builder.stack@[j]).end
                <= self.input@.len())
    }

    /// A parser over `input` and its token sequence, positioned at the
    /// first token with no node open yet.
    #[verifier::rlimit(50)]
    pub fn new(input: &str, tokens: &[Token]) -> (p: Parser)
        requires
            tokens@ == spec_tokenize(input.spec_bytes(), 0),
        ensures
            p.wf(),
            p.pos == 0,
            p.builder.depth() == 0,
            p.builder.arena@.len() == 0,
            p.tokens@ == tokens@,
            p.input@ == input.spec_bytes(),
    {
        let bytes = vstd::slice::slice_to_vec(input.as_bytes());
        let p = Parser { tokens: vstd::slice::slice_to_vec(tokens), input: bytes, pos: 0, builder: TreeBuilder::new() };
        let n = p.input.len();
        proof {
            assert(input.spec_bytes().len() == n as int);
            lemma_tokenize_props(input.spec_bytes(), 0);
        }
        p
    }

    /// The current token, if any.
    fn current(&self) -> (r: Option<Token>)
        ensures
            self.pos < self.tokens@.len() ==> r == Some(self.tokens@[self.pos as int]),
            self.pos >= self.tokens@.len() ==> r is None,
    {
        if self.pos < self.tokens.len() {
            Some(self.tokens[self.pos])
        } else {
            None
        }
    }

    /// True at the end of the token sequence.
    fn eof(&self) -> (r: bool)
        ensures
            r == (self.pos >= self.tokens@.len()),
    {
        self.pos >= self.tokens.len()
    }

    /// True when the current token exists and has the given kind.
    fn at(&self, kind: SyntaxKind) -> (r: bool)
        ensures
            r == (self.pos < self.tokens@.len() && self.tokens@[self.pos as int].kind == kind),
    {
        match self.current() {
            Some(t) => t.kind == kind,
            None => false,
        }
    }

    /// True at the start of a line.
    fn at_line_start(&self) -> (r: bool)
        requires
            self.pos <= self.tokens@.len(),
        ensures
            r == self.spec_line_start(self.pos as int),
    {
        self.pos == 0 || self.tokens[self.pos - 1].kind == SyntaxKind::NewLine
    }

    /// True at the end of a line: end of input, or at a NewLine token.
    fn at_blank_line(&self) -> (r: bool)
        ensures
            r == (self.pos >= self.tokens@.len() || self.tokens@[self.pos as int].kind
                == SyntaxKind::NewLine),
    {
        self.pos >= self.tokens.len() || self.tokens[self.pos].kind == SyntaxKind::NewLine
    }

    /// True when the token after the current one is Whitespace.
    fn next_is_whitespace(&self) -> (r: bool)
        requires
            self.pos <= self.tokens@.len(),
        ensures
            r == (self.pos + 1 < self.tokens@.len() && self.tokens@[self.pos + 1].kind
                == SyntaxKind::Whitespace),
    {
        self.pos < self.tokens.len() && self.pos + 1 < self.tokens.len() && self.tokens[self.pos
            + 1].kind == SyntaxKind::Whitespace
    }

    /// Attach the current token to the top open node and advance; at the
    /// end of the input this is a no-op.
    #[verifier::rlimit(100)]
    fn bump(&mut self)
        requires
            old(self).wf(),
            old(self).builder.depth() > 0,
        ensures
            final(self).wf(),
            final(self).builder.depth() == old(self).builder.depth(),
            old(self).pos >= old(self).tokens@.len() ==> *final(self) == *old(self),
            top_extended(*old(self), *final(self)),
            old(self).pos < old(self).tokens@.len() ==> final(self).pos == old(self).pos + 1
                && final(self).builder.top().children@ == old(self).builder.top().children@.push(
                Element::Token(old(self).tokens@[old(self).pos as int]),
            ),
            final(self).builder.arena@ == old(self).builder.arena@,
    {
        if self.pos >= self.tokens.len() {
            return ;
        }
        let n = self.tokens.len();
        let t = self.tokens[self.pos];
        self.builder.token(t);
        assert(self.pos < n);
        self.pos = self.pos + 1;
        proof {
            let ts = self.tokens@;
            let p = old(self).pos as int;
            if p + 1 < ts.len() {
                assert(ts[p].end == ts[p + 1].start);
            } else {
                assert(ts.last().end == self.input@.len());
            }
            assert(seq_extends(old(self).builder.arena@, self.builder.arena@));
        }
    }

    /// Consume the current token when it has the given kind.
    #[verifier::rlimit(100)]
    fn eat(&mut self, kind: SyntaxKind) -> (r: bool)
        requires
            old(self).wf(),
            old(self).builder.depth() > 0,
        ensures
            final(self).wf(),
            final(self).builder.depth() == old(self).builder.depth(),
            r == (old(self).pos < old(self).tokens@.len() && old(self).tokens@[old(self).pos as int].kind == kind),
            top_extended(*old(self), *final(self)),
            r ==> final(self).pos == old(self).pos + 1 && final(self).builder.top().children@
                == old(self).builder.top().children@.push(
                Element::Token(old(self).tokens@[old(self).pos as int]),
            ) && final(self).builder.arena@ == old(self).builder.arena@,
            !r ==> *final(self) == *old(self),
    {
        if self.at(kind) {
            self.bump();
            true
        } else {
            false
        }
    }

    /// Consume the maximal run of Hash tokens into the top open node.
    fn consume_hashes(&mut self)
        requires
            old(self).wf(),
            old(self).builder.depth() > 0,
            old(self).pos < old(self).tokens@.len(),
            old(self).tokens@[old(self).pos as int].kind == SyntaxKind::Hash,
        ensures
            final(self).wf(),
            final(self).builder.depth() == old(self).builder.depth(),
            top_extended(*old(self), *final(self)),
            old(self).pos < final(self).pos <= final(self).tokens@.len(),
            !(final(self).pos < final(self).tokens@.len() && final(self).tokens@[final(self).pos as int].kind == SyntaxKind::Hash),
            final(self).builder.arena@ == old(self).builder.arena@,
            old(self).builder.top().children@.len() == 0 ==> final(self).builder.top().children@.len() > 0 && (final(self).builder.top().children@[0] matches
            Element::Token(t) && t.kind == SyntaxKind::Hash),
            final(self).pos == hash_end(final(self).tokens@, old(self).pos as int),
            final(self).builder.top().children@ == old(self).builder.top().children@ + token_elems(
                final(self).tokens@,
                old(self).pos as int,
                final(self).pos as int,
            ),
    {
        let ghost p0 = self.pos as int;
        let ghost cs0 = self.builder.top().children@;
        self.bump();
        proof {
            assert(cs0.push(Element::Token(self.tokens@[p0])) =~= cs0 + token_elems(
                self.tokens@,
                p0,
                p0 + 1,
            ));
        }
        let ghost base = *self;
        while self.at(SyntaxKind::Hash)
            invariant
                self.wf(),
                self.builder.depth() == base.builder.depth() > 0,
                top_extended(base, *self),
                base.pos <= self.pos <= self.tokens@.len(),
                self.builder.arena@ == base.builder.arena@,
                p0 <= self.pos,
                hash_end(self.tokens@, p0) == hash_end(self.tokens@, self.pos as int),
                self.builder.top().children@ == cs0 + token_elems(
                    self.tokens@,
                    p0,
                    self.pos as int,
                ),
            decreases self.tokens@.len() - self.pos,
        {
            let ghost q = self.pos as int;
            self.bump();
            proof {
                assert((cs0 + token_elems(self.tokens@, p0, q)).push(
                    Element::Token(self.tokens@[q]),
                ) =~= cs0 + token_elems(self.tokens@, p0, q + 1));
            }
        }
    }

    /// Require a Whitespace token.  When the current token is not
    /// Whitespace, recover by wrapping exactly that one token in an Error
    /// node (an empty Error node at end of input) and continue.
    fn expect_whitespace(&mut self)
        requires
            old(self).wf(),
            old(self).builder.depth() > 0,
        ensures
            final(self).wf(),
            final(self).builder.depth() == old(self).builder.depth(),
            top_extended(*old(self), *final(self)),
            old(self).pos <= final(self).pos <= old(self).pos + 1,
            final(self).pos <= final(self).tokens@.len(),
            grammar_wf(old(self).builder.arena@) ==> grammar_wf(final(self).builder.arena@),
            old(self).pos < old(self).tokens@.len() && old(self).tokens@[old(self).pos as int].kind
                == SyntaxKind::Whitespace ==> *final(self) == *old(self),
            ({
                let ts = old(self).tokens@;
                let p = old(self).pos as int;
                let a0 = old(self).builder.arena@.len() as int;
                &&& (p < ts.len() && ts[p].kind != SyntaxKind::Whitespace ==> {
                    &&& final(self).pos == p + 1
                    &&& final(self).builder.arena@.len() == a0 + 1
                    &&& seq_extends(old(self).builder.arena@, final(self).builder.arena@)
                    &&& final(self).builder.top().children@ == old(
                        self,
                    ).builder.top().children@.push(Element::Node(a0 as usize))
                    &&& error_wraps(
                        final(self).builder.arena@,
                        Element::Node(a0 as usize),
                        Some(ts[p]),
                    )
                })
                &&& (p >= ts.len() ==> {
                    &&& final(self).pos == p
                    &&& final(self).builder.arena@.len() == a0 + 1
                    &&& seq_extends(old(self).builder.arena@, final(self).builder.arena@)
                    &&& final(self).builder.top().children@ == old(
                        self,
                    ).builder.top().children@.push(Element::Node(a0 as usize))
                    &&& error_wraps(final(self).builder.arena@, Element::Node(a0 as usize), None)
                })
            }),
    {
        let a0 = self.builder.arena.len();
        if !self.at(SyntaxKind::Whitespace) {
            self.builder.start_node(SyntaxKind::Error);
            if self.pos < self.tokens.len() {
                self.bump();
            }
            let ghost before = *self;
            self.builder.finish_node();
            proof {
                assert(self.builder.arena@[a0 as int] == before.builder.top());
                if grammar_wf(old(self).builder.arena@) {
                    assert(grammar_node_ok(self.builder.arena@, before.builder.top()));
                    lemma_grammar_push(before.builder.arena@, before.builder.top());
                }
                if old(self).pos < old(self).tokens@.len() {
                    assert(before.builder.top().children@ =~= seq![
                        Element::Token(old(self).tokens@[old(self).pos as int]),
                    ]);
                }
            }
        }
    }

    /// Attach one inline token to the enclosing node.  This is the dispatch
    /// point where richer inline constructs would be recognized; the minimal
    /// grammar consumes every token verbatim.
    fn parse_inline(&mut self)
        requires
            old(self).wf(),
            old(self).builder.depth() > 0,
            old(self).pos < old(self).tokens@.len(),
        ensures
            final(self).wf(),
            final(self).builder.depth() == old(self).builder.depth(),
            top_extended(*old(self), *final(self)),
            final(self).pos == old(self).pos + 1,
            final(self).builder.arena@ == old(self).builder.arena@,
            final(self).builder.top().children@ == old(self).builder.top().children@.push(
                Element::Token(old(self).tokens@[old(self).pos as int]),
            ),
    {
        self.bump();
    }

    /// Attach tokens to the enclosing node until end of line or end of
    /// input.
    fn parse_inline_until_newline(&mut self)
        requires
            old(self).wf(),
            old(self).builder.depth() > 0,
        ensures
            final(self).wf(),
            final(self).builder.depth() == old(self).builder.depth(),
            top_extended(*old(self), *final(self)),
            old(self).pos <= final(self).pos <= final(self).tokens@.len(),
            old(self).pos < old(self).tokens@.len() && old(self).tokens@[old(self).pos as int].kind
                != SyntaxKind::NewLine ==> final(self).pos > old(self).pos,
            final(self).pos >= final(self).tokens@.len() || final(self).tokens@[final(self).pos as int].kind == SyntaxKind::NewLine,
            final(self).builder.arena@ == old(self).builder.arena@,
            final(self).pos == inline_end(final(self).tokens@, old(self).pos as int),
            final(self).builder.top().children@ == old(self).builder.top().children@ + token_elems(
                final(self).tokens@,
                old(self).pos as int,
                final(self).pos as int,
            ),
    {
        let ghost p0 = self.pos as int;
        let ghost cs0 = self.builder.top().children@;
        proof {
            assert(cs0 + token_elems(self.tokens@, p0, p0) =~= cs0);
        }
        let ghost base = *self;
        while !self.eof() && !self.at_blank_line()
            invariant
                self.wf(),
                self.builder.depth() == base.builder.depth() > 0,
                top_extended(base, *self),
                base.pos <= self.pos <= self.tokens@.len(),
                self.builder.arena@ == base.builder.arena@,
                p0 <= self.pos,
                inline_end(self.tokens@, p0) == inline_end(self.tokens@, self.pos as int),
                self.builder.top().children@ == cs0 + token_elems(
                    self.tokens@,
                    p0,
                    self.pos as int,
                ),
            decreases self.tokens@.len() - self.pos,
        {
            let ghost q = self.pos as int;
            self.parse_inline();
            proof {
                assert((cs0 + token_elems(self.tokens@, p0, q)).push(
                    Element::Token(self.tokens@[q]),
                ) =~= cs0 + token_elems(self.tokens@, p0, q + 1));
            }
        }
    }

    /// Parse a Paragraph: the fallback block, taking a whole line verbatim.
    fn parse_paragraph(&mut self)
        requires
            old(self).wf(),
            old(self).builder.depth() > 0,
            old(self).pos < old(self).tokens@.len(),
            old(self).tokens@[old(self).pos as int].kind != SyntaxKind::NewLine,
        ensures
            final(self).wf(),
            final(self).builder.depth() == old(self).builder.depth(),
            wrapped_block(*old(self), *final(self), SyntaxKind::Paragraph),
            old(self).pos < final(self).pos <= final(self).tokens@.len(),
            grammar_wf(old(self).builder.arena@) ==> grammar_wf(final(self).builder.arena@),
            final(self).pos == inline_end(final(self).tokens@, old(self).pos as int),
            paragraph_children_ok(
                final(self).builder.arena@.last().children@,
                final(self).tokens@,
                old(self).pos as int,
            ),
    {
        self.builder.start_node(SyntaxKind::Paragraph);
        self.parse_inline_until_newline();
        let ghost before = *self;
        self.builder.finish_node();
        proof {
            let ts = self.tokens@;
            let p = old(self).pos as int;
            assert(Seq::<Element>::empty() + token_elems(ts, p, self.pos as int) =~= token_elems(
                ts,
                p,
                self.pos as int,
            ));
            assert(self.builder.arena@.last() == before.builder.top());
            if grammar_wf(old(self).builder.arena@) {
                assert(grammar_node_ok(self.builder.arena@, before.builder.top()));
                lemma_grammar_push(before.builder.arena@, before.builder.top());
            }
        }
    }

    /// Parse one ListItem: the Dash marker, the required Whitespace (with
    /// single-token recovery), the item's inline content, and an optional
    /// trailing NewLine.
    fn parse_list_item(&mut self)
        requires
            old(self).wf(),
            old(self).builder.depth() > 0,
            old(self).pos < old(self).tokens@.len(),
            old(self).tokens@[old(self).pos as int].kind == SyntaxKind::Dash,
        ensures
            final(self).wf(),
            final(self).builder.depth() == old(self).builder.depth(),
            wrapped_block(*old(self), *final(self), SyntaxKind::ListItem),
            old(self).pos < final(self).pos <= final(self).tokens@.len(),
            grammar_wf(old(self).builder.arena@) ==> grammar_wf(final(self).builder.arena@),
            final(self).pos == item_end(final(self).tokens@, old(self).pos as int),
            item_children_ok(
                final(self).builder.arena@,
                final(self).builder.arena@.last().children@,
                final(self).tokens@,
                old(self).pos as int,
            ),
    {
        let ghost ts = self.tokens@;
        let ghost p = self.pos as int;
        self.builder.start_node(SyntaxKind::ListItem);
        self.bump();
        proof {
            lemma_token_elems_trivial(ts, p);
            assert(Seq::<Element>::empty().push(Element::Token(ts[p])) =~= token_elems(
                ts,
                p,
                p + 1,
            ));
        }
        let ghost after_dash = *self;
        self.expect_whitespace();
        let ghost after_ws = *self;
        self.parse_inline_until_newline();
        let ghost q = self.pos as int;
        self.eat(SyntaxKind::NewLine);
        let ghost before = *self;
        proof {
            if p + 1 < ts.len() && ts[p + 1].kind == SyntaxKind::Whitespace {
                lemma_token_elems_concat(ts, p, p + 1, q);
                if q < ts.len() && ts[q].kind == SyntaxKind::NewLine {
                    lemma_token_elems_push(ts, p, q);
                    assert(before.builder.top().children@ == token_elems(ts, p, q + 1));
                } else {
                    assert(before.builder.top().children@ == token_elems(ts, p, q));
                }
                assert(before.builder.top().children@ == token_elems(ts, p, item_end(ts, p)));
            } else if p + 1 < ts.len() {
                let ec = Element::Node(after_dash.builder.arena@.len() as usize);
                if q < ts.len() && ts[q].kind == SyntaxKind::NewLine {
                    lemma_token_elems_push(ts, p + 2, q);
                    assert(before.builder.top().children@ =~= token_elems(ts, p, p + 1)
                        + seq![ec] + token_elems(ts, p + 2, q + 1));
                } else {
                    assert(before.builder.top().children@ =~= token_elems(ts, p, p + 1)
                        + seq![ec] + token_elems(ts, p + 2, q));
                }
            } else {
                assert(q == p + 1);
                let ec = Element::Node(after_dash.builder.arena@.len() as usize);
                assert(before.builder.top().children@ =~= token_elems(ts, p, p + 1).push(ec));
            }
        }
        self.builder.finish_node();
        proof {
            assert(self.builder.arena@.last() == before.builder.top());
            if p + 1 < ts.len() && ts[p + 1].kind != SyntaxKind::Whitespace {
                let c = after_dash.builder.arena@.len() as int;
                assert(self.builder.arena@[c] == after_ws.builder.arena@[c]);
                assert(error_wraps(
                    self.builder.arena@,
                    Element::Node(c as usize),
                    Some(ts[p + 1]),
                ));
            }
            if p + 1 >= ts.len() {
                let c = after_dash.builder.arena@.len() as int;
                assert(self.builder.arena@[c] == after_ws.builder.arena@[c]);
                assert(error_wraps(self.builder.arena@, Element::Node(c as usize), None));
            }
            if grammar_wf(old(self).builder.arena@) {
                assert(before.builder.top().children@[0] matches Element::Token(t) && t.kind
                    == SyntaxKind::Dash);
                assert(grammar_node_ok(self.builder.arena@, before.builder.top()));
                lemma_grammar_push(before.builder.arena@, before.builder.top());
            }
        }
    }

    /// Parse a List: a maximal run of list items, each introduced by a Dash
    /// immediately followed by Whitespace at the start of a line.
    fn parse_list(&mut self)
        requires
            old(self).wf(),
            old(self).builder.depth() > 0,
            old(self).pos < old(self).tokens@.len(),
            old(self).tokens@[old(self).pos as int].kind == SyntaxKind::Dash,
            old(self).pos + 1 < old(self).tokens@.len() && old(self).tokens@[old(self).pos
                + 1].kind == SyntaxKind::Whitespace,
        ensures
            final(self).wf(),
            final(self).builder.depth() == old(self).builder.depth(),
            wrapped_block(*old(self), *final(self), SyntaxKind::List),
            old(self).pos < final(self).pos <= final(self).tokens@.len(),
            grammar_wf(old(self).builder.arena@) ==> grammar_wf(final(self).builder.arena@),
            final(self).pos == list_end(final(self).tokens@, old(self).pos as int),
            list_items_ok(
                final(self).builder.arena@,
                final(self).builder.arena@.last().children@,
                final(self).tokens@,
                old(self).pos as int,
                list_end(final(self).tokens@, old(self).pos as int),
            ),
    {
        let ghost ts = self.tokens@;
        let ghost p0 = self.pos as int;
        self.builder.start_node(SyntaxKind::List);
        self.parse_list_item();
        // Reading the machine length grounds that the arena's ghost length
        // fits in usize, which the child-index casts depend on.
        let n0 = self.builder.arena.len();
        proof {
            assert(self.builder.arena@.len() == n0);
            let c0 = (n0 - 1) as int;
            assert(self.builder.arena@[c0] == self.builder.arena@.last());
            assert(list_items_ok(
                self.builder.arena@,
                self.builder.top().children@.drop_first(),
                ts,
                item_end(ts, p0),
                self.pos as int,
            ));
            assert(list_items_ok(
                self.builder.arena@,
                self.builder.top().children@,
                ts,
                p0,
                self.pos as int,
            ));
        }
        let ghost base = *self;
        while self.at_line_start() && self.at(SyntaxKind::Dash) && self.next_is_whitespace()
            invariant
                self.wf(),
                self.builder.depth() == base.builder.depth() > 0,
                top_extended(base, *self),
                base.pos <= self.pos <= self.tokens@.len(),
                ts == self.tokens@,
                0 <= p0 < ts.len(),
                grammar_wf(base.builder.arena@) ==> grammar_wf(self.builder.arena@),
                forall|j: int|
                    0 <= j < self.builder.top().children@.len() ==> ((
                    #[trigger] self.builder.top().children@[j]) matches Element::Node(c) && 0 <= c
                        < self.builder.arena@.len() && self.builder.arena@[c as int].kind
                        == SyntaxKind::ListItem),
                list_items_ok(
                    self.builder.arena@,
                    self.builder.top().children@,
                    ts,
                    p0,
                    self.pos as int,
                ),
                list_end(ts, p0) == (if item_start_ok(ts, self.pos as int) {
                    list_end(ts, self.pos as int)
                } else {
                    self.pos as int
                }),
            decreases self.tokens@.len() - self.pos,
        {
            let ghost prev = *self;
            self.parse_list_item();
            let n1 = self.builder.arena.len();
            proof {
                assert(self.builder.arena@.len() == n1);
                let cs = self.builder.top().children@;
                assert forall|j: int| 0 <= j < cs.len() implies ((#[trigger] cs[j]) matches
                Element::Node(c) && 0 <= c < self.builder.arena@.len()
                    && self.builder.arena@[c as int].kind == SyntaxKind::ListItem) by {
                    if j < cs.len() - 1 {
                        assert(cs[j] == prev.builder.top().children@[j]);
                    }
                }
                let mid = prev.pos as int;
                lemma_list_items_extend(
                    prev.builder.arena@,
                    self.builder.arena@,
                    prev.builder.top().children@,
                    ts,
                    p0,
                    mid,
                );
                let e = Element::Node((n1 - 1) as usize);
                assert(self.builder.arena@[(n1 - 1) as int] == self.builder.arena@.last());
                lemma_list_items_snoc(
                    self.builder.arena@,
                    prev.builder.top().children@,
                    ts,
                    p0,
                    mid,
                    e,
                );
                assert(self.builder.top().children@ == prev.builder.top().children@.push(e));
            }
        }
        let ghost before = *self;
        self.builder.finish_node();
        proof {
            assert(self.builder.arena@.last() == before.builder.top());
            assert(seq_extends(before.builder.arena@, self.builder.arena@));
            lemma_list_items_extend(
                before.builder.arena@,
                self.builder.arena@,
                before.builder.top().children@,
                ts,
                p0,
                before.pos as int,
            );
            if grammar_wf(old(self).builder.arena@) {
                let a2 = self.builder.arena@;
                let nd = before.builder.top();
                assert forall|j: int| 0 <= j < nd.children@.len() implies ((
                #[trigger] nd.children@[j]) matches Element::Node(c) && 0 <= c < a2.len() && a2[
                c as int].kind == SyntaxKind::ListItem) by {
                    assert((nd.children@[j] matches Element::Node(c) && 0 <= c
                        < before.builder.arena@.len() && before.builder.arena@[c as int].kind
                        == SyntaxKind::ListItem));
                }
                assert(grammar_node_ok(a2, nd));
                lemma_grammar_push(before.builder.arena@, nd);
            }
        }
    }

    /// Parse a Heading: the maximal run of leading Hash tokens (the heading
    /// level), the required Whitespace (with single-token recovery), then
    /// inline content to the end of the line.
    fn parse_heading(&mut self)
        requires
            old(self).wf(),
            old(self).builder.depth() > 0,
            old(self).pos < old(self).tokens@.len(),
            old(self).tokens@[old(self).pos as int].kind == SyntaxKind::Hash,
        ensures
            final(self).wf(),
            final(self).builder.depth() == old(self).builder.depth(),
            wrapped_block(*old(self), *final(self), SyntaxKind::Heading),
            old(self).pos < final(self).pos <= final(self).tokens@.len(),
            grammar_wf(old(self).builder.arena@) ==> grammar_wf(final(self).builder.arena@),
            final(self).pos == heading_end(final(self).tokens@, old(self).pos as int),
            heading_children_ok(
                final(self).builder.arena@,
                final(self).builder.arena@.last().children@,
                final(self).tokens@,
                old(self).pos as int,
            ),
    {
        let ghost ts = self.tokens@;
        let ghost p = self.pos as int;
        self.builder.start_node(SyntaxKind::Heading);
        self.consume_hashes();
        let ghost h = self.pos as int;
        proof {
            assert(h == hash_end(ts, p));
            assert(Seq::<Element>::empty() + token_elems(ts, p, h) =~= token_elems(ts, p, h));
        }
        let ghost after_hashes = *self;
        self.expect_whitespace();
        let ghost after_ws = *self;
        self.parse_inline_until_newline();
        let ghost before = *self;
        proof {
            if h < ts.len() && ts[h].kind == SyntaxKind::Whitespace {
                lemma_token_elems_concat(ts, p, h, self.pos as int);
                assert(before.builder.top().children@ == token_elems(ts, p, self.pos as int));
            } else if h < ts.len() {
                let ec = Element::Node(after_hashes.builder.arena@.len() as usize);
                assert(before.builder.top().children@ =~= token_elems(ts, p, h) + seq![ec]
                    + token_elems(ts, h + 1, self.pos as int));
            } else {
                assert(self.pos == h);
                let ec = Element::Node(after_hashes.builder.arena@.len() as usize);
                assert(before.builder.top().children@ =~= token_elems(ts, p, h).push(ec));
            }
        }
        self.builder.finish_node();
        proof {
            assert(self.builder.arena@.last() == before.builder.top());
            if h < ts.len() && ts[h].kind != SyntaxKind::Whitespace {
                let c = after_hashes.builder.arena@.len() as int;
                assert(self.builder.arena@[c] == after_ws.builder.arena@[c]);
                assert(error_wraps(self.builder.arena@, Element::Node(c as usize), Some(ts[h])));
            }
            if h >= ts.len() {
                let c = after_hashes.builder.arena@.len() as int;
                assert(self.builder.arena@[c] == after_ws.builder.arena@[c]);
                assert(error_wraps(self.builder.arena@, Element::Node(c as usize), None));
            }
            if grammar_wf(old(self).builder.arena@) {
                assert(before.builder.top().children@[0] matches Element::Token(t) && t.kind
                    == SyntaxKind::Hash);
                assert(grammar_node_ok(self.builder.arena@, before.builder.top()));
                lemma_grammar_push(before.builder.arena@, before.builder.top());
            }
        }
    }

    /// Parse one block at the current position.  Dispatch, at the start of
    /// a line: Hash opens a Heading; Dash immediately followed by
    /// Whitespace opens a List; anything else opens a Paragraph.  A NewLine
    /// token (an empty or just-ended line) attaches directly to the
    /// enclosing Document.  Every path consumes at least one token.
    fn parse_block(&mut self)
        requires
            old(self).wf(),
            old(self).builder.depth() > 0,
            old(self).pos < old(self).tokens@.len(),
        ensures
            final(self).wf(),
            final(self).builder.depth() == old(self).builder.depth(),
            top_extended(*old(self), *final(self)),
            old(self).pos < final(self).pos <= final(self).tokens@.len(),
            final(self).builder.top().children@.len() == old(self).builder.top().children@.len()
                + 1,
            block_elem(final(self).builder.arena@, final(self).builder.top().children@.last()),
            old(self).tokens@[old(self).pos as int].kind == SyntaxKind::NewLine ==> final(self).builder.top().children@.last() == Element::Token(
                old(self).tokens@[old(self).pos as int],
            ),
            grammar_wf(old(self).builder.arena@) ==> grammar_wf(final(self).builder.arena@),
            final(self).pos == block_end(final(self).tokens@, old(self).pos as int),
            block_matches(
                final(self).builder.arena@,
                final(self).tokens@,
                final(self).builder.top().children@.last(),
                old(self).pos as int,
            ),
    {
        // Reading the machine length grounds that the arena's ghost length
        // fits in usize, which the child-index casts below depend on.
        let n = self.builder.arena.len();
        proof {
            assert(self.builder.arena@.len() == n);
        }
        if self.at(SyntaxKind::NewLine) {
            self.bump();
        } else if self.at_line_start() && self.at(SyntaxKind::Hash) {
            self.parse_heading();
            proof {
                lemma_wrapped_is_extended(*old(self), *self, SyntaxKind::Heading);
            }
        } else if self.at_line_start() && self.at(SyntaxKind::Dash) && self.next_is_whitespace() {
            self.parse_list();
            proof {
                lemma_wrapped_is_extended(*old(self), *self, SyntaxKind::List);
            }
        } else {
            self.parse_paragraph();
            proof {
                lemma_wrapped_is_extended(*old(self), *self, SyntaxKind::Paragraph);
            }
        }
        let m = self.builder.arena.len();
        proof {
            assert(self.builder.arena@.len() == m);
        }
    }

    /// Parse the whole token sequence into one Document node.
    fn parse_document(&mut self)
        requires
            old(self).wf(),
            old(self).pos == 0,
            old(self).builder.depth() == 0,
            old(self).builder.arena@.len() == 0,
        ensures
            final(self).wf(),
            final(self).builder.depth() == 0,
            final(self).pos == final(self).tokens@.len(),
            final(self).tokens == old(self).tokens,
            final(self).input == old(self).input,
            final(self).builder.arena@.len() > 0,
            final(self).builder.arena@.last().kind == SyntaxKind::Document,
            final(self).builder.arena@.last().start == 0,
            final(self).builder.arena@.last().end == final(self).input@.len(),
            forall|j: int|
                0 <= j < final(self).builder.arena@.last().children@.len() ==> block_elem(
                    final(self).builder.arena@,
                    #[trigger] final(self).builder.arena@.last().children@[j],
                ),
            old(self).tokens@.len() == 0 ==> final(self).builder.arena@.last().children@.len()
                == 0,
            grammar_wf(final(self).builder.arena@),
            doc_prefix_ok(
                final(self).builder.arena@,
                final(self).tokens@,
                final(self).builder.arena@.last().children@,
                0,
                final(self).tokens@.len() as int,
            ),
    {
        self.builder.start_node(SyntaxKind::Document);
        proof {
            assert(grammar_wf(self.builder.arena@));
        }
        let ghost base = *self;
        while self.pos < self.tokens.len()
            invariant
                self.wf(),
                self.builder.depth() == 1,
                self.builder.stack@[0].kind == SyntaxKind::Document,
                self.builder.stack@[0].start == 0,
                self.tokens == base.tokens,
                self.input == base.input,
                self.pos <= self.tokens@.len(),
                forall|j: int|
                    0 <= j < self.builder.stack@[0].children@.len() ==> block_elem(
                        self.builder.arena@,
                        #[trigger] self.builder.stack@[0].children@[j],
                    ),
                base.tokens@.len() == 0 ==> self.builder.stack@[0].children@.len() == 0,
                grammar_wf(self.builder.arena@),
                doc_prefix_ok(
                    self.builder.arena@,
                    self.tokens@,
                    self.builder.stack@[0].children@,
                    0,
                    self.pos as int,
                ),
            decreases self.tokens@.len() - self.pos,
        {
            let ghost prev = *self;
            self.parse_block();
            proof {
                let cs = self.builder.top().children@;
                let old_cs = prev.builder.top().children@;
                assert(cs =~= old_cs.push(cs.last()));
                lemma_doc_prefix_extend(
                    prev.builder.arena@,
                    self.builder.arena@,
                    self.tokens@,
                    old_cs,
                    0,
                    prev.pos as int,
                );
                lemma_doc_prefix_snoc(
                    self.builder.arena@,
                    self.tokens@,
                    old_cs,
                    cs.last(),
                    0,
                    prev.pos as int,
                );
                assert forall|j: int| 0 <= j < cs.len() implies block_elem(
                    self.builder.arena@,
                    #[trigger] cs[j],
                ) by {
                    if j < old_cs.len() {
                        assert(cs[j] == old_cs[j]);
                        assert(block_elem(prev.builder.arena@, old_cs[j]));
                        match old_cs[j] {
                            Element::Token(_) => {},
                            Element::Node(c) => {
                                assert(prev.builder.arena@[c as int]
                                    == self.builder.arena@[c as int]);
                            },
                        }
                    } else {
                        assert(j == cs.len() - 1);
                        match cs[j] {
                            Element::Token(_) => {},
                            Element::Node(_) => {},
                        }
                    }
                }
            }
        }
        let ghost before_close = *self;
        self.builder.finish_node();
        proof {
            assert(grammar_node_ok(self.builder.arena@, before_close.builder.top()));
            lemma_grammar_push(before_close.builder.arena@, before_close.builder.top());
            assert(self.builder.arena@.last() == before_close.builder.top());
            assert(seq_extends(before_close.builder.arena@, self.builder.arena@));
            lemma_doc_prefix_extend(
                before_close.builder.arena@,
                self.builder.arena@,
                self.tokens@,
                before_close.builder.top().children@,
                0,
                before_close.pos as int,
            );
            let root = self.builder.arena@.last();
            let prev_arena = before_close.builder.arena@;
            assert(root == before_close.builder.top());
            assert forall|j: int| 0 <= j < root.children@.len() implies block_elem(
                self.builder.arena@,
                #[trigger] root.children@[j],
            ) by {
                assert(block_elem(prev_arena, root.children@[j]));
                match root.children@[j] {
                    Element::Token(_) => {},
                    Element::Node(c) => {
                        assert(self.builder.arena@[c as int] == prev_arena[c as int]);
                    },
                }
            }
        }
    }

    /// Run the parser over its whole token sequence.
    pub fn parse(&mut self)
        requires
            old(self).wf(),
            old(self).pos == 0,
            old(self).builder.depth() == 0,
            old(self).builder.arena@.len() == 0,
        ensures
            final(self).wf(),
            final(self).builder.depth() == 0,
            final(self).pos == final(self).tokens@.len(),
            final(self).tokens == old(self).tokens,
            final(self).input == old(self).input,
            final(self).builder.arena@.len() > 0,
            final(self).builder.arena@.last().kind == SyntaxKind::Document,
            final(self).builder.arena@.last().start == 0,
            final(self).builder.arena@.last().end == final(self).input@.len(),
            forall|j: int|
                0 <= j < final(self).builder.arena@.last().children@.len() ==> block_elem(
                    final(self).builder.arena@,
                    #[trigger] final(self).builder.arena@.last().children@[j],
                ),
            old(self).tokens@.len() == 0 ==> final(self).builder.arena@.last().children@.len()
                == 0,
            grammar_wf(final(self).builder.arena@),
            doc_prefix_ok(
                final(self).builder.arena@,
                final(self).tokens@,
                final(self).builder.arena@.last().children@,
                0,
                final(self).tokens@.len() as int,
            ),
    {
        self.parse_document();
    }

    /// Seal the build and hand out the finished tree.
    pub fn build(self) -> (t: SyntaxTree)
        requires
            self.wf(),
            self.builder.depth() == 0,
            self.builder.arena@.len() > 0,
            self.builder.arena@.last().kind == SyntaxKind::Document,
            self.builder.arena@.last().start == 0,
            self.builder.arena@.last().end == self.input@.len(),
        ensures
            t.wf(),
            t.arena@ == self.builder.arena@,
            t.input@ == self.input@,
    {
        self.builder.finish(self.input)
    }
}

} // verus!
