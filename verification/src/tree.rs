//! The immutable concrete syntax tree.
//!
//! Nodes live in an arena and are addressed by index; each node's children
//! are tokens and indices of earlier arena entries, so the tree is strictly
//! acyclic.  Well-formedness (`node_wf`) states the covering invariant: a
//! node's children tile its byte range in order, with no gaps and no
//! overlaps.  The text of a node is the concatenation of the input slices of
//! its token descendants, in document order; for a well-formed node this
//! reproduces exactly the input slice the node spans (`lemma_node_text_cover`).

use vstd::prelude::*;

use crate::lexer::Token;
use crate::syntax::SyntaxKind;
use crate::syntax::is_node_kind;
use crate::syntax::is_token_kind;

verus! {

/// One child of a node: a token leaf, or the arena index of a nested node.
#[derive(Clone, Copy, Debug, PartialEq, Eq, Structural)]
pub enum Element {
    Token(Token),
    Node(usize),
}

/// An arena entry: a node's tag, its byte range, and its children in order.
#[derive(Debug)]
pub struct NodeData {
    pub kind: SyntaxKind,
    pub start: usize,
    pub end: usize,
    pub children: Vec<Element>,
}

/// Where an element's byte range begins.
pub open spec fn elem_start(arena: Seq<NodeData>, e: Element) -> int {
    match e {
        Element::Token(t) => t.start as int,
        Element::Node(c) => arena[c as int].start as int,
    }
}

/// Where an element's byte range ends.
pub open spec fn elem_end(arena: Seq<NodeData>, e: Element) -> int {
    match e {
        Element::Token(t) => t.end as int,
        Element::Node(c) => arena[c as int].end as int,
    }
}

/// A well-formed child element, for a parent whose arena index is `bound`:
/// a token with a token tag and an ordered range, or the index of an
/// earlier, well-formed arena node.
pub open spec fn elem_wf(arena: Seq<NodeData>, e: Element, bound: int) -> bool
    decreases bound, 1int,
{
    match e {
        Element::Token(t) => is_token_kind(t.kind) && t.start <= t.end,
        Element::Node(c) => 0 <= c < bound && node_wf(arena, c as int),
    }
}

/// The covering invariant for a node's own record `nd`, its children being
/// allowed to reference arena entries below `bound`: the children tile
/// `[nd.start, nd.end)` in order, gapless and non-overlapping, and each is
/// itself well-formed.
pub open spec fn node_body_wf(arena: Seq<NodeData>, nd: NodeData, bound: int) -> bool
    decreases bound, 2int,
{
    let cs = nd.children@;
    &&& is_node_kind(nd.kind)
    &&& nd.start <= nd.end
    &&& (cs.len() == 0 ==> nd.start == nd.end)
    &&& (cs.len() > 0 ==> elem_start(arena, cs[0]) == nd.start && elem_end(
        arena,
        cs[cs.len() - 1],
    ) == nd.end)
    &&& (forall|j: int|
        #![trigger cs[j], cs[j + 1]]
        0 <= j < cs.len() - 1 ==> elem_end(arena, cs[j]) == elem_start(arena, cs[j + 1]))
    &&& (forall|j: int| 0 <= j < cs.len() ==> elem_wf(arena, #[trigger] cs[j], bound))
}

/// A well-formed arena node: its record satisfies the covering invariant and
/// its children only reference strictly earlier entries.
pub open spec fn node_wf(arena: Seq<NodeData>, i: int) -> bool
    decreases i, 3int,
{
    0 <= i < arena.len() && node_body_wf(arena, arena[i], i)
}

/// The text of an element: a token's slice of the input, or a node's text.
pub open spec fn elem_text(arena: Seq<NodeData>, input: Seq<u8>, e: Element, bound: int) -> Seq<u8>
    decreases bound, 1int, 0int,
{
    match e {
        Element::Token(t) => input.subrange(t.start as int, t.end as int),
        Element::Node(c) => if 0 <= c < bound {
            node_text(arena, input, c as int)
        } else {
            Seq::empty()
        },
    }
}

/// The concatenated text of a child list.
pub open spec fn children_text(
    arena: Seq<NodeData>,
    input: Seq<u8>,
    cs: Seq<Element>,
    bound: int,
) -> Seq<u8>
    decreases bound, 2int, cs.len(),
{
    if cs.len() == 0 {
        Seq::empty()
    } else {
        elem_text(arena, input, cs[0], bound) + children_text(arena, input, cs.drop_first(), bound)
    }
}

/// The text of a node: its children's text, in document order.
pub open spec fn node_text(arena: Seq<NodeData>, input: Seq<u8>, i: int) -> Seq<u8>
    decreases i, 3int, 0int,
{
    if 0 <= i < arena.len() {
        children_text(arena, input, arena[i].children@, i)
    } else {
        Seq::empty()
    }
}

/// Appending a fresh entry to the arena disturbs no existing element.
pub proof fn lemma_elem_wf_push(arena: Seq<NodeData>, nd2: NodeData, e: Element, bound: int)
    requires
        elem_wf(arena, e, bound),
        bound <= arena.len(),
    ensures
        elem_wf(arena.push(nd2), e, bound),
    decreases bound, 1int,
{
    match e {
        Element::Token(_) => {},
        Element::Node(c) => {
            lemma_node_wf_push(arena, nd2, c as int);
        },
    }
}

/// Appending a fresh entry to the arena disturbs no existing record.
pub proof fn lemma_body_wf_push(arena: Seq<NodeData>, nd2: NodeData, nd: NodeData, bound: int)
    requires
        node_body_wf(arena, nd, bound),
        bound <= arena.len(),
    ensures
        node_body_wf(arena.push(nd2), nd, bound),
    decreases bound, 2int,
{
    let arena2 = arena.push(nd2);
    let cs = nd.children@;
    assert forall|j: int| 0 <= j < cs.len() implies elem_wf(arena2, #[trigger] cs[j], bound) by {
        lemma_elem_wf_push(arena, nd2, cs[j], bound);
    }
    assert forall|j: int| 0 <= j < cs.len() implies elem_start(arena2, #[trigger] cs[j])
        == elem_start(arena, cs[j]) && elem_end(arena2, cs[j]) == elem_end(arena, cs[j]) by {
        match cs[j] {
            Element::Token(_) => {},
            Element::Node(c) => {
                assert(0 <= c < bound);
            },
        }
    }
}

/// Appending a fresh entry to the arena disturbs no existing node.
pub proof fn lemma_node_wf_push(arena: Seq<NodeData>, nd2: NodeData, i: int)
    requires
        node_wf(arena, i),
    ensures
        node_wf(arena.push(nd2), i),
    decreases i, 3int,
{
    lemma_body_wf_push(arena, nd2, arena[i], i);
}

/// A well-formed element keeps its meaning under a larger bound.
pub proof fn lemma_elem_wf_widen(arena: Seq<NodeData>, e: Element, bound: int, bound2: int)
    requires
        elem_wf(arena, e, bound),
        bound <= bound2,
    ensures
        elem_wf(arena, e, bound2),
{
}

/// A well-formed record keeps its meaning under a larger bound.
pub proof fn lemma_body_wf_widen(arena: Seq<NodeData>, nd: NodeData, bound: int, bound2: int)
    requires
        node_body_wf(arena, nd, bound),
        bound <= bound2,
    ensures
        node_body_wf(arena, nd, bound2),
{
    let cs = nd.children@;
    assert forall|j: int| 0 <= j < cs.len() implies elem_wf(arena, #[trigger] cs[j], bound2) by {
        lemma_elem_wf_widen(arena, cs[j], bound, bound2);
    }
}

/// Appending a fresh arena entry changes no existing element's text.
pub proof fn lemma_elem_text_push(
    arena: Seq<NodeData>,
    input: Seq<u8>,
    nd2: NodeData,
    e: Element,
    bound: int,
)
    requires
        0 <= bound <= arena.len(),
    ensures
        elem_text(arena.push(nd2), input, e, bound) == elem_text(arena, input, e, bound),
    decreases bound, 1int, 0int,
{
    match e {
        Element::Token(_) => {},
        Element::Node(c) => {
            if 0 <= c < bound {
                lemma_node_text_push(arena, input, nd2, c as int);
            }
        },
    }
}

/// Appending a fresh arena entry changes no existing child list's text.
pub proof fn lemma_children_text_push(
    arena: Seq<NodeData>,
    input: Seq<u8>,
    nd2: NodeData,
    cs: Seq<Element>,
    bound: int,
)
    requires
        0 <= bound <= arena.len(),
    ensures
        children_text(arena.push(nd2), input, cs, bound) == children_text(arena, input, cs, bound),
    decreases bound, 2int, cs.len(),
{
    if cs.len() > 0 {
        lemma_elem_text_push(arena, input, nd2, cs[0], bound);
        lemma_children_text_push(arena, input, nd2, cs.drop_first(), bound);
    }
}

/// Appending a fresh arena entry changes no existing node's text.
pub proof fn lemma_node_text_push(arena: Seq<NodeData>, input: Seq<u8>, nd2: NodeData, i: int)
    requires
        0 <= i < arena.len(),
    ensures
        node_text(arena.push(nd2), input, i) == node_text(arena, input, i),
    decreases i, 3int, 0int,
{
    lemma_children_text_push(arena, input, nd2, arena[i].children@, i);
}

/// Extending a child list on the right extends its text on the right.
pub proof fn lemma_children_text_snoc(
    arena: Seq<NodeData>,
    input: Seq<u8>,
    cs: Seq<Element>,
    e: Element,
    bound: int,
)
    ensures
        children_text(arena, input, cs.push(e), bound) == children_text(arena, input, cs, bound)
            + elem_text(arena, input, e, bound),
    decreases cs.len(),
{
    if cs.len() == 0 {
        assert(cs.push(e)[0] == e);
        assert(cs.push(e).drop_first() =~= Seq::<Element>::empty());
        assert(children_text(arena, input, cs.push(e).drop_first(), bound) == Seq::<u8>::empty());
        assert(children_text(arena, input, cs.push(e), bound) == elem_text(arena, input, e, bound)
            + Seq::<u8>::empty());
        assert(elem_text(arena, input, e, bound) + Seq::<u8>::empty() =~= Seq::<u8>::empty()
            + elem_text(arena, input, e, bound));
    } else {
        assert(cs.push(e)[0] == cs[0]);
        assert(cs.push(e).drop_first() =~= cs.drop_first().push(e));
        lemma_children_text_snoc(arena, input, cs.drop_first(), e, bound);
        assert(elem_text(arena, input, cs[0], bound) + (children_text(
            arena,
            input,
            cs.drop_first(),
            bound,
        ) + elem_text(arena, input, e, bound)) =~= (elem_text(arena, input, cs[0], bound)
            + children_text(arena, input, cs.drop_first(), bound)) + elem_text(
            arena,
            input,
            e,
            bound,
        ));
    }
}

/// A well-formed child list that tiles `[from, to)` has exactly the input
/// slice `[from, to)` as its text.
pub proof fn lemma_children_text_cover(
    arena: Seq<NodeData>,
    input: Seq<u8>,
    cs: Seq<Element>,
    bound: int,
    from: int,
    to: int,
)
    requires
        0 <= from <= input.len(),
        to <= input.len(),
        cs.len() == 0 ==> from == to,
        cs.len() > 0 ==> elem_start(arena, cs[0]) == from && elem_end(arena, cs[cs.len() - 1])
            == to,
        forall|j: int|
            #![trigger cs[j], cs[j + 1]]
            0 <= j < cs.len() - 1 ==> elem_end(arena, cs[j]) == elem_start(arena, cs[j + 1]),
        forall|j: int| 0 <= j < cs.len() ==> elem_wf(arena, #[trigger] cs[j], bound),
        forall|j: int|
            0 <= j < cs.len() ==> elem_start(arena, #[trigger] cs[j]) <= elem_end(arena, cs[j])
                && elem_end(arena, cs[j]) <= input.len(),
    ensures
        from <= to,
        children_text(arena, input, cs, bound) == input.subrange(from, to),
    decreases bound, 2int, cs.len(),
{
    if cs.len() == 0 {
        assert(children_text(arena, input, cs, bound) =~= input.subrange(from, to));
    } else {
        let mid = elem_end(arena, cs[0]);
        assert(elem_text(arena, input, cs[0], bound) == input.subrange(from, mid)) by {
            match cs[0] {
                Element::Token(_) => {},
                Element::Node(c) => {
                    lemma_node_text_cover_inner(arena, input, c as int, bound);
                },
            }
        }
        let rest = cs.drop_first();
        assert forall|j: int| 0 <= j < rest.len() - 1 implies elem_end(arena, #[trigger] rest[j])
            == elem_start(arena, rest[j + 1]) by {
            assert(rest[j] == cs[j + 1]);
            assert(rest[j + 1] == cs[j + 2]);
        }
        assert forall|j: int| 0 <= j < rest.len() implies elem_wf(arena, #[trigger] rest[j], bound)
            && elem_start(arena, rest[j]) <= elem_end(arena, rest[j]) && elem_end(arena, rest[j])
            <= input.len() by {
            assert(rest[j] == cs[j + 1]);
        }
        if rest.len() > 0 {
            assert(rest[0] == cs[1]);
            assert(rest[rest.len() - 1] == cs[cs.len() - 1]);
        }
        lemma_children_text_cover(arena, input, rest, bound, mid, to);
        assert(input.subrange(from, mid) + input.subrange(mid, to) =~= input.subrange(from, to));
    }
}

proof fn lemma_node_text_cover_inner(arena: Seq<NodeData>, input: Seq<u8>, i: int, bound: int)
    requires
        node_wf(arena, i),
        0 <= i < bound,
        arena[i].start <= arena[i].end <= input.len(),
    ensures
        node_text(arena, input, i) == input.subrange(arena[i].start as int, arena[i].end as int),
    decreases bound, 1int, 0int,
{
    let nd = arena[i];
    let cs = nd.children@;
    assert forall|j: int| 0 <= j < cs.len() implies elem_start(arena, #[trigger] cs[j])
        <= elem_end(arena, cs[j]) && elem_end(arena, cs[j]) <= input.len() by {
        lemma_child_in_span(arena, i, j);
        match cs[j] {
            Element::Token(_) => {},
            Element::Node(_) => {},
        }
    }
    lemma_children_text_cover(arena, input, cs, i, nd.start as int, nd.end as int);
}

/// Each child of a well-formed node has an ordered range lying inside the
/// parent's range.
pub proof fn lemma_child_in_span(arena: Seq<NodeData>, i: int, j: int)
    requires
        node_wf(arena, i),
        0 <= j < arena[i].children@.len(),
    ensures
        arena[i].start <= elem_start(arena, arena[i].children@[j]),
        elem_start(arena, arena[i].children@[j]) <= elem_end(arena, arena[i].children@[j]),
        elem_end(arena, arena[i].children@[j]) <= arena[i].end,
{
    let cs = arena[i].children@;
    assert forall|k: int| 0 <= k < cs.len() implies elem_start(arena, #[trigger] cs[k]) <= elem_end(
        arena,
        cs[k],
    ) by {
        assert(elem_wf(arena, cs[k], i));
        match cs[k] {
            Element::Token(_) => {},
            Element::Node(_) => {},
        }
    }
    lemma_chain_bounds(arena, cs, j);
    lemma_chain_bounds_upper(arena, cs, j);
}

proof fn lemma_chain_bounds(arena: Seq<NodeData>, cs: Seq<Element>, j: int)
    requires
        0 <= j < cs.len(),
        forall|k: int|
            #![trigger cs[k], cs[k + 1]]
            0 <= k < cs.len() - 1 ==> elem_end(arena, cs[k]) == elem_start(arena, cs[k + 1]),
        forall|k: int|
            0 <= k < cs.len() ==> elem_start(arena, #[trigger] cs[k]) <= elem_end(arena, cs[k]),
    ensures
        elem_start(arena, cs[0]) <= elem_start(arena, cs[j]),
    decreases j,
{
    if j > 0 {
        lemma_chain_bounds(arena, cs, j - 1);
        assert(elem_end(arena, cs[j - 1]) == elem_start(arena, cs[(j - 1) + 1]));
    }
}

proof fn lemma_chain_bounds_upper(arena: Seq<NodeData>, cs: Seq<Element>, j: int)
    requires
        0 <= j < cs.len(),
        forall|k: int|
            #![trigger cs[k], cs[k + 1]]
            0 <= k < cs.len() - 1 ==> elem_end(arena, cs[k]) == elem_start(arena, cs[k + 1]),
        forall|k: int|
            0 <= k < cs.len() ==> elem_start(arena, #[trigger] cs[k]) <= elem_end(arena, cs[k]),
    ensures
        elem_end(arena, cs[j]) <= elem_end(arena, cs[cs.len() - 1]),
    decreases cs.len() - j,
{
    if j < cs.len() - 1 {
        lemma_chain_bounds_upper(arena, cs, j + 1);
        assert(elem_end(arena, cs[j]) == elem_start(arena, cs[j + 1]));
    }
}

/// A well-formed node's text is exactly the input slice its range spans.
pub proof fn lemma_node_text_cover(arena: Seq<NodeData>, input: Seq<u8>, i: int)
    requires
        node_wf(arena, i),
        arena[i].end <= input.len(),
    ensures
        node_text(arena, input, i) == input.subrange(arena[i].start as int, arena[i].end as int),
{
    lemma_node_text_cover_inner(arena, input, i, i + 1);
}


/// The pre-order listing of an element's subtree: nothing for a token, the
/// node's own pre-order for a child node.
pub open spec fn elem_preorder(arena: Seq<NodeData>, e: Element, bound: int) -> Seq<usize>
    decreases bound, 1int, 0int,
{
    match e {
        Element::Token(_) => Seq::empty(),
        Element::Node(c) => if 0 <= c < bound {
            preorder(arena, c as int)
        } else {
            Seq::empty()
        },
    }
}

/// The pre-order listing of a child list's subtrees, left to right.
pub open spec fn children_preorder(
    arena: Seq<NodeData>,
    cs: Seq<Element>,
    bound: int,
) -> Seq<usize>
    decreases bound, 2int, cs.len(),
{
    if cs.len() == 0 {
        Seq::empty()
    } else {
        elem_preorder(arena, cs[0], bound) + children_preorder(
            arena,
            cs.drop_first(),
            bound,
        )
    }
}

/// The pre-order listing of a node's subtree: the node itself, then each
/// child's subtree in order.
pub open spec fn preorder(arena: Seq<NodeData>, i: int) -> Seq<usize>
    decreases i, 3int, 0int,
{
    if 0 <= i < arena.len() {
        seq![i as usize] + children_preorder(arena, arena[i].children@, i)
    } else {
        Seq::empty()
    }
}

/// Extending a child list on the right extends its pre-order on the right.
pub proof fn lemma_children_preorder_snoc(
    arena: Seq<NodeData>,
    cs: Seq<Element>,
    e: Element,
    bound: int,
)
    ensures
        children_preorder(arena, cs.push(e), bound) == children_preorder(arena, cs, bound)
            + elem_preorder(arena, e, bound),
    decreases cs.len(),
{
    if cs.len() == 0 {
        assert(cs.push(e)[0] == e);
        assert(cs.push(e).drop_first() =~= Seq::<Element>::empty());
        assert(children_preorder(arena, cs.push(e).drop_first(), bound) == Seq::<usize>::empty());
        assert(children_preorder(arena, cs.push(e), bound) == elem_preorder(arena, e, bound)
            + Seq::<usize>::empty());
        assert(elem_preorder(arena, e, bound) + Seq::<usize>::empty() =~= Seq::<usize>::empty()
            + elem_preorder(arena, e, bound));
    } else {
        assert(cs.push(e)[0] == cs[0]);
        assert(cs.push(e).drop_first() =~= cs.drop_first().push(e));
        lemma_children_preorder_snoc(arena, cs.drop_first(), e, bound);
        assert(elem_preorder(arena, cs[0], bound) + (children_preorder(
            arena,
            cs.drop_first(),
            bound,
        ) + elem_preorder(arena, e, bound)) =~= (elem_preorder(arena, cs[0], bound)
            + children_preorder(arena, cs.drop_first(), bound)) + elem_preorder(arena, e, bound));
    }
}

/// True when node `p` has the node `c` among its direct children.
pub open spec fn has_child_node(arena: Seq<NodeData>, p: int, c: usize) -> bool {
    exists|j: int|
        0 <= j < arena[p].children@.len() && arena[p].children@[j] == Element::Node(c)
}

/// The finished, immutable syntax tree: the node arena plus the input it was
/// parsed from.  The root is the last arena entry; children always have
/// smaller indices than their parent, so arena order lists children first.
pub struct SyntaxTree {
    pub arena: Vec<NodeData>,
    pub input: Vec<u8>,
}

impl SyntaxTree {
    /// Index of the root (Document) node.
    pub open spec fn spec_root(&self) -> int {
        self.arena@.len() - 1
    }

    /// Well-formedness: every node satisfies the covering invariant, every
    /// range lies inside the input, and the root is a Document spanning the
    /// whole input.
    pub open spec fn wf(&self) -> bool {
        &&& self.arena@.len() > 0
        &&& (forall|i: int| 0 <= i < self.arena@.len() ==> node_wf(self.arena@, i))
        &&& (forall|i: int|
            0 <= i < self.arena@.len() ==> (#[trigger] self.arena@[i]).end <= self.input@.len())
        &&& self.arena@.last().kind == SyntaxKind::Document
        &&& self.arena@.last().start == 0
        &&& self.arena@.last().end == self.input@.len()
    }

    /// The text a node spans, as a byte sequence.
    pub open spec fn text_at(&self, i: int) -> Seq<u8> {
        node_text(self.arena@, self.input@, i)
    }

    /// Number of nodes in the tree.
    pub fn node_count(&self) -> (r: usize)
        ensures
            r == self.arena@.len(),
    {
        self.arena.len()
    }

    /// Index of the root node.
    pub fn root(&self) -> (r: usize)
        requires
            self.wf(),
        ensures
            r == self.spec_root(),
    {
        self.arena.len() - 1
    }

    /// The tag of a node.
    pub fn kind_of(&self, node: usize) -> (r: SyntaxKind)
        requires
            node < self.arena@.len(),
        ensures
            r == self.arena@[node as int].kind,
    {
        self.arena[node].kind
    }

    /// The byte range a node spans, as `(start, end)`.
    pub fn range_of(&self, node: usize) -> (r: (usize, usize))
        requires
            node < self.arena@.len(),
        ensures
            r.0 == self.arena@[node as int].start,
            r.1 == self.arena@[node as int].end,
    {
        (self.arena[node].start, self.arena[node].end)
    }

    /// Number of direct children of a node.
    pub fn child_count(&self, node: usize) -> (r: usize)
        requires
            node < self.arena@.len(),
        ensures
            r == self.arena@[node as int].children@.len(),
    {
        self.arena[node].children.len()
    }

    /// The `j`-th direct child of a node.
    pub fn child(&self, node: usize, j: usize) -> (r: Element)
        requires
            node < self.arena@.len(),
            j < self.arena@[node as int].children@.len(),
        ensures
            r == self.arena@[node as int].children@[j as int],
    {
        self.arena[node].children[j]
    }

    /// The parent of a node: the lowest-indexed node having it as a direct
    /// child, or `None` (in a well-formed tree, only for the root).
    pub fn parent_of(&self, node: usize) -> (r: Option<usize>)
        ensures
            match r {
                Some(p) => p < self.arena@.len() && has_child_node(self.arena@, p as int, node) && (
                forall|q: int| 0 <= q < p ==> !has_child_node(self.arena@, q, node)),
                None => forall|q: int|
                    0 <= q < self.arena@.len() ==> !has_child_node(self.arena@, q, node),
            },
    {
        let mut p: usize = 0;
        while p < self.arena.len()
            invariant
                p <= self.arena@.len(),
                forall|q: int| 0 <= q < p ==> !has_child_node(self.arena@, q, node),
            decreases self.arena@.len() - p,
        {
            let n = self.arena[p].children.len();
            let mut j: usize = 0;
            while j < n
                invariant
                    p < self.arena@.len(),
                    n == self.arena@[p as int].children@.len(),
                    j <= n,
                    forall|q: int| 0 <= q < p ==> !has_child_node(self.arena@, q, node),
                    forall|k: int|
                        0 <= k < j ==> self.arena@[p as int].children@[k] != Element::Node(node),
                decreases n - j,
            {
                match self.arena[p].children[j] {
                    Element::Node(c) => {
                        if c == node {
                            proof {
                                assert(self.arena@[p as int].children@[j as int] == Element::Node(
                                    node,
                                ));
                            }
                            return Some(p);
                        }
                    },
                    Element::Token(_) => {},
                }
                j = j + 1;
            }
            assert(!has_child_node(self.arena@, p as int, node));
            p = p + 1;
        }
        None
    }


    /// All nodes of the subtree rooted at `node`, in pre-order: the node
    /// itself first, then each child's subtree left to right.
    pub fn descendants(&self, node: usize) -> (r: Vec<usize>)
        requires
            self.wf(),
            node < self.arena@.len(),
        ensures
            r@ == preorder(self.arena@, node as int),
        decreases node,
    {
        let mut acc: Vec<usize> = Vec::new();
        acc.push(node);
        let n = self.arena[node].children.len();
        let ghost cs = self.arena@[node as int].children@;
        let mut j: usize = 0;
        while j < n
            invariant
                self.wf(),
                node < self.arena@.len(),
                cs == self.arena@[node as int].children@,
                n == cs.len(),
                j <= n,
                acc@ == seq![node] + children_preorder(self.arena@, cs.take(j as int), node as int),
            decreases n - j,
        {
            let ghost prev = acc@;
            match self.arena[node].children[j] {
                Element::Token(_) => {},
                Element::Node(c) => {
                    proof {
                        assert(node_wf(self.arena@, node as int));
                        assert(node_body_wf(self.arena@, self.arena@[node as int], node as int));
                        assert(elem_wf(self.arena@, cs[j as int], node as int));
                    }
                    let mut sub = self.descendants(c);
                    acc.append(&mut sub);
                },
            }
            proof {
                assert(cs.take(j + 1) =~= cs.take(j as int).push(cs[j as int]));
                lemma_children_preorder_snoc(self.arena@, cs.take(j as int), cs[j as int], node as int);
                assert(acc@ =~= seq![node] + children_preorder(
                    self.arena@,
                    cs.take(j + 1),
                    node as int,
                ));
            }
            j = j + 1;
        }
        proof {
            assert(cs.take(n as int) =~= cs);
        }
        acc
    }

    /// The text a node spans: the concatenation, in document order, of the
    /// input slices of all its token descendants.
    pub fn text_of(&self, node: usize) -> (r: Vec<u8>)
        requires
            self.wf(),
            node < self.arena@.len(),
        ensures
            r@ == self.text_at(node as int),
        decreases node,
    {
        let mut acc: Vec<u8> = Vec::new();
        let n = self.arena[node].children.len();
        let ghost cs = self.arena@[node as int].children@;
        let mut j: usize = 0;
        while j < n
            invariant
                self.wf(),
                node < self.arena@.len(),
                cs == self.arena@[node as int].children@,
                n == cs.len(),
                j <= n,
                acc@ == children_text(self.arena@, self.input@, cs.take(j as int), node as int),
            decreases n - j,
        {
            let ghost prev = acc@;
            match self.arena[node].children[j] {
                Element::Token(t) => {
                    proof {
                        assert(node_wf(self.arena@, node as int));
                        assert(node_body_wf(self.arena@, self.arena@[node as int], node as int));
                        assert(elem_wf(self.arena@, cs[j as int], node as int));
                        lemma_child_in_span(self.arena@, node as int, j as int);
                    }
                    let mut k = t.start;
                    while k < t.end
                        invariant
                            self.wf(),
                            t.start <= k <= t.end <= self.input@.len(),
                            acc@ == prev + self.input@.subrange(t.start as int, k as int),
                        decreases t.end - k,
                    {
                        acc.push(self.input[k]);
                        proof {
                            assert(prev + self.input@.subrange(t.start as int, k + 1) =~= (prev
                                + self.input@.subrange(t.start as int, k as int)).push(
                                self.input@[k as int],
                            ));
                        }
                        k = k + 1;
                    }
                },
                Element::Node(c) => {
                    proof {
                        assert(node_wf(self.arena@, node as int));
                        assert(node_body_wf(self.arena@, self.arena@[node as int], node as int));
                        assert(elem_wf(self.arena@, cs[j as int], node as int));
                    }
                    let mut sub = self.text_of(c);
                    acc.append(&mut sub);
                },
            }
            proof {
                assert(cs.take(j + 1) =~= cs.take(j as int).push(cs[j as int]));
                lemma_children_text_snoc(
                    self.arena@,
                    self.input@,
                    cs.take(j as int),
                    cs[j as int],
                    node as int,
                );
            }
            j = j + 1;
        }
        proof {
            assert(cs.take(n as int) =~= cs);
        }
        acc
    }
}

} // verus!
