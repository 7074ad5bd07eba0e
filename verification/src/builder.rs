//! Stack-discipline tree construction.
//!
//! The parser opens a node (push), attaches the current token to the node at
//! the top of the stack, and closes the current node (pop, append it to the
//! arena, and record its index as a child of the new top).  The builder's
//! invariant keeps every finished arena node and every open node well formed:
//! each open node's children tile `[start, end)`, consecutive open nodes
//! meet end-to-start, and the construction position `cur` is the top's end.

use vstd::prelude::*;

use crate::lexer::Token;
use crate::syntax::SyntaxKind;
use crate::syntax::is_node_kind;
use crate::syntax::is_token_kind;
use crate::tree::Element;
use crate::tree::NodeData;
use crate::tree::SyntaxTree;
use crate::tree::elem_end;
use crate::tree::elem_start;
use crate::tree::elem_wf;
use crate::tree::lemma_body_wf_push;
use crate::tree::lemma_body_wf_widen;
use crate::tree::lemma_node_wf_push;
use crate::tree::node_body_wf;
use crate::tree::node_wf;

verus! {

/// Builder state: finished nodes in the arena, open nodes on the stack.
pub struct TreeBuilder {
    pub arena: Vec<NodeData>,
    pub stack: Vec<NodeData>,
}

impl TreeBuilder {
    /// Number of open nodes.
    pub open spec fn depth(&self) -> int {
        self.stack@.len() as int
    }

    /// The open node the next token will be attached to.
    pub open spec fn top(&self) -> NodeData {
        self.stack@.last()
    }

    /// The current construction position: the end of the top open node, or
    /// of the last finished node once the stack is empty.
    pub open spec fn cur(&self) -> int {
        if self.stack@.len() > 0 {
            self.stack@.last().end as int
        } else if self.arena@.len() > 0 {
            self.arena@.last().end as int
        } else {
            0
        }
    }

    /// The builder invariant.
    pub open spec fn wf(&self) -> bool {
        &&& (forall|i: int| 0 <= i < self.arena@.len() ==> node_wf(self.arena@, i))
        &&& (forall|j: int|
            0 <= j < self.stack@.len() ==> node_body_wf(
                self.arena@,
                #[trigger] self.stack@[j],
                self.arena@.len() as int,
            ))
        &&& (forall|j: int|
            #![trigger self.stack@[j], self.stack@[j + 1]]
            0 <= j < self.stack@.len() - 1 ==> self.stack@[j].end == self.stack@[j + 1].start)
    }

    /// An empty builder.
    pub fn new() -> (b: TreeBuilder)
        ensures
            b.wf(),
            b.arena@.len() == 0,
            b.stack@.len() == 0,
            b.cur() == 0,
    {
        TreeBuilder { arena: Vec::new(), stack: Vec::new() }
    }

    /// Open a node of the given kind at the current position.
    pub fn start_node(&mut self, kind: SyntaxKind)
        requires
            old(self).wf(),
            is_node_kind(kind),
            old(self).cur() <= usize::MAX,
        ensures
            final(self).wf(),
            final(self).arena == old(self).arena,
            final(self).stack@.len() == old(self).stack@.len() + 1,
            forall|j: int|
                0 <= j < old(self).stack@.len() ==> final(self).stack@[j] == old(self).stack@[j],
            final(self).top().kind == kind,
            final(self).top().start == old(self).cur(),
            final(self).top().end == old(self).cur(),
            final(self).top().children@.len() == 0,
            final(self).cur() == old(self).cur(),
    {
        let pos = self.cur_pos();
        let nd = NodeData { kind, start: pos, end: pos, children: Vec::new() };
        self.stack.push(nd);
    }

    /// The current position, as a machine integer.
    fn cur_pos(&self) -> (r: usize)
        ensures
            r == self.cur(),
    {
        if self.stack.len() > 0 {
            self.stack[self.stack.len() - 1].end
        } else if self.arena.len() > 0 {
            self.arena[self.arena.len() - 1].end
        } else {
            0
        }
    }

    /// Attach a token to the top open node.  The token must begin exactly at
    /// the current position: attachment keeps the tiling gap-free.
    #[verifier::rlimit(50)]
    pub fn token(&mut self, t: Token)
        requires
            old(self).wf(),
            old(self).depth() > 0,
            is_token_kind(t.kind),
            t.start <= t.end,
            t.start == old(self).cur(),
        ensures
            final(self).wf(),
            final(self).arena == old(self).arena,
            final(self).stack@.len() == old(self).stack@.len(),
            forall|j: int|
                0 <= j < old(self).stack@.len() - 1 ==> final(self).stack@[j] == old(
                    self,
                ).stack@[j],
            final(self).top().kind == old(self).top().kind,
            final(self).top().start == old(self).top().start,
            final(self).top().children@ == old(self).top().children@.push(Element::Token(t)),
            final(self).top().end == t.end,
            final(self).cur() == t.end,
    {
        let mut top = self.stack.pop().unwrap();
        top.children.push(Element::Token(t));
        top.end = t.end;
        self.stack.push(top);
        proof {
            let a = self.arena@;
            let nd = self.stack@.last();
            let cs = nd.children@;
            let old_cs = old(self).top().children@;
            assert(cs == old_cs.push(Element::Token(t)));
            assert forall|j: int| 0 <= j < cs.len() implies elem_wf(a, #[trigger] cs[j], a.len() as int) by {
                if j < old_cs.len() {
                    assert(cs[j] == old_cs[j]);
                    assert(node_body_wf(a, old(self).top(), a.len() as int));
                } else {
                    assert(cs[j] == Element::Token(t));
                }
            }
            assert forall|j: int| 0 <= j < cs.len() - 1 implies elem_end(a, #[trigger] cs[j])
                == elem_start(a, cs[j + 1]) by {
                assert(node_body_wf(a, old(self).top(), a.len() as int));
                if j < old_cs.len() - 1 {
                    assert(cs[j] == old_cs[j]);
                    assert(cs[j + 1] == old_cs[j + 1]);
                } else {
                    assert(j == old_cs.len() - 1);
                    assert(cs[j] == old_cs[j]);
                    assert(cs[j + 1] == Element::Token(t));
                }
            }
            assert(node_body_wf(a, nd, a.len() as int));
            assert forall|j: int| 0 <= j < self.stack@.len() implies node_body_wf(
                a,
                #[trigger] self.stack@[j],
                a.len() as int,
            ) by {
                if j < self.stack@.len() - 1 {
                    assert(self.stack@[j] == old(self).stack@[j]);
                }
            }
        }
    }

    /// Close the top open node: append it to the arena and, if an enclosing
    /// node remains open, record its index there as a child.
    #[verifier::rlimit(100)]
    pub fn finish_node(&mut self)
        requires
            old(self).wf(),
            old(self).depth() > 0,
        ensures
            final(self).wf(),
            final(self).arena@ == old(self).arena@.push(old(self).top()),
            node_wf(final(self).arena@, old(self).arena@.len() as int),
            final(self).stack@.len() == old(self).stack@.len() - 1,
            final(self).cur() == old(self).cur(),
            old(self).depth() > 1 ==> {
                &&& (forall|j: int|
                    0 <= j < old(self).stack@.len() - 2 ==> final(self).stack@[j] == old(
                        self,
                    ).stack@[j])
                &&& final(self).top().kind == old(self).stack@[old(self).stack@.len() - 2].kind
                &&& final(self).top().start == old(self).stack@[old(self).stack@.len() - 2].start
                &&& final(self).top().children@ == old(self).stack@[old(self).stack@.len()
                    - 2].children@.push(Element::Node(old(self).arena@.len() as usize))
                &&& final(self).top().end == old(self).top().end
            },
    {
        let nd = self.stack.pop().unwrap();
        let idx = self.arena.len();
        let ghost old_arena = self.arena@;
        let ghost popped = nd;
        proof {
            assert(node_body_wf(old_arena, popped, old_arena.len() as int));
        }
        let nd_end = nd.end;
        let nd_start = nd.start;
        self.arena.push(nd);
        proof {
            let a2 = self.arena@;
            assert(a2 == old_arena.push(popped));
            lemma_body_wf_push(old_arena, popped, popped, old_arena.len() as int);
            assert(node_wf(a2, old_arena.len() as int));
            assert forall|i: int| 0 <= i < a2.len() implies node_wf(a2, i) by {
                if i < old_arena.len() {
                    lemma_node_wf_push(old_arena, popped, i);
                }
            }
            assert forall|j: int| 0 <= j < self.stack@.len() implies node_body_wf(
                a2,
                #[trigger] self.stack@[j],
                a2.len() as int,
            ) by {
                assert(self.stack@[j] == old(self).stack@[j]);
                assert(node_body_wf(old_arena, self.stack@[j], old_arena.len() as int));
                lemma_body_wf_push(old_arena, popped, self.stack@[j], old_arena.len() as int);
                lemma_body_wf_widen(a2, self.stack@[j], old_arena.len() as int, a2.len() as int);
            }
        }
        if self.stack.len() > 0 {
            let ghost mid = self;
            let mut parent = self.stack.pop().unwrap();
            let ghost old_parent = parent;
            parent.children.push(Element::Node(idx));
            parent.end = nd_end;
            self.stack.push(parent);
            proof {
                let a2 = self.arena@;
                let nd2 = self.stack@.last();
                let cs = nd2.children@;
                let old_cs = old_parent.children@;
                assert(cs == old_cs.push(Element::Node(idx)));
                assert(node_body_wf(a2, old_parent, a2.len() as int)) by {
                    assert(old_parent == old(self).stack@[old(self).stack@.len() - 2]);
                    assert(node_body_wf(old_arena, old_parent, old_arena.len() as int));
                    lemma_body_wf_push(old_arena, popped, old_parent, old_arena.len() as int);
                    lemma_body_wf_widen(a2, old_parent, old_arena.len() as int, a2.len() as int);
                }
                // The closed node begins exactly where the parent's tiling
                // left off, so the parent's children still tile its range.
                assert(old_parent.end == popped.start);
                assert(a2[idx as int] == popped);
                assert(elem_start(a2, Element::Node(idx)) == popped.start);
                assert(elem_end(a2, Element::Node(idx)) == popped.end);
                assert forall|j: int| 0 <= j < cs.len() implies elem_wf(a2, #[trigger] cs[j], a2.len() as int) by {
                    if j < old_cs.len() {
                        assert(cs[j] == old_cs[j]);
                    } else {
                        assert(cs[j] == Element::Node(idx));
                        assert(node_wf(a2, idx as int));
                    }
                }
                assert forall|j: int| 0 <= j < cs.len() - 1 implies elem_end(a2, #[trigger] cs[j])
                    == elem_start(a2, cs[j + 1]) by {
                    if j < old_cs.len() - 1 {
                        assert(cs[j] == old_cs[j]);
                        assert(cs[j + 1] == old_cs[j + 1]);
                    } else {
                        assert(j == old_cs.len() - 1);
                        assert(cs[j] == old_cs[j]);
                        assert(cs[j + 1] == Element::Node(idx));
                    }
                }
                assert(node_body_wf(a2, nd2, a2.len() as int));
                assert forall|jj: int| 0 <= jj < self.stack@.len() implies node_body_wf(
                    a2,
                    #[trigger] self.stack@[jj],
                    a2.len() as int,
                ) by {
                    if jj < self.stack@.len() - 1 {
                        assert(self.stack@[jj] == old(self).stack@[jj]);
                        assert(node_body_wf(old_arena, self.stack@[jj], old_arena.len() as int));
                        lemma_body_wf_push(
                            old_arena,
                            popped,
                            self.stack@[jj],
                            old_arena.len() as int,
                        );
                        lemma_body_wf_widen(
                            a2,
                            self.stack@[jj],
                            old_arena.len() as int,
                            a2.len() as int,
                        );
                    }
                }
            }
        }
    }

    /// Seal the build: the arena's last entry is the root of the finished
    /// tree over `input`.
    pub fn finish(self, input: Vec<u8>) -> (t: SyntaxTree)
        requires
            self.wf(),
            self.stack@.len() == 0,
            self.arena@.len() > 0,
            forall|i: int| 0 <= i < self.arena@.len() ==> (#[trigger] self.arena@[i]).end
                <= input@.len(),
            self.arena@.last().kind == SyntaxKind::Document,
            self.arena@.last().start == 0,
            self.arena@.last().end == input@.len(),
        ensures
            t.wf(),
            t.arena@ == self.arena@,
            t.input@ == input@,
    {
        SyntaxTree { arena: self.arena, input }
    }
}

} // verus!
