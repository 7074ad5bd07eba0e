//! Lossless parsing core for a small markup language.
//!
//! The pipeline is: text -> `lexer::Lexer` (tokens) -> `parser::Parser`
//! (driving `builder::TreeBuilder`) -> `tree::SyntaxTree` -> typed views in
//! `ast`.  The tree keeps every byte of the source: concatenating the text of
//! its tokens in document order reproduces the input exactly, and every
//! node's children tile the node's byte range with no gaps or overlaps.

use vstd::prelude::*;
use vstd::string::StringSliceAdditionalSpecFns;

pub mod ast;
pub mod builder;
pub mod lexer;
pub mod parser;
pub mod syntax;
pub mod tree;

use crate::lexer::Lexer;
use crate::parser::Parser;
use crate::lexer::spec_tokenize;
use crate::parser::block_elem;
use crate::parser::doc_prefix_ok;
use crate::parser::grammar_wf;
use crate::tree::SyntaxTree;
use crate::tree::lemma_node_text_cover;

verus! {

/// Parse `input` into a lossless syntax tree.
///
/// Parsing never fails: every input, including the empty one and malformed
/// fragments, yields a well-formed Document.  The contract fixes the result
/// completely: the root Document spans exactly `[0, input length)` and
/// every node's children tile their parent (`t.wf()`); the concatenated
/// token text of the whole tree reproduces the input byte-for-byte; and
/// the Document's children are exactly the block segmentation of the token
/// sequence (`doc_prefix_ok`) — each block node's extent and children,
/// down to the single-token Error recovery, are pinned per position.
pub fn parse(input: &str) -> (t: SyntaxTree)
    ensures
        t.wf(),
        t.input@ == input.spec_bytes(),
        t.text_at(t.spec_root()) == input.spec_bytes(),
        forall|j: int|
            0 <= j < t.arena@.last().children@.len() ==> block_elem(
                t.arena@,
                #[trigger] t.arena@.last().children@[j],
            ),
        input.spec_bytes().len() == 0 ==> t.arena@.last().children@.len() == 0,
        grammar_wf(t.arena@),
        doc_prefix_ok(
            t.arena@,
            spec_tokenize(input.spec_bytes(), 0),
            t.arena@.last().children@,
            0,
            spec_tokenize(input.spec_bytes(), 0).len() as int,
        ),
{
    let mut lexer = Lexer::new(input);
    let tokens = lexer.tokenize();
    let mut parser = Parser::new(input, &tokens);
    parser.parse();
    let t = parser.build();
    proof {
        lemma_node_text_cover(t.arena@, t.input@, t.spec_root());
        assert(t.input@.subrange(0, t.input@.len() as int) =~= t.input@);
    }
    t
}

} // verus!

