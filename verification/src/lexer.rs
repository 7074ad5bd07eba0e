//! Tokenizer: turns the input bytes into an ordered, gap-free, overlap-free
//! sequence of tokens, each tagged with a kind and a byte range.
//!
//! The dispatch is per leading byte: the punctuation bytes and the newline
//! each form a single-byte token; a space or tab starts a maximal whitespace
//! run; anything else starts a maximal text run up to the next special byte.
//! Multi-byte UTF-8 sequences consist of non-special bytes only, so byte-wise
//! scanning never splits a scalar value across two tokens of different kinds.

use vstd::prelude::*;
use vstd::string::StringSliceAdditionalSpecFns;

use crate::syntax::SyntaxKind;
use crate::syntax::is_token_kind;

verus! {

/// A terminal leaf: a kind together with a half-open byte range of the input.
#[derive(Clone, Copy, Debug, PartialEq, Eq, Structural)]
pub struct Token {
    pub kind: SyntaxKind,
    pub start: usize,
    pub end: usize,
}

/// The special bytes: each either forms a single-byte token or bounds a run.
pub open spec fn is_special_byte(c: u8) -> bool {
    c == 35  // '#'
     || c == 45  // '-'
     || c == 42  // '*'
     || c == 96  // '`'
     || c == 91  // '['
     || c == 93  // ']'
     || c == 40  // '('
     || c == 41  // ')'
     || c == 10  // '\n'
     || c == 32  // ' '
     || c == 9  // '\t'

}

/// Token kind chosen by the first byte of the token.
pub open spec fn byte_kind(c: u8) -> SyntaxKind {
    if c == 35 {
        SyntaxKind::Hash
    } else if c == 45 {
        SyntaxKind::Dash
    } else if c == 42 {
        SyntaxKind::Star
    } else if c == 96 {
        SyntaxKind::Backtick
    } else if c == 91 {
        SyntaxKind::LBracket
    } else if c == 93 {
        SyntaxKind::RBracket
    } else if c == 40 {
        SyntaxKind::LParen
    } else if c == 41 {
        SyntaxKind::RParen
    } else if c == 10 {
        SyntaxKind::NewLine
    } else if c == 32 || c == 9 {
        SyntaxKind::Whitespace
    } else {
        SyntaxKind::Text
    }
}

/// End of the maximal run of spaces and tabs starting at `pos`.
pub open spec fn whitespace_run_end(input: Seq<u8>, pos: int) -> int
    decreases input.len() - pos,
{
    if pos < 0 || pos >= input.len() {
        pos
    } else if input[pos] == 32 || input[pos] == 9 {
        whitespace_run_end(input, pos + 1)
    } else {
        pos
    }
}

/// End of the maximal run of non-special bytes starting at `pos`.
pub open spec fn text_run_end(input: Seq<u8>, pos: int) -> int
    decreases input.len() - pos,
{
    if pos < 0 || pos >= input.len() {
        pos
    } else if !is_special_byte(input[pos]) {
        text_run_end(input, pos + 1)
    } else {
        pos
    }
}

/// End of the token starting at `pos` (meaningful for `0 <= pos < len`).
pub open spec fn spec_token_end(input: Seq<u8>, pos: int) -> int {
    let c = input[pos];
    if c == 32 || c == 9 {
        whitespace_run_end(input, pos)
    } else if is_special_byte(c) {
        pos + 1
    } else {
        text_run_end(input, pos)
    }
}

pub proof fn lemma_whitespace_run_end_bounds(input: Seq<u8>, pos: int)
    requires
        0 <= pos <= input.len(),
    ensures
        pos <= whitespace_run_end(input, pos) <= input.len(),
    decreases input.len() - pos,
{
    if pos < input.len() && (input[pos] == 32 || input[pos] == 9) {
        lemma_whitespace_run_end_bounds(input, pos + 1);
    }
}

pub proof fn lemma_text_run_end_bounds(input: Seq<u8>, pos: int)
    requires
        0 <= pos <= input.len(),
    ensures
        pos <= text_run_end(input, pos) <= input.len(),
    decreases input.len() - pos,
{
    if pos < input.len() && !is_special_byte(input[pos]) {
        lemma_text_run_end_bounds(input, pos + 1);
    }
}

/// The token starting at `pos` is never empty and stays inside the input.
pub proof fn lemma_token_end_bounds(input: Seq<u8>, pos: int)
    requires
        0 <= pos < input.len(),
    ensures
        pos < spec_token_end(input, pos) <= input.len(),
{
    let c = input[pos];
    if c == 32 || c == 9 {
        lemma_whitespace_run_end_bounds(input, pos + 1);
    } else if is_special_byte(c) {
    } else {
        lemma_text_run_end_bounds(input, pos + 1);
    }
}

/// The token sequence for the input suffix starting at `pos`.
pub open spec fn spec_tokenize(input: Seq<u8>, pos: int) -> Seq<Token>
    decreases input.len() - pos,
        when 0 <= pos
    via spec_tokenize_decreases
{
    if pos >= input.len() {
        Seq::empty()
    } else {
        let end = spec_token_end(input, pos);
        seq![Token { kind: byte_kind(input[pos]), start: pos as usize, end: end as usize }]
            + spec_tokenize(input, end)
    }
}

#[via_fn]
proof fn spec_tokenize_decreases(input: Seq<u8>, pos: int) {
    if 0 <= pos < input.len() {
        lemma_token_end_bounds(input, pos);
    }
}

/// The tokens of a suffix tile `[pos, len)`: the first starts at `pos`, each
/// ends where the next starts, the last ends at the input's end, every range
/// is non-empty, and each kind is the one its first byte dictates.
pub proof fn lemma_tokenize_props(input: Seq<u8>, pos: int)
    requires
        0 <= pos <= input.len() <= usize::MAX,
    ensures
        ({
            let ts = spec_tokenize(input, pos);
            &&& (pos == input.len() ==> ts.len() == 0)
            &&& (pos < input.len() ==> ts.len() > 0)
            &&& (ts.len() > 0 ==> ts[0].start == pos && ts[ts.len() - 1].end == input.len())
            &&& (forall|j: int|
                0 <= j < ts.len() ==> pos <= (#[trigger] ts[j]).start < ts[j].end <= input.len())
            &&& (forall|j: int| 0 <= j < ts.len() - 1 ==> ts[j].end == ts[j + 1].start)
            &&& (forall|j: int|
                0 <= j < ts.len() ==> (#[trigger] ts[j]).kind == byte_kind(
                    input[ts[j].start as int],
                ) && ts[j].end == spec_token_end(input, ts[j].start as int))
            &&& (forall|j: int| 0 <= j < ts.len() ==> is_token_kind((#[trigger] ts[j]).kind))
        }),
    decreases input.len() - pos,
{
    if pos < input.len() {
        let end = spec_token_end(input, pos);
        lemma_token_end_bounds(input, pos);
        lemma_tokenize_props(input, end);
        let ts = spec_tokenize(input, pos);
        let rest = spec_tokenize(input, end);
        let head = Token { kind: byte_kind(input[pos]), start: pos as usize, end: end as usize };
        assert(ts == seq![head] + rest);
        assert(ts[0] == head);
        assert(forall|j: int| 1 <= j < ts.len() ==> ts[j] == rest[j - 1]);
        assert forall|j: int| 0 <= j < ts.len() - 1 implies ts[j].end == ts[j + 1].start by {
            if j == 0 {
                if rest.len() > 0 {
                    assert(rest[0].start == end);
                }
            }
        }
        assert(ts[ts.len() - 1].end == input.len());
    }
}

/// True of the bytes that end a text run and dispatch their own token kind.
pub fn is_special(c: u8) -> (r: bool)
    ensures
        r == is_special_byte(c),
{
    c == 35 || c == 45 || c == 42 || c == 96 || c == 91 || c == 93 || c == 40 || c == 41 || c == 10
        || c == 32 || c == 9
}

/// Tokenizer state: the input bytes and the current position.
pub struct Lexer {
    input: Vec<u8>,
    pos: usize,
}

impl Lexer {
    /// The input being tokenized, as a byte sequence.
    pub closed spec fn input_bytes(&self) -> Seq<u8> {
        self.input@
    }

    /// The current byte position.
    pub closed spec fn at(&self) -> int {
        self.pos as int
    }

    /// The position never runs past the end of the input.
    pub closed spec fn wf(&self) -> bool {
        self.pos <= self.input.len()
    }

    /// A fresh tokenizer positioned at the start of `input`'s bytes.
    pub fn new(input: &str) -> (lx: Lexer)
        ensures
            lx.wf(),
            lx.input_bytes() == input.spec_bytes(),
            lx.at() == 0,
    {
        Lexer { input: vstd::slice::slice_to_vec(input.as_bytes()), pos: 0 }
    }

    /// The byte at the current position, if any.
    fn peek_char(&self) -> (r: Option<u8>)
        requires
            self.wf(),
        ensures
            self.at() < self.input_bytes().len() ==> r == Some(self.input_bytes()[self.at()]),
            self.at() >= self.input_bytes().len() ==> r is None,
    {
        if self.pos < self.input.len() {
            Some(self.input[self.pos])
        } else {
            None
        }
    }

    /// Advance one byte.
    fn bump(&mut self)
        requires
            old(self).wf(),
            old(self).at() < old(self).input_bytes().len(),
        ensures
            final(self).wf(),
            final(self).input_bytes() == old(self).input_bytes(),
            final(self).at() == old(self).at() + 1,
    {
        self.pos = self.pos + 1;
    }

    /// Emit a single-byte token of the given kind.
    fn single(&mut self, kind: SyntaxKind) -> (r: Option<Token>)
        requires
            old(self).wf(),
            old(self).at() < old(self).input_bytes().len(),
        ensures
            final(self).wf(),
            final(self).input_bytes() == old(self).input_bytes(),
            final(self).at() == old(self).at() + 1,
            r == Some(
                Token {
                    kind,
                    start: old(self).at() as usize,
                    end: (old(self).at() + 1) as usize,
                },
            ),
    {
        self.bump();
        Some(Token { kind, start: self.pos - 1, end: self.pos })
    }

    /// Emit the maximal run of spaces and tabs as one Whitespace token.
    fn consume_while_whitespace(&mut self) -> (r: Option<Token>)
        requires
            old(self).wf(),
        ensures
            final(self).wf(),
            final(self).input_bytes() == old(self).input_bytes(),
            final(self).at() == whitespace_run_end(old(self).input_bytes(), old(self).at()),
            r == Some(
                Token {
                    kind: SyntaxKind::Whitespace,
                    start: old(self).at() as usize,
                    end: whitespace_run_end(old(self).input_bytes(), old(self).at()) as usize,
                },
            ),
    {
        let start = self.pos;
        while self.pos < self.input.len() && (self.input[self.pos] == 32 || self.input[self.pos]
            == 9)
            invariant
                self.wf(),
                self.input_bytes() == old(self).input_bytes(),
                old(self).at() <= self.at(),
                whitespace_run_end(self.input_bytes(), old(self).at()) == whitespace_run_end(
                    self.input_bytes(),
                    self.at(),
                ),
            decreases self.input_bytes().len() - self.at(),
        {
            self.bump();
        }
        Some(Token { kind: SyntaxKind::Whitespace, start, end: self.pos })
    }

    /// Emit the maximal run of non-special bytes as one Text token.
    fn consume_text(&mut self) -> (r: Option<Token>)
        requires
            old(self).wf(),
        ensures
            final(self).wf(),
            final(self).input_bytes() == old(self).input_bytes(),
            final(self).at() == text_run_end(old(self).input_bytes(), old(self).at()),
            r == Some(
                Token {
                    kind: SyntaxKind::Text,
                    start: old(self).at() as usize,
                    end: text_run_end(old(self).input_bytes(), old(self).at()) as usize,
                },
            ),
    {
        let start = self.pos;
        while self.pos < self.input.len() && !is_special(self.input[self.pos])
            invariant
                self.wf(),
                self.input_bytes() == old(self).input_bytes(),
                old(self).at() <= self.at(),
                text_run_end(self.input_bytes(), old(self).at()) == text_run_end(
                    self.input_bytes(),
                    self.at(),
                ),
            decreases self.input_bytes().len() - self.at(),
        {
            self.bump();
        }
        Some(Token { kind: SyntaxKind::Text, start, end: self.pos })
    }

    /// Emit the token starting at the current position, or `None` at the end
    /// of the input.  Every call that returns a token advances the position:
    /// the tokenizer never loops without making progress.
    fn next_token(&mut self) -> (r: Option<Token>)
        requires
            old(self).wf(),
        ensures
            final(self).wf(),
            final(self).input_bytes() == old(self).input_bytes(),
            old(self).at() >= old(self).input_bytes().len() ==> r is None && final(self).at()
                == old(self).at(),
            old(self).at() < old(self).input_bytes().len() ==> {
                let end = spec_token_end(old(self).input_bytes(), old(self).at());
                r == Some(
                    Token {
                        kind: byte_kind(old(self).input_bytes()[old(self).at()]),
                        start: old(self).at() as usize,
                        end: end as usize,
                    },
                ) && final(self).at() == end
            },
    {
        let c = match self.peek_char() {
            Some(c) => c,
            None => { return None },
        };
        if c == 35 {
            self.single(SyntaxKind::Hash)
        } else if c == 45 {
            self.single(SyntaxKind::Dash)
        } else if c == 42 {
            self.single(SyntaxKind::Star)
        } else if c == 96 {
            self.single(SyntaxKind::Backtick)
        } else if c == 91 {
            self.single(SyntaxKind::LBracket)
        } else if c == 93 {
            self.single(SyntaxKind::RBracket)
        } else if c == 40 {
            self.single(SyntaxKind::LParen)
        } else if c == 41 {
            self.single(SyntaxKind::RParen)
        } else if c == 10 {
            self.single(SyntaxKind::NewLine)
        } else if c == 32 || c == 9 {
            self.consume_while_whitespace()
        } else {
            self.consume_text()
        }
    }

    /// Tokenize the whole remaining input.  The result is exactly the token
    /// sequence `spec_tokenize` describes: it tiles the input with no gaps
    /// and no overlaps.
    pub fn tokenize(&mut self) -> (r: Vec<Token>)
        requires
            old(self).wf(),
        ensures
            final(self).wf(),
            final(self).input_bytes() == old(self).input_bytes(),
            final(self).at() == final(self).input_bytes().len(),
            r@ == spec_tokenize(old(self).input_bytes(), old(self).at()),
    {
        let mut tokens: Vec<Token> = Vec::new();
        while self.pos < self.input.len()
            invariant
                self.wf(),
                self.input_bytes() == old(self).input_bytes(),
                old(self).at() <= self.at(),
                spec_tokenize(self.input_bytes(), old(self).at()) == tokens@ + spec_tokenize(
                    self.input_bytes(),
                    self.at(),
                ),
            decreases self.input_bytes().len() - self.at(),
        {
            let ghost prev = self.at();
            let ghost before = tokens@;
            let token = self.next_token().unwrap();
            tokens.push(token);
            proof {
                lemma_token_end_bounds(self.input_bytes(), prev);
                assert(spec_tokenize(self.input_bytes(), prev) == seq![token] + spec_tokenize(
                    self.input_bytes(),
                    self.at(),
                ));
                assert(tokens@ + spec_tokenize(self.input_bytes(), self.at()) =~= before + (
                seq![token] + spec_tokenize(self.input_bytes(), self.at())));
            }
        }
        proof {
            assert(spec_tokenize(self.input_bytes(), self.at()) =~= Seq::<Token>::empty());
            assert(tokens@ + Seq::<Token>::empty() =~= tokens@);
        }
        tokens
    }
}

} // verus!
