use inferus_parser::lexer::Lexer;
use inferus_parser::syntax::SyntaxKind;

fn kinds_and_ranges(input: &str) -> Vec<(SyntaxKind, usize, usize)> {
    let mut lexer = Lexer::new(input);
    lexer
        .tokenize()
        .iter()
        .map(|t| (t.kind, t.start, t.end))
        .collect()
}

#[test]
fn tokenize_heading_line() {
    assert_eq!(
        kinds_and_ranges("# a\n"),
        vec![
            (SyntaxKind::Hash, 0, 1),
            (SyntaxKind::Whitespace, 1, 2),
            (SyntaxKind::Text, 2, 3),
            (SyntaxKind::NewLine, 3, 4),
        ]
    );
}

#[test]
fn tokenize_empty_input() {
    assert_eq!(kinds_and_ranges(""), vec![]);
}

#[test]
fn whitespace_run_is_maximal() {
    assert_eq!(
        kinds_and_ranges("a \t  b"),
        vec![
            (SyntaxKind::Text, 0, 1),
            (SyntaxKind::Whitespace, 1, 5),
            (SyntaxKind::Text, 5, 6),
        ]
    );
}

#[test]
fn text_run_stops_at_special() {
    assert_eq!(
        kinds_and_ranges("ab*cd"),
        vec![
            (SyntaxKind::Text, 0, 2),
            (SyntaxKind::Star, 2, 3),
            (SyntaxKind::Text, 3, 5),
        ]
    );
}

#[test]
fn punctuation_tokens_are_single_bytes() {
    assert_eq!(
        kinds_and_ranges("#-*`[]()"),
        vec![
            (SyntaxKind::Hash, 0, 1),
            (SyntaxKind::Dash, 1, 2),
            (SyntaxKind::Star, 2, 3),
            (SyntaxKind::Backtick, 3, 4),
            (SyntaxKind::LBracket, 4, 5),
            (SyntaxKind::RBracket, 5, 6),
            (SyntaxKind::LParen, 6, 7),
            (SyntaxKind::RParen, 7, 8),
        ]
    );
}

#[test]
fn tokens_tile_the_input() {
    let inputs = ["", "# a\n", "x\ny\n", "``", "  ", "héllo wörld\n", "-"];
    for input in inputs {
        let toks = kinds_and_ranges(input);
        let mut pos = 0;
        for (_, start, end) in &toks {
            assert_eq!(*start, pos);
            assert!(end > start);
            pos = *end;
        }
        assert_eq!(pos, input.len());
    }
}

#[test]
fn multibyte_text_stays_one_token() {
    assert_eq!(
        kinds_and_ranges("é\n"),
        vec![(SyntaxKind::Text, 0, 2), (SyntaxKind::NewLine, 2, 3)]
    );
}
