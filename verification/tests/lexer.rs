use tesshir::lexer::{lex, Keyword, Symbol, TokenKind};

fn kinds(src: &str) -> Vec<TokenKind> {
    lex(src).expect("lexes").into_iter().map(|t| t.kind).collect()
}

#[test]
fn lexes_keywords_identifiers_and_integers() {
    let k = kinds("fn main x1 42");
    assert!(matches!(k[0], TokenKind::Keyword(Keyword::Fn)));
    assert!(matches!(&k[1], TokenKind::Ident(s) if s == "main"));
    assert!(matches!(&k[2], TokenKind::Ident(s) if s == "x1"));
    assert!(matches!(&k[3], TokenKind::Int(v) if format!("{v:?}").len() > 0));
    assert!(matches!(k[4], TokenKind::Eof));
    assert_eq!(k.len(), 5);
}

#[test]
fn lexes_two_character_symbols() {
    let k = kinds(":: -> => == != <= >= << >> && ||");
    let expected = [
        Symbol::ColonColon,
        Symbol::Arrow,
        Symbol::FatArrow,
        Symbol::EqEq,
        Symbol::Ne,
        Symbol::Le,
        Symbol::Ge,
        Symbol::Shl,
        Symbol::Shr,
        Symbol::AmpAmp,
        Symbol::PipePipe,
    ];
    for (kind, sym) in k.iter().zip(expected.iter()) {
        assert!(matches!(kind, TokenKind::Symbol(s) if s == sym), "{kind:?} vs {sym:?}");
    }
    assert!(matches!(k[expected.len()], TokenKind::Eof));
}

#[test]
fn skips_comments_and_whitespace() {
    let k = kinds("// a comment\n  let\t// another\n");
    assert_eq!(k.len(), 2);
    assert!(matches!(k[0], TokenKind::Keyword(Keyword::Let)));
    assert!(matches!(k[1], TokenKind::Eof));
}

#[test]
fn empty_input_is_just_eof() {
    let tokens = lex("").expect("lexes");
    assert_eq!(tokens.len(), 1);
    assert!(matches!(tokens[0].kind, TokenKind::Eof));
    assert_eq!((tokens[0].span.start, tokens[0].span.end), (0, 0));
}

#[test]
fn spans_are_byte_offsets_in_order() {
    let src = "é  fn";
    let err = lex(src).expect_err("é starts no token");
    assert_eq!(err.len(), 1);
    assert_eq!((err[0].span.start, err[0].span.end), (0, 2));
    assert_eq!(err[0].message, "unexpected character `é`");

    let tokens = lex("a  bc\n(").expect("lexes");
    let spans: Vec<(usize, usize)> = tokens.iter().map(|t| (t.span.start, t.span.end)).collect();
    assert_eq!(spans, vec![(0, 1), (3, 5), (6, 7), (7, 7)]);
    for pair in spans.windows(2) {
        assert!(pair[0].0 <= pair[0].1 && pair[0].1 <= pair[1].0);
    }
}

#[test]
fn reports_every_unexpected_character() {
    let err = lex("a $ b @").expect_err("two bad characters");
    let messages: Vec<&str> = err.iter().map(|d| d.message.as_str()).collect();
    assert_eq!(messages, vec!["unexpected character `$`", "unexpected character `@`"]);
}
