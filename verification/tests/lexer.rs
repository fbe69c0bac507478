use phprs::lexer::{tokenize, LexError, Token, TokenKind};

fn kinds(ts: &[Token]) -> Vec<TokenKind> {
    ts.iter().map(|t| t.kind).collect()
}

fn texts(ts: &[Token]) -> Vec<String> {
    ts.iter().map(|t| t.lexeme.clone()).collect()
}

#[test]
fn keywords_win_ties_and_longer_identifiers_win() {
    let ts = tokenize("function fn functional int integer").unwrap();
    assert_eq!(
        kinds(&ts),
        vec![
            TokenKind::Fn,
            TokenKind::FnArrow,
            TokenKind::Identifier,
            TokenKind::TypeInt,
            TokenKind::Identifier,
            TokenKind::Eof
        ]
    );
    assert_eq!(texts(&ts)[2], "functional");
    assert_eq!(ts[2].span, (12, 22));
}

#[test]
fn this_and_variables() {
    let ts = tokenize("$this $thisValue $x_1").unwrap();
    assert_eq!(kinds(&ts), vec![TokenKind::This, TokenKind::Variable, TokenKind::Variable, TokenKind::Eof]);
    assert_eq!(texts(&ts)[1], "$thisValue");
    assert_eq!(texts(&ts)[2], "$x_1");
}

#[test]
fn numbers_and_ranges() {
    let ts = tokenize("3.14 42 1..2 7.").unwrap();
    assert_eq!(
        kinds(&ts),
        vec![
            TokenKind::Float,
            TokenKind::Integer,
            TokenKind::Integer,
            TokenKind::DotDot,
            TokenKind::Integer,
            TokenKind::Integer,
            TokenKind::Dot,
            TokenKind::Eof
        ]
    );
    assert_eq!(texts(&ts)[0], "3.14");
}

#[test]
fn strings_keep_escapes_and_quotes() {
    let ts = tokenize(r#""a\"b" 'it\'s'"#).unwrap();
    assert_eq!(kinds(&ts), vec![TokenKind::String, TokenKind::StringSingle, TokenKind::Eof]);
    assert_eq!(texts(&ts)[0], r#""a\"b""#);
    assert_eq!(texts(&ts)[1], r#"'it\'s'"#);
}

#[test]
fn comments_are_dropped_but_attributes_are_not() {
    let ts = tokenize("a // line\n/* block\n */ b # hash\n#[Attr] c").unwrap();
    assert_eq!(
        kinds(&ts),
        vec![
            TokenKind::Identifier,
            TokenKind::Identifier,
            TokenKind::HashBracket,
            TokenKind::Identifier,
            TokenKind::RBracket,
            TokenKind::Identifier,
            TokenKind::Eof
        ]
    );
}

#[test]
fn longest_operators() {
    let ts = tokenize("<?php a->b :: c => d += 1 != 2 <= 3 && 4 || 5 | 6").unwrap();
    assert_eq!(
        kinds(&ts),
        vec![
            TokenKind::PhpOpen,
            TokenKind::Identifier,
            TokenKind::Arrow,
            TokenKind::Identifier,
            TokenKind::DoubleColon,
            TokenKind::Identifier,
            TokenKind::FatArrow,
            TokenKind::Identifier,
            TokenKind::PlusAssign,
            TokenKind::Integer,
            TokenKind::Ne,
            TokenKind::Integer,
            TokenKind::Le,
            TokenKind::Integer,
            TokenKind::And,
            TokenKind::Integer,
            TokenKind::Or,
            TokenKind::Integer,
            TokenKind::Pipe,
            TokenKind::Integer,
            TokenKind::Eof
        ]
    );
}

#[test]
fn eof_closes_the_sequence() {
    let ts = tokenize("  x  ").unwrap();
    assert_eq!(ts.len(), 2);
    assert_eq!(ts[1].kind, TokenKind::Eof);
    assert_eq!(ts[1].span, (5, 5));
    assert_eq!(ts[1].lexeme, "");
    let empty = tokenize("").unwrap();
    assert_eq!(kinds(&empty), vec![TokenKind::Eof]);
}

#[test]
fn unreadable_input_reports_its_position() {
    assert_eq!(tokenize("a @ b").unwrap_err(), LexError { pos: 2 });
    assert_eq!(tokenize("\"open").unwrap_err(), LexError { pos: 0 });
    let ts = tokenize("x /* open").unwrap();
    assert_eq!(
        kinds(&ts),
        vec![TokenKind::Identifier, TokenKind::Slash, TokenKind::Star, TokenKind::Identifier, TokenKind::Eof]
    );
    assert_eq!(tokenize("$ 1").unwrap_err(), LexError { pos: 0 });
}

#[test]
fn function_source_tokens() {
    let source = "<?php\nfunction main() {\n    echo \"Hello\";\n}\n";
    let ts = tokenize(source).unwrap();
    assert_eq!(
        kinds(&ts),
        vec![
            TokenKind::PhpOpen,
            TokenKind::Fn,
            TokenKind::Identifier,
            TokenKind::LParen,
            TokenKind::RParen,
            TokenKind::LBrace,
            TokenKind::Echo,
            TokenKind::String,
            TokenKind::Semicolon,
            TokenKind::RBrace,
            TokenKind::Eof
        ]
    );
    for t in &ts {
        assert_eq!(&source[t.span.0..t.span.1], t.lexeme);
    }
}
