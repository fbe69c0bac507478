use phprs::ast::{QualifiedName, Span, Type, UseKind};
use phprs::lexer::{Token, TokenKind};
use phprs::parser::{Parser, SyntaxError};
use phprs::resolver::dependency_graph::DependencyGraph;
use phprs::resolver::symbol_table::SymbolTable;
use phprs::stdlib::{get_stdlib_functions, intrinsic};

fn p(s: &str) -> String {
    String::from(s)
}

#[test]
fn test_no_cycle() {
    let mut graph = DependencyGraph::new();
    graph.add_dependency(p("a.php"), p("b.php"));
    graph.add_dependency(p("b.php"), p("c.php"));

    assert!(graph.would_create_cycle(&p("a.php"), &p("b.php")).is_none());
}

#[test]
fn test_would_create_cycle() {
    let mut graph = DependencyGraph::new();
    graph.add_dependency(p("a.php"), p("b.php"));
    graph.add_dependency(p("b.php"), p("c.php"));

    let cycle = graph.would_create_cycle(&p("c.php"), &p("a.php"));
    assert!(cycle.is_some());
}

#[test]
fn test_topological_order() {
    let mut graph = DependencyGraph::new();
    graph.add_node(p("a.php"));
    graph.add_dependency(p("a.php"), p("b.php"));
    graph.add_dependency(p("b.php"), p("c.php"));
    graph.add_node(p("c.php"));

    let order = graph.topological_order();
    assert!(order.is_some());
}

#[test]
fn cycle_path_and_order_contents() {
    let mut graph = DependencyGraph::new();
    graph.add_dependency(p("a.php"), p("b.php"));
    graph.add_dependency(p("b.php"), p("c.php"));
    let cycle = graph.would_create_cycle(&p("c.php"), &p("a.php")).unwrap();
    assert_eq!(cycle, vec![p("c.php"), p("a.php"), p("b.php"), p("c.php")]);
    assert_eq!(graph.topological_order(), Some(vec![p("c.php"), p("b.php"), p("a.php")]));
    graph.add_node(p("c.php"));
    let order = graph.topological_order().unwrap();
    assert_eq!(order, vec![p("c.php"), p("b.php"), p("a.php")]);
    assert_eq!(graph.dependencies("a.php"), Some(vec![p("b.php")]));
    assert_eq!(graph.dependencies("zzz.php"), None);
    assert!(graph.find_cycles().is_empty());
}

#[test]
fn cyclic_graph_has_no_order() {
    let mut graph = DependencyGraph::new();
    graph.add_dependency(p("a.php"), p("b.php"));
    graph.add_dependency(p("b.php"), p("a.php"));
    assert!(graph.topological_order().is_none());
    let cycles = graph.find_cycles();
    assert!(!cycles.is_empty());
    for c in &cycles {
        assert_eq!(c.first(), c.last());
    }
    assert!(graph.would_create_cycle(&p("a.php"), &p("a.php")).is_some());
}

#[test]
fn cycle_behind_a_chain_is_found() {
    let mut graph = DependencyGraph::new();
    graph.add_dependency(p("a.php"), p("b.php"));
    graph.add_dependency(p("b.php"), p("c.php"));
    graph.add_dependency(p("c.php"), p("b.php"));
    let cycles = graph.find_cycles();
    assert_eq!(cycles, vec![vec![p("b.php"), p("c.php"), p("b.php")]]);
}

#[test]
fn test_stdlib_loads() {
    let funcs = get_stdlib_functions();
    assert!(!funcs.is_empty());

    let strlen = funcs.iter().find(|f| f.name == "strlen");
    assert!(strlen.is_some());

    let strlen = strlen.unwrap();
    assert!(strlen.attributes.get_intrinsic().is_some());
    assert_eq!(strlen.attributes.get_intrinsic().unwrap(), "rt_cstr_len");
}

#[test]
fn test_intrinsic_attribute() {
    let func = intrinsic("test", "rt_test", vec![("x", Type::Int)], Type::Int);
    assert_eq!(func.attributes.get_intrinsic(), Some("rt_test"));
    assert!(func.attributes.is_inline());
}

#[test]
fn stdlib_declares_each_group() {
    let funcs = get_stdlib_functions();
    assert_eq!(funcs.len(), 62);
    let find = |n: &str| funcs.iter().find(|f| f.name == n).unwrap();
    assert_eq!(find("count").attributes.get_intrinsic(), Some("rt_count"));
    assert_eq!(find("sqrt").return_type, Type::Float);
    assert_eq!(find("atan2").params.len(), 2);
    assert_eq!(find("boolval").attributes.get_intrinsic(), Some("rt_boolval"));
    assert!(find("rand").params.is_empty());
}

#[test]
fn type_text_and_predicates() {
    let t = Type::Nullable(Box::new(Type::Array(Box::new(Type::Int))));
    assert_eq!(t.to_string(), "?array<int>");
    let c = Type::Closure(vec![Type::Int, Type::String], Box::new(Type::Bool));
    assert_eq!(c.to_string(), "Closure(int, string): bool");
    assert_eq!(Type::RefMut(Box::new(Type::Float)).to_string(), "&mut float");
    assert!(Type::Int.is_copy());
    assert!(!Type::String.is_copy());
    assert!(Type::Ref(Box::new(Type::Int)).is_ref());
    assert_eq!(Type::Ref(Box::new(Type::Int)).inner_type(), Some(&Type::Int));
    assert_eq!(Type::Class("User".to_string()).class_name(), Some("User"));
    assert!(Type::Interface("I".to_string()).is_object());
    assert!(!Type::Int.is_object());
}

#[test]
fn token_kind_classes() {
    assert!(TokenKind::Plus.is_binary_operator());
    assert!(!TokenKind::LParen.is_binary_operator());
}

#[test]
fn symbol_table_resolves_imports_and_namespace() {
    let mut table = SymbolTable::new();
    let span = Span::new(0, 0);
    table.set_namespace(QualifiedName::new(vec![p("App")], false, span));
    table.add_import(
        p("Foo"),
        QualifiedName::new(vec![p("Lib"), p("Foo")], true, span),
        UseKind::Class,
    );
    let r = table.resolve("Foo", UseKind::Class).unwrap();
    assert_eq!(r.segments, vec![p("Lib"), p("Foo")]);
    let local = table.resolve("Bar", UseKind::Class).unwrap();
    assert_eq!(local.segments, vec![p("App"), p("Bar")]);
    assert_eq!(table.imports().len(), 1);
}


fn tok(kind: TokenKind, text: &str, at: usize) -> Token {
    Token { kind, span: (at, at + text.len()), lexeme: text.to_string() }
}

fn toks(parts: &[(TokenKind, &str)]) -> Vec<Token> {
    let mut v = Vec::new();
    let mut at = 0;
    for (k, t) in parts {
        v.push(tok(*k, t, at));
        at += t.len() + 1;
    }
    v.push(tok(TokenKind::Eof, "", at));
    v
}

#[test]
fn parse_simple_and_nested_types() {
    let mut p = Parser::new(toks(&[(TokenKind::TypeInt, "int")]));
    assert_eq!(p.parse_type(), Ok(Type::Int));
    assert_eq!(p.peek(), TokenKind::Eof);

    let mut p = Parser::new(toks(&[
        (TokenKind::Ampersand, "&"),
        (TokenKind::Not, "!"),
        (TokenKind::Identifier, "array"),
        (TokenKind::Lt, "<"),
        (TokenKind::Identifier, "User"),
        (TokenKind::Gt, ">"),
    ]));
    assert_eq!(
        p.parse_type(),
        Ok(Type::Ref(Box::new(Type::Nullable(Box::new(Type::Array(Box::new(Type::Class(
            "User".to_string()
        ))))))))
    );
}

#[test]
fn parse_type_errors() {
    let mut p = Parser::new(toks(&[(TokenKind::Comma, ",")]));
    assert!(matches!(p.parse_type(), Err(SyntaxError::ExpectedType { found: TokenKind::Comma, .. })));

    let mut p = Parser::new(toks(&[
        (TokenKind::Identifier, "array"),
        (TokenKind::Lt, "<"),
        (TokenKind::TypeInt, "int"),
        (TokenKind::Comma, ","),
    ]));
    match p.parse_type() {
        Err(SyntaxError::Expected { expected, found, span }) => {
            assert_eq!(expected, TokenKind::Gt);
            assert_eq!(found, TokenKind::Comma);
            assert_eq!((span.start, span.end), (12, 13));
        }
        other => panic!("unexpected {:?}", other),
    }
}

#[test]
fn parse_parameter_lists() {
    let mut p = Parser::new(toks(&[
        (TokenKind::Variable, "$a"),
        (TokenKind::Colon, ":"),
        (TokenKind::TypeInt, "int"),
        (TokenKind::Comma, ","),
        (TokenKind::Ampersand, "&"),
        (TokenKind::Variable, "$b"),
        (TokenKind::RParen, ")"),
    ]));
    let params = p.parse_params().unwrap();
    assert_eq!(params.len(), 2);
    assert_eq!(params[0].name, "a");
    assert_eq!(params[0].ty, Type::Int);
    assert!(!params[0].is_ref);
    assert_eq!(params[1].name, "b");
    assert_eq!(params[1].ty, Type::Unknown);
    assert!(params[1].is_ref);
    assert_eq!(p.peek(), TokenKind::RParen);

    let mut p = Parser::new(toks(&[(TokenKind::RParen, ")")]));
    assert!(p.parse_params().unwrap().is_empty());

    let mut p = Parser::new(toks(&[(TokenKind::Identifier, "x")]));
    assert!(matches!(
        p.parse_params(),
        Err(SyntaxError::Expected { expected: TokenKind::Variable, found: TokenKind::Identifier, .. })
    ));
}

#[test]
fn cursor_stays_on_last_token() {
    let mut p = Parser::new(toks(&[(TokenKind::Comma, ",")]));
    assert!(p.check(TokenKind::Comma));
    assert_eq!(p.peek_ahead(1), TokenKind::Eof);
    assert_eq!(p.peek_ahead(5), TokenKind::Eof);
    assert!(p.match_token(TokenKind::Comma));
    assert!(!p.match_token(TokenKind::Comma));
    assert_eq!(p.advance(), 1);
    assert_eq!(p.peek(), TokenKind::Eof);
    assert!(p.expect(TokenKind::Eof).is_ok());
}

#[test]
fn checked_dependency_keeps_graph_acyclic() {
    let mut graph = DependencyGraph::new();
    graph.add_dependency(p("a.php"), p("b.php"));
    graph.add_node(p("b.php"));
    assert!(graph.would_create_cycle(&p("a.php"), &p("c.php")).is_none());
    graph.add_dependency(p("a.php"), p("c.php"));
    graph.add_node(p("c.php"));
    assert!(graph.topological_order().is_some());
    assert!(graph.would_create_cycle(&p("b.php"), &p("a.php")).is_some());
    graph.add_dependency(p("b.php"), p("a.php"));
    assert!(graph.topological_order().is_none());
}

#[test]
fn dependency_without_entry_still_ordered() {
    let mut graph = DependencyGraph::new();
    graph.add_dependency(p("a.php"), p("b.php"));
    assert_eq!(graph.topological_order(), Some(vec![p("b.php"), p("a.php")]));
}

#[test]
fn every_simple_cycle_is_found() {
    let mut graph = DependencyGraph::new();
    graph.add_dependency(p("a.php"), p("b.php"));
    graph.add_dependency(p("a.php"), p("c.php"));
    graph.add_dependency(p("b.php"), p("d.php"));
    graph.add_dependency(p("c.php"), p("d.php"));
    graph.add_dependency(p("d.php"), p("a.php"));
    let cycles = graph.find_cycles();
    assert_eq!(
        cycles,
        vec![
            vec![p("a.php"), p("b.php"), p("d.php"), p("a.php")],
            vec![p("a.php"), p("c.php"), p("d.php"), p("a.php")],
        ]
    );
}
