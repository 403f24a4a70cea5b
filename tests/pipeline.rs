use funlang::ast::{Ast, Def, Expr, TypeRef, ValueDef};
use funlang::lexer::{decimal_in, tokenize, LexErrorKind, Token, TokenKind};
use funlang::parser::{parse, Label, SyntaxError, SyntaxErrorKind};
use funlang::span::Span;

fn lex_ok(src: &str) -> Vec<Token> {
    let (tokens, errors) = tokenize(src);
    assert!(errors.is_empty(), "unexpected lexical errors in {:?}", src);
    tokens.expect("tokens without errors")
}

fn kinds(src: &str) -> Vec<TokenKind> {
    lex_ok(src).iter().map(|t| t.kind).collect()
}

fn parse_ok(src: &str) -> Vec<Def> {
    let (defs, errors) = parse(&lex_ok(src));
    assert!(errors.is_empty(), "unexpected syntax errors in {:?}", src);
    defs.expect("definitions without errors")
}

fn parse_errors(src: &str) -> Vec<SyntaxError> {
    let (defs, errors) = parse(&lex_ok(src));
    assert!(defs.is_none());
    errors
}

fn only_value(src: &str) -> ValueDef {
    let mut defs = parse_ok(src);
    assert_eq!(defs.len(), 1);
    match defs.pop().unwrap() {
        Def::Value(v) => v,
        other => panic!("expected a value definition, got {:?}", other),
    }
}

fn is_symbol(e: &Expr, name: &str) -> bool {
    matches!(e, Expr::SymbolRef(_, n) if n.text == name.as_bytes())
}

fn is_named(t: &TypeRef, name: &str) -> bool {
    matches!(t, TypeRef::Named(_, n, args) if n.text == name.as_bytes() && args.is_empty())
}

fn slice(src: &str, span: Span) -> &str {
    &src[span.start..span.end]
}

#[test]
fn value_definition_of_an_int() {
    let v = only_value("x = 5;");
    assert_eq!(v.name.text, b"x");
    assert!(matches!(v.body, Expr::Int(_, 5)));
    assert_eq!(v.span, Span { start: 0, end: 6 });
}

#[test]
fn function_literal_with_result_type() {
    let src = "id = a :A -> :A a;";
    let v = only_value(src);
    assert_eq!(v.name.text, b"id");
    match &v.body {
        Expr::Func(span, arg, arg_type, ret_type, body) => {
            assert_eq!(arg.text, b"a");
            assert!(is_named(arg_type, "A"));
            assert!(is_named(ret_type.as_ref().expect("a result type"), "A"));
            assert!(is_symbol(body, "a"));
            assert_eq!(slice(src, *span), "a :A -> :A a");
        }
        other => panic!("expected a function, got {:?}", other),
    }
}

#[test]
fn function_shorthand_without_equals_is_refused() {
    let errors = parse_errors("id a :A -> :A a;");
    assert_eq!(errors.len(), 1);
    assert_eq!(errors[0].span, Span { start: 3, end: 4 });
    assert!(errors[0].expected.contains(&TokenKind::Equal));
    assert!(errors[0].expected.contains(&TokenKind::DollarSign));
    assert!(errors[0].expected.contains(&TokenKind::Pipe));
}

#[test]
fn function_literal_without_result_type() {
    let v = only_value("f = x :Int64 -> x;");
    match &v.body {
        Expr::Func(_, _, _, ret_type, body) => {
            assert!(ret_type.is_none());
            assert!(is_symbol(body, "x"));
        }
        other => panic!("expected a function, got {:?}", other),
    }
}

#[test]
fn type_definition_with_two_fields() {
    let src = "Point | x :Int64, y :Int64;";
    let defs = parse_ok(src);
    assert_eq!(defs.len(), 1);
    match &defs[0] {
        Def::Type(t) => {
            assert_eq!(t.name.text, b"Point");
            assert_eq!(t.fields.len(), 2);
            assert_eq!(t.fields[0].0.text, b"x");
            assert!(is_named(&t.fields[0].1, "Int64"));
            assert_eq!(t.fields[1].0.text, b"y");
            assert!(is_named(&t.fields[1].1, "Int64"));
            assert_eq!(slice(src, t.span), src);
        }
        other => panic!("expected a type definition, got {:?}", other),
    }
}

#[test]
fn let_expression_with_two_bindings() {
    let v = only_value("f = let a = 1; b = 2; in a;");
    assert_eq!(v.name.text, b"f");
    match &v.body {
        Expr::LetIn(_, defs, body) => {
            assert_eq!(defs.len(), 2);
            assert_eq!(defs[0].name.text, b"a");
            assert!(matches!(defs[0].body, Expr::Int(_, 1)));
            assert_eq!(defs[1].name.text, b"b");
            assert!(matches!(defs[1].body, Expr::Int(_, 2)));
            assert!(is_symbol(body, "a"));
        }
        other => panic!("expected a let expression, got {:?}", other),
    }
}

#[test]
fn missing_expression_is_one_error_at_the_semicolon() {
    let errors = parse_errors("x = ;");
    assert_eq!(errors.len(), 1);
    let e = &errors[0];
    assert_eq!(e.kind, SyntaxErrorKind::Unexpected);
    assert_eq!(e.span, Span { start: 4, end: 5 });
    assert_eq!(e.found, Some(TokenKind::Semicolon));
    for k in [TokenKind::Int, TokenKind::Float, TokenKind::Name, TokenKind::Let, TokenKind::If] {
        assert!(e.expected.contains(&k), "{:?} should be expected", k);
    }
    let labels: Vec<Label> = e.context.iter().map(|c| c.label).collect();
    assert_eq!(labels, vec![Label::ValueDefinition, Label::Expression]);
    assert_eq!(e.context[0].span, Span { start: 0, end: 5 });
    assert_eq!(e.context[0].label.text(), "value definition");
    assert_eq!(e.context[1].label.text(), "expression");
}

#[test]
fn pipe_applies_its_right_side_to_the_application_on_its_left() {
    let src = "x = f a b |> g;";
    let v = only_value(src);
    match &v.body {
        Expr::Call(span, func, arg) => {
            assert!(is_symbol(func, "g"));
            assert_eq!(slice(src, *span), "f a b |> g");
            match &**arg {
                Expr::Call(_, fa, b) => {
                    assert!(is_symbol(b, "b"));
                    match &**fa {
                        Expr::Call(_, f, a) => {
                            assert!(is_symbol(f, "f"));
                            assert!(is_symbol(a, "a"));
                        }
                        other => panic!("expected f a, got {:?}", other),
                    }
                }
                other => panic!("expected f a b, got {:?}", other),
            }
        }
        other => panic!("expected a call, got {:?}", other),
    }
}

#[test]
fn pipes_associate_to_the_left() {
    let v = only_value("x = a |> f |> g;");
    match &v.body {
        Expr::Call(_, g, inner) => {
            assert!(is_symbol(g, "g"));
            match &**inner {
                Expr::Call(_, f, a) => {
                    assert!(is_symbol(f, "f"));
                    assert!(is_symbol(a, "a"));
                }
                other => panic!("expected f applied to a, got {:?}", other),
            }
        }
        other => panic!("expected a call, got {:?}", other),
    }
}

#[test]
fn pipe_from_adds_no_node() {
    let v = only_value("x = f <| g y;");
    match &v.body {
        Expr::Call(_, f, arg) => {
            assert!(is_symbol(f, "f"));
            match &**arg {
                Expr::Call(_, g, y) => {
                    assert!(is_symbol(g, "g"));
                    assert!(is_symbol(y, "y"));
                }
                other => panic!("expected g y, got {:?}", other),
            }
        }
        other => panic!("expected a call, got {:?}", other),
    }
}

#[test]
fn function_arrows_associate_to_the_right() {
    let defs = parse_ok("T | f :(a -> b -> c);");
    let Def::Type(t) = &defs[0] else { panic!("expected a type definition") };
    match &t.fields[0].1 {
        TypeRef::Function(_, a, rest) => {
            assert!(is_named(a, "a"));
            match &**rest {
                TypeRef::Function(_, b, c) => {
                    assert!(is_named(b, "b"));
                    assert!(is_named(c, "c"));
                }
                other => panic!("expected b -> c, got {:?}", other),
            }
        }
        other => panic!("expected a function type, got {:?}", other),
    }
}

#[test]
fn generic_definition_with_alternatives() {
    let defs = parse_ok("List $ T :Int64 & :Float64, U;");
    match &defs[0] {
        Def::Generic(g) => {
            assert_eq!(g.name.text, b"List");
            assert_eq!(g.args.len(), 2);
            assert_eq!(g.args[0].0.text, b"T");
            assert_eq!(g.args[0].1.len(), 2);
            assert!(is_named(&g.args[0].1[0], "Int64"));
            assert!(is_named(&g.args[0].1[1], "Float64"));
            assert_eq!(g.args[1].0.text, b"U");
            assert!(g.args[1].1.is_empty());
        }
        other => panic!("expected a generic definition, got {:?}", other),
    }
}

#[test]
fn if_then_else_expression() {
    let src = "x = if c then 1 else 2;";
    let v = only_value(src);
    match &v.body {
        Expr::IfThenElse(span, c, yes, no) => {
            assert!(is_symbol(c, "c"));
            assert!(matches!(**yes, Expr::Int(_, 1)));
            assert!(matches!(**no, Expr::Int(_, 2)));
            assert_eq!(slice(src, *span), "if c then 1 else 2");
        }
        other => panic!("expected a branch, got {:?}", other),
    }
}

#[test]
fn float_literal_keeps_its_digits() {
    let v = only_value("x = 42.5;");
    match &v.body {
        Expr::Float(span, digits) => {
            assert_eq!(digits, b"42.5");
            assert_eq!(*span, Span { start: 4, end: 8 });
        }
        other => panic!("expected a float, got {:?}", other),
    }
}

#[test]
fn two_malformed_definitions_give_two_errors() {
    let src = "a = ; b = 1; c = );";
    let errors = parse_errors(src);
    assert_eq!(errors.len(), 2);
    assert_eq!(slice(src, errors[0].span), ";");
    assert_eq!(errors[0].span.start, 4);
    assert_eq!(slice(src, errors[1].span), ")");
    assert_eq!(errors[1].found, Some(TokenKind::CloseParen));
}

#[test]
fn error_at_end_of_input() {
    let errors = parse_errors("x = 1");
    assert_eq!(errors.len(), 1);
    assert_eq!(errors[0].found, None);
    assert_eq!(errors[0].span, Span { start: 5, end: 5 });
    assert!(errors[0].expected.contains(&TokenKind::Semicolon));
    assert!(errors[0].expected.contains(&TokenKind::PipeInto));
}

#[test]
fn deep_nesting_is_a_dedicated_error() {
    let mut src = String::from("x = ");
    for _ in 0..200 {
        src.push('(');
    }
    src.push('1');
    for _ in 0..200 {
        src.push(')');
    }
    src.push(';');
    let errors = parse_errors(&src);
    assert_eq!(errors.len(), 1);
    assert_eq!(errors[0].kind, SyntaxErrorKind::TooDeep);
}

#[test]
fn moderate_nesting_parses() {
    let v = only_value("x = ((((((1))))));");
    assert!(matches!(v.body, Expr::Int(_, 1)));
}

#[test]
fn empty_input_has_no_definitions() {
    assert!(parse_ok("").is_empty());
    assert!(parse_ok("  # only a comment\n").is_empty());
}

#[test]
fn integer_literal_boundaries() {
    assert_eq!(kinds("42"), vec![TokenKind::Int]);
    assert_eq!(kinds("42.5"), vec![TokenKind::Float]);
    assert_eq!(kinds("42."), vec![TokenKind::Int, TokenKind::Period]);
    let tokens = lex_ok("42.");
    assert_eq!(tokens[0].span, Span { start: 0, end: 2 });
    assert_eq!(tokens[1].span, Span { start: 2, end: 3 });
}

#[test]
fn largest_integer_is_accepted_and_one_more_is_refused() {
    let v = only_value("x = 18446744073709551615;");
    assert!(matches!(v.body, Expr::Int(_, u64::MAX)));
    let (tokens, errors) = tokenize("x = 18446744073709551616;");
    assert!(tokens.is_none());
    assert_eq!(errors.len(), 1);
    assert_eq!(errors[0].kind, LexErrorKind::IntegerTooLarge);
    assert_eq!(errors[0].span, Span { start: 4, end: 24 });
}

#[test]
fn operators_win_over_their_prefixes() {
    assert_eq!(
        kinds("-> |> <| | $ & = : ; . , ( )"),
        vec![
            TokenKind::Arrow,
            TokenKind::PipeInto,
            TokenKind::PipeFrom,
            TokenKind::Pipe,
            TokenKind::DollarSign,
            TokenKind::Ampersand,
            TokenKind::Equal,
            TokenKind::Colon,
            TokenKind::Semicolon,
            TokenKind::Period,
            TokenKind::Comma,
            TokenKind::OpenParen,
            TokenKind::CloseParen,
        ]
    );
    assert_eq!(kinds("|>|"), vec![TokenKind::PipeInto, TokenKind::Pipe]);
    assert_eq!(kinds("<||"), vec![TokenKind::PipeFrom, TokenKind::Pipe]);
}

#[test]
fn keywords_and_identifiers() {
    assert_eq!(
        kinds("let in if then else letter index _x1"),
        vec![
            TokenKind::Let,
            TokenKind::In,
            TokenKind::If,
            TokenKind::Then,
            TokenKind::Else,
            TokenKind::Name,
            TokenKind::Name,
            TokenKind::Name,
        ]
    );
    let tokens = lex_ok("letter");
    assert_eq!(tokens[0].text, b"letter");
}

#[test]
fn comments_and_blanks_are_skipped() {
    let tokens = lex_ok("x # a comment, with symbols ~ and é\n\t= 1;");
    let ks: Vec<TokenKind> = tokens.iter().map(|t| t.kind).collect();
    assert_eq!(ks, vec![TokenKind::Name, TokenKind::Equal, TokenKind::Int, TokenKind::Semicolon]);
}

#[test]
fn every_bad_character_is_reported() {
    let (tokens, errors) = tokenize("x = 1 ~ 2 é;");
    assert!(tokens.is_none());
    assert_eq!(errors.len(), 2);
    assert_eq!(errors[0].kind, LexErrorKind::UnexpectedCharacter);
    assert_eq!(errors[0].span, Span { start: 6, end: 7 });
    assert_eq!(errors[1].span, Span { start: 10, end: 12 });
}

#[test]
fn relexing_a_token_gives_the_same_kind() {
    let src = "f = let a = 42.5; in a |> g <| (h 7) -> x;";
    for t in lex_ok(src) {
        let text = slice(src, t.span);
        let again = lex_ok(text);
        assert_eq!(again.len(), 1, "{:?}", text);
        assert_eq!(again[0].kind, t.kind);
        assert_eq!(again[0].span, Span { start: 0, end: text.len() });
    }
}

#[test]
fn same_input_gives_same_result() {
    let src = "a = f x |> g; b = ; T | x :Int64;";
    let first = parse(&lex_ok(src));
    let second = parse(&lex_ok(src));
    assert_eq!(format!("{:?}", first), format!("{:?}", second));
}

#[test]
fn children_lie_inside_their_parents() {
    let src = "x = f a |> g (h b);";
    let v = only_value(src);
    fn check(e: &Expr) {
        if let Expr::Call(span, f, a) = e {
            let (fs, as_) = (span_of(f), span_of(a));
            let (first, second) = if fs.start <= as_.start { (fs, as_) } else { (as_, fs) };
            assert!(span.start <= first.start && first.end <= second.start && second.end <= span.end);
            check(f);
            check(a);
        }
    }
    fn span_of(e: &Expr) -> Span {
        e.span()
    }
    check(&v.body);
}

#[test]
fn token_kinds_read_as_written() {
    assert_eq!(TokenKind::Arrow.text(), "->");
    assert_eq!(TokenKind::PipeInto.text(), "|>");
    assert_eq!(TokenKind::OpenParen.text(), "(");
    assert_eq!(TokenKind::Name.text(), "name");
    assert_eq!(TokenKind::Int.text(), "int");
}

#[test]
fn names_are_equal_by_text() {
    let v = only_value("x = x;");
    match &v.body {
        Expr::SymbolRef(_, n) => {
            assert_ne!(n.span, v.name.span);
            assert!(*n == v.name);
        }
        other => panic!("expected a name, got {:?}", other),
    }
    let y = only_value("y = 1;");
    assert!(y.name != v.name);
}

#[test]
fn decimal_values() {
    assert_eq!(decimal_in(b"x = 123;", 4, 7), Some(123));
    assert_eq!(decimal_in(b"0", 0, 1), Some(0));
    assert_eq!(decimal_in(b"007", 0, 3), Some(7));
    assert_eq!(decimal_in(b"18446744073709551615", 0, 20), Some(u64::MAX));
    assert_eq!(decimal_in(b"18446744073709551616", 0, 20), None);
    assert_eq!(decimal_in(b"", 0, 0), Some(0));
}

#[test]
fn labels_read_as_written() {
    assert_eq!(Label::FunctionDefinition.text(), "function definition");
    assert_eq!(Label::LetExpression.text(), "let expression");
    assert_eq!(Label::TypeReference.text(), "type reference");
}

#[test]
fn error_inside_let_is_reported_where_it_is() {
    let errors = parse_errors("f = let a = ; in a; g = 2;");
    assert_eq!(errors.len(), 1);
    assert_eq!(errors[0].span, Span { start: 12, end: 13 });
    let labels: Vec<Label> = errors[0].context.iter().map(|c| c.label).collect();
    assert_eq!(
        labels,
        vec![
            Label::ValueDefinition,
            Label::Expression,
            Label::LetExpression,
            Label::ValueDefinition,
            Label::Expression,
        ]
    );
}

#[test]
fn two_malformed_definitions_around_lets_give_two_errors() {
    let src = "f = let a = ; in a; g = 2; h = let b = 1; in );";
    let errors = parse_errors(src);
    assert_eq!(errors.len(), 2);
    assert_eq!(errors[0].span, Span { start: 12, end: 13 });
    assert_eq!(slice(src, errors[1].span), ")");
    assert_eq!(errors[1].span.start, 45);
}
