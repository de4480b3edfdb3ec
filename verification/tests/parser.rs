use possum::ast::{parse, Error, Expr, ExprType, Primary, Tokens};
use possum::lexer::{lex, Literal, Scalar, Span, Token};

fn tokenize(source: &str) -> Vec<(Token<'_>, Span)> {
    lex(source)
        .into_iter()
        .map(|(result, span)| (result.expect("a lexical error"), span))
        .collect()
}

fn symbol(tag: Scalar) -> &'static str {
    match tag {
        Scalar::Plus => "+",
        Scalar::Minus => "-",
        Scalar::Star => "*",
        Scalar::Slash => "/",
        Scalar::Modulo => "%",
        Scalar::Bang => "!",
        Scalar::Equal => "==",
        Scalar::NotEqual => "!=",
        Scalar::GreaterEqual => ">=",
        Scalar::LessEqual => "<=",
        Scalar::Greater => ">",
        Scalar::Less => "<",
        _ => "?",
    }
}

fn show(expr: &Expr) -> String {
    match &expr.ty {
        ExprType::Binary(b) => format!("({} {} {})", show(&b.lhs), symbol(b.op.sc), show(&b.rhs)),
        ExprType::Unary(u) => format!("({} {})", symbol(u.op.sc), show(&u.rhs)),
        ExprType::Primary(p) => match &**p {
            Primary::Literal(Literal::Integer(n)) => format!("{}", n),
            Primary::Literal(other) => format!("{:?}", other),
            Primary::Identifier(name) => format!("{}", name),
            Primary::Block { expr, .. } => format!("[{}]", show(expr)),
        },
        ExprType::Invalid => String::from("<invalid>"),
    }
}

fn parsed(source: &str) -> (String, Vec<(usize, usize)>, usize) {
    let tokens = tokenize(source);
    let mut cursor = Tokens::new(&tokens);
    let (expr, errors) = parse(&mut cursor);
    let mut left = 0;
    while cursor.next().is_some() {
        left += 1;
    }
    (show(&expr), errors.iter().map(|(_, span)| (span.start, span.end)).collect(), left)
}

fn check_spans(expr: &Expr) {
    match &expr.ty {
        ExprType::Binary(b) => {
            assert_eq!(expr.span.start, b.lhs.span.start);
            assert_eq!(expr.span.end, b.rhs.span.end);
            check_spans(&b.lhs);
            check_spans(&b.rhs);
        }
        ExprType::Unary(u) => {
            assert_eq!(expr.span.start, u.op.sp.start);
            assert_eq!(expr.span.end, u.rhs.span.end);
            check_spans(&u.rhs);
        }
        _ => {}
    }
}

fn check_contained(expr: &Expr) {
    let inside = |span: &Span| expr.span.start <= span.start && span.end <= expr.span.end;
    match &expr.ty {
        ExprType::Binary(b) => {
            assert!(inside(&b.lhs.span) && inside(&b.op.sp) && inside(&b.rhs.span));
            check_contained(&b.lhs);
            check_contained(&b.rhs);
        }
        ExprType::Unary(u) => {
            assert!(inside(&u.op.sp) && inside(&u.rhs.span));
            check_contained(&u.rhs);
        }
        _ => {}
    }
}

#[test]
fn subtraction_associates_to_the_left() {
    assert_eq!(parsed("1 - 2 - 3"), (String::from("((1 - 2) - 3)"), vec![], 0));
}

#[test]
fn multiplication_binds_tighter_than_addition() {
    assert_eq!(parsed("1 + 2 * 3"), (String::from("(1 + (2 * 3))"), vec![], 0));
    assert_eq!(parsed("1 * 2 + 3"), (String::from("((1 * 2) + 3)"), vec![], 0));
}

#[test]
fn every_level_in_its_place() {
    assert_eq!(
        parsed("a == b + 1 < c * 2 != d"),
        (String::from("((a == ((b + 1) < (c * 2))) != d)"), vec![], 0)
    );
    assert_eq!(parsed("a / b % c * d"), (String::from("(((a / b) % c) * d)"), vec![], 0));
    assert_eq!(parsed("a < b <= c > d >= e"), (
        String::from("((((a < b) <= c) > d) >= e)"),
        vec![],
        0
    ));
    assert_eq!(parsed("a + b - c"), (String::from("((a + b) - c)"), vec![], 0));
}

#[test]
fn prefix_operators_nest_to_the_right() {
    assert_eq!(parsed("- - x"), (String::from("(- (- x))"), vec![], 0));
    assert_eq!(parsed("!+-1 * 2"), (String::from("((! (+ (- 1))) * 2)"), vec![], 0));
    assert_eq!(parsed("1 - -2"), (String::from("(1 - (- 2))"), vec![], 0));
}

#[test]
fn lone_left_brace_is_one_invalid_node() {
    let tokens = vec![(Token::Scalar(Scalar::LeftBrace), Span { start: 4, end: 5 })];
    let mut cursor = Tokens::new(&tokens);
    let (expr, errors) = parse(&mut cursor);
    assert!(matches!(expr.ty, ExprType::Invalid));
    assert_eq!(expr.span, Span { start: 4, end: 5 });
    assert_eq!(errors.len(), 1);
    assert_eq!(errors[0], (Error::Unimplemented, Span { start: 4, end: 5 }));
    assert!(cursor.peek().is_none());
    assert!(cursor.next().is_none());
}

#[test]
fn recovery_takes_exactly_one_token() {
    assert_eq!(parsed("{ 1"), (String::from("<invalid>"), vec![(0, 1)], 1));
    assert_eq!(parsed("{ + 1"), (String::from("(<invalid> + 1)"), vec![(0, 1)], 0));
    assert_eq!(
        parsed("1 + ) * 2"),
        (String::from("(1 + (<invalid> * 2))"), vec![(4, 5)], 0)
    );
    assert_eq!(
        parsed("let + if"),
        (String::from("(<invalid> + <invalid>)"), vec![(0, 3), (6, 8)], 0)
    );
}

#[test]
fn exhausted_input_is_an_empty_invalid_node() {
    let tokens: Vec<(Token, Span)> = Vec::new();
    let mut cursor = Tokens::new(&tokens);
    let (expr, errors) = parse(&mut cursor);
    assert!(matches!(expr.ty, ExprType::Invalid));
    assert_eq!(expr.span, Span { start: 0, end: 0 });
    assert_eq!(errors, vec![(Error::Unimplemented, Span { start: 0, end: 0 })]);
    assert_eq!(parsed("1 +"), (String::from("(1 + <invalid>)"), vec![(3, 3)], 0));
    assert_eq!(parsed("-"), (String::from("(- <invalid>)"), vec![(1, 1)], 0));
    assert_eq!(parsed("  a *  "), (String::from("(a * <invalid>)"), vec![(5, 5)], 0));
}

#[test]
fn parsing_stops_where_no_operator_follows() {
    assert_eq!(parsed("1 2 3"), (String::from("1"), vec![], 2));
    assert_eq!(parsed("a = 1"), (String::from("a"), vec![], 2));
}

#[test]
fn parenthesis_is_no_primary() {
    assert_eq!(
        parsed("-1 + 2 * (x - 3)"),
        (String::from("((- 1) + (2 * <invalid>))"), vec![(9, 10)], 4)
    );
}

#[test]
fn end_to_end_tree() {
    let tokens = tokenize("-1 + 2 * (x - 3)");
    assert_eq!(tokens.len(), 10);
    let mut cursor = Tokens::new(&tokens);
    let (expr, errors) = parse(&mut cursor);
    let root = match &expr.ty {
        ExprType::Binary(b) => b,
        other => panic!("{:?}", other),
    };
    assert_eq!(root.op.sc, Scalar::Plus);
    assert_eq!(root.op.sp, Span { start: 3, end: 4 });
    match &root.lhs.ty {
        ExprType::Unary(u) => {
            assert_eq!(u.op.sc, Scalar::Minus);
            assert_eq!(show(&u.rhs), "1");
        }
        other => panic!("{:?}", other),
    }
    match &root.rhs.ty {
        ExprType::Binary(b) => {
            assert_eq!(b.op.sc, Scalar::Star);
            assert_eq!(show(&b.lhs), "2");
            assert!(matches!(b.rhs.ty, ExprType::Invalid));
            assert_eq!(b.rhs.span, Span { start: 9, end: 10 });
        }
        other => panic!("{:?}", other),
    }
    assert_eq!(errors, vec![(Error::Unimplemented, Span { start: 9, end: 10 })]);
    assert!(matches!(cursor.peek(), Some((Token::Identifier("x"), _))));
}

#[test]
fn spans_come_from_the_outermost_children() {
    for source in ["1 - 2 - 3", "-a * !b + c == d", "1 + ) * 2", "1 +", "- - -", "{", ""] {
        let tokens = tokenize(source);
        let mut cursor = Tokens::new(&tokens);
        let (expr, _) = parse(&mut cursor);
        check_spans(&expr);
    }
    let tokens = tokenize("  12 + -abc * 3");
    let mut cursor = Tokens::new(&tokens);
    let (expr, _) = parse(&mut cursor);
    assert_eq!(expr.span, Span { start: 2, end: 15 });
    match &expr.ty {
        ExprType::Binary(b) => {
            assert_eq!(b.lhs.span, Span { start: 2, end: 4 });
            assert_eq!(b.op.sp, Span { start: 5, end: 6 });
            assert_eq!(b.rhs.span, Span { start: 7, end: 15 });
            match &b.rhs.ty {
                ExprType::Binary(m) => {
                    assert_eq!(m.lhs.span, Span { start: 7, end: 11 });
                    match &m.lhs.ty {
                        ExprType::Unary(u) => {
                            assert_eq!(u.op.sp, Span { start: 7, end: 8 });
                            assert_eq!(u.rhs.span, Span { start: 8, end: 11 });
                        }
                        other => panic!("{:?}", other),
                    }
                }
                other => panic!("{:?}", other),
            }
        }
        other => panic!("{:?}", other),
    }
}

#[test]
fn nodes_contain_their_children() {
    for source in [
        "1 - 2 - 3", "-a * !b + c == d", "x", "1 + ) * 2", "{ 1", "{ + 1", "1 +", "  - -", "",
        "a * ( +", "! ! ;  == ::",
    ] {
        let tokens = tokenize(source);
        let mut cursor = Tokens::new(&tokens);
        let (expr, _) = parse(&mut cursor);
        assert!(expr.span.start <= expr.span.end);
        check_contained(&expr);
    }
}

#[test]
fn a_tree_that_ends_with_the_input_ends_with_the_last_token() {
    let tokens = vec![
        (Token::Literal(Literal::Integer(1)), Span { start: 4, end: 5 }),
        (Token::Scalar(Scalar::Plus), Span { start: 6, end: 7 }),
    ];
    let mut cursor = Tokens::new(&tokens);
    assert_eq!(cursor.end(), Span { start: 7, end: 7 });
    let (expr, errors) = parse(&mut cursor);
    assert_eq!(expr.span, Span { start: 4, end: 7 });
    assert_eq!(errors, vec![(Error::Unimplemented, Span { start: 7, end: 7 })]);
    match &expr.ty {
        ExprType::Binary(b) => {
            assert_eq!(b.lhs.span, Span { start: 4, end: 5 });
            assert_eq!(b.rhs.span, Span { start: 7, end: 7 });
            assert!(matches!(b.rhs.ty, ExprType::Invalid));
        }
        other => panic!("{:?}", other),
    }
    check_contained(&expr);
    let tokens = tokenize("12 +");
    let mut cursor = Tokens::new(&tokens);
    let (expr, _) = parse(&mut cursor);
    assert_eq!(expr.span, Span { start: 0, end: 4 });
}

#[test]
fn one_error_for_each_invalid_node() {
    fn count(expr: &Expr) -> usize {
        match &expr.ty {
            ExprType::Binary(b) => count(&b.lhs) + count(&b.rhs),
            ExprType::Unary(u) => count(&u.rhs),
            ExprType::Primary(_) => 0,
            ExprType::Invalid => 1,
        }
    }
    for source in ["1", "{", "{ + }", "1 + ( * ) - 2 /", "", "! ! ;  == ::"] {
        let tokens = tokenize(source);
        let mut cursor = Tokens::new(&tokens);
        let (expr, errors) = parse(&mut cursor);
        assert_eq!(count(&expr), errors.len());
    }
}

#[test]
fn primaries_refer_to_their_tokens() {
    let tokens = tokenize("\"text\" + name");
    let mut cursor = Tokens::new(&tokens);
    let (expr, errors) = parse(&mut cursor);
    assert!(errors.is_empty());
    match &expr.ty {
        ExprType::Binary(b) => {
            match &b.lhs.ty {
                ExprType::Primary(p) => match &**p {
                    Primary::Literal(l) => match &tokens[0].0 {
                        Token::Literal(t) => assert!(std::ptr::eq(*l, t)),
                        other => panic!("{:?}", other),
                    },
                    other => panic!("{:?}", other),
                },
                other => panic!("{:?}", other),
            }
            match &b.rhs.ty {
                ExprType::Primary(p) => match &**p {
                    Primary::Identifier(name) => assert_eq!(*name, "name"),
                    other => panic!("{:?}", other),
                },
                other => panic!("{:?}", other),
            }
        }
        other => panic!("{:?}", other),
    }
}

#[test]
fn cursor_reads_forward_only() {
    let tokens = tokenize("a b");
    let mut cursor = Tokens::new(&tokens);
    assert!(matches!(cursor.peek(), Some((Token::Identifier("a"), _))));
    assert!(matches!(cursor.peek(), Some((Token::Identifier("a"), _))));
    assert!(matches!(cursor.next(), Some((Token::Identifier("a"), _))));
    assert!(matches!(cursor.next(), Some((Token::Identifier("b"), _))));
    assert!(cursor.peek().is_none());
    assert!(cursor.next().is_none());
    assert!(cursor.next().is_none());
}

#[test]
fn parsing_goes_on_from_the_cursor() {
    let tokens = tokenize("1 2 * 3");
    let mut cursor = Tokens::new(&tokens);
    let (first, _) = parse(&mut cursor);
    let (second, errors) = parse(&mut cursor);
    assert_eq!(show(&first), "1");
    assert_eq!(show(&second), "(2 * 3)");
    assert!(errors.is_empty());
}

#[test]
fn trees_can_be_copied() {
    let tokens = tokenize("-a * 2 + { == \"s\"");
    let mut cursor = Tokens::new(&tokens);
    let (expr, _) = parse(&mut cursor);
    let copy = expr.clone();
    assert_eq!(format!("{:?}", copy), format!("{:?}", expr));
    assert_eq!(show(&expr.duplicate()), "((((- a) * 2) + <invalid>) == String(\"s\"))");
    match &expr.ty {
        ExprType::Binary(b) => {
            assert_eq!(format!("{:?}", b.clone()), format!("{:?}", b));
        }
        other => panic!("{:?}", other),
    }
}

#[test]
fn syntax_errors_describe_themselves() {
    assert_eq!(Error::Unimplemented.message(), "unimplemented");
}

fn leaves(expr: &Expr, out: &mut Vec<Span>) {
    match &expr.ty {
        ExprType::Binary(b) => {
            leaves(&b.lhs, out);
            out.push(b.op.sp);
            leaves(&b.rhs, out);
        }
        ExprType::Unary(u) => {
            out.push(u.op.sp);
            leaves(&u.rhs, out);
        }
        _ => out.push(expr.span),
    }
}

fn rank(tag: Scalar) -> usize {
    match tag {
        Scalar::Equal | Scalar::NotEqual => 4,
        Scalar::GreaterEqual | Scalar::LessEqual | Scalar::Greater | Scalar::Less => 3,
        Scalar::Plus | Scalar::Minus => 2,
        Scalar::Star | Scalar::Slash | Scalar::Modulo => 1,
        _ => 0,
    }
}

fn binds_within(expr: &Expr, within: usize) -> bool {
    match &expr.ty {
        ExprType::Binary(b) => {
            let own = rank(b.op.sc);
            1 <= own && own <= within && binds_within(&b.lhs, own) && binds_within(&b.rhs, own - 1)
        }
        ExprType::Unary(u) => binds_within(&u.rhs, 0),
        _ => true,
    }
}

#[test]
fn leaves_are_the_tokens_taken() {
    for source in [
        "1", "1 - 2 * x", "-a * !b + c == d < e", "1 + ) * 2", "{ 1", "1 2 3", "a ; b",
        "! ! ! x / y",
    ] {
        let tokens = tokenize(source);
        let mut cursor = Tokens::new(&tokens);
        let (expr, _) = parse(&mut cursor);
        let mut left = 0;
        while cursor.next().is_some() {
            left += 1;
        }
        let taken: Vec<Span> = tokens[..tokens.len() - left].iter().map(|t| t.1).collect();
        let mut seen = Vec::new();
        leaves(&expr, &mut seen);
        assert_eq!(seen, taken, "{:?}", source);
    }
    for source in ["", "1 +", "- -", "a * ( +"] {
        let tokens = tokenize(source);
        let mut cursor = Tokens::new(&tokens);
        let (expr, _) = parse(&mut cursor);
        assert!(cursor.peek().is_none());
        let mut taken: Vec<Span> = tokens.iter().map(|t| t.1).collect();
        taken.push(Tokens::new(&tokens).end());
        let mut seen = Vec::new();
        leaves(&expr, &mut seen);
        assert_eq!(seen, taken, "{:?}", source);
    }
}

#[test]
fn operators_bind_by_their_level() {
    for source in [
        "1 - 2 - 3", "1 + 2 * 3", "a == b != c < d >= e + f - g * h / i % j", "-a * -b - -c",
        "a * b + c * d == e * f + g", "1 + ) * 2 == {", "a < b == c < d", "",
    ] {
        let tokens = tokenize(source);
        let mut cursor = Tokens::new(&tokens);
        let (expr, _) = parse(&mut cursor);
        assert!(binds_within(&expr, 4), "{:?}", source);
    }
}
