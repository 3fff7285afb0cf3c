use dreammaker::ast::{AssignOp, BinaryOp, Expression, Follow, NewType, PathOp, Prefab, Term, UnaryOp};
use dreammaker::lexer::{LocatedToken, Punctuation, Token};
use dreammaker::location::{DMError, Location};
use dreammaker::ops::{find_operator, Op};
use dreammaker::parser::Parser;

fn input(tokens: Vec<Token>) -> Vec<Result<LocatedToken, DMError>> {
    let mut items = Vec::new();
    let mut line = 1;
    for token in tokens {
        items.push(Ok(LocatedToken::new(Location::new(1, line, 1), token)));
        line += 1;
    }
    items
}

fn id(name: &str) -> Token {
    Token::Ident(name.to_string(), false)
}

fn p(punctuation: Punctuation) -> Token {
    Token::Punct(punctuation)
}

fn base(term: Term) -> Expression {
    Expression::Base { unary: vec![], term, follow: vec![] }
}

fn lit(i: i32) -> Expression {
    base(Term::Int(i))
}

fn name(text: &str) -> Expression {
    base(Term::Ident(text.to_string()))
}

fn binary(op: BinaryOp, lhs: Expression, rhs: Expression) -> Expression {
    Expression::BinaryOp { op, lhs: Box::new(lhs), rhs: Box::new(rhs) }
}

fn assign(op: AssignOp, lhs: Expression, rhs: Expression) -> Expression {
    Expression::AssignOp { op, lhs: Box::new(lhs), rhs: Box::new(rhs) }
}

fn parse_expression(tokens: Vec<Token>) -> Expression {
    let mut parser = Parser::new(input(tokens));
    parser.expression(false).unwrap().unwrap()
}

#[test]
fn multiplication_binds_tighter_than_addition() {
    let parsed = parse_expression(vec![Token::Int(1), p(Punctuation::Add), Token::Int(2), p(Punctuation::Mul), Token::Int(3)]);
    assert_eq!(parsed, binary(BinaryOp::Add, lit(1), binary(BinaryOp::Mul, lit(2), lit(3))));
}

#[test]
fn stronger_operator_first_then_weaker() {
    let parsed = parse_expression(vec![Token::Int(1), p(Punctuation::Mul), Token::Int(2), p(Punctuation::Add), Token::Int(3)]);
    assert_eq!(parsed, binary(BinaryOp::Add, binary(BinaryOp::Mul, lit(1), lit(2)), lit(3)));
}

#[test]
fn assignment_folds_to_the_right() {
    let parsed = parse_expression(vec![id("a"), p(Punctuation::Assign), id("b"), p(Punctuation::Assign), id("c")]);
    assert_eq!(parsed, assign(AssignOp::Assign, name("a"), assign(AssignOp::Assign, name("b"), name("c"))));
}

#[test]
fn subtraction_folds_to_the_left() {
    let parsed = parse_expression(vec![Token::Int(1), p(Punctuation::Sub), Token::Int(2), p(Punctuation::Sub), Token::Int(3)]);
    assert_eq!(parsed, binary(BinaryOp::Sub, binary(BinaryOp::Sub, lit(1), lit(2)), lit(3)));
}

#[test]
fn equal_strength_run_mixes_operators() {
    // 1 - 2 + 3 - 4
    let parsed = parse_expression(vec![
        Token::Int(1),
        p(Punctuation::Sub),
        Token::Int(2),
        p(Punctuation::Add),
        Token::Int(3),
        p(Punctuation::Sub),
        Token::Int(4),
    ]);
    let expected = binary(
        BinaryOp::Sub,
        binary(BinaryOp::Add, binary(BinaryOp::Sub, lit(1), lit(2)), lit(3)),
        lit(4),
    );
    assert_eq!(parsed, expected);
}

#[test]
fn mixed_assignment_operators_fold_to_the_right() {
    // a += b -= c = d
    let parsed = parse_expression(vec![
        id("a"),
        p(Punctuation::AddAssign),
        id("b"),
        p(Punctuation::SubAssign),
        id("c"),
        p(Punctuation::Assign),
        id("d"),
    ]);
    let expected = assign(
        AssignOp::AddAssign,
        name("a"),
        assign(AssignOp::SubAssign, name("b"), assign(AssignOp::Assign, name("c"), name("d"))),
    );
    assert_eq!(parsed, expected);
}

#[test]
fn assignment_of_a_sum_of_products() {
    // a = b + c * d ** e - f
    let parsed = parse_expression(vec![
        id("a"),
        p(Punctuation::Assign),
        id("b"),
        p(Punctuation::Add),
        id("c"),
        p(Punctuation::Mul),
        id("d"),
        p(Punctuation::Pow),
        id("e"),
        p(Punctuation::Sub),
        id("f"),
    ]);
    let product = binary(BinaryOp::Mul, name("c"), binary(BinaryOp::Pow, name("d"), name("e")));
    let sum = binary(BinaryOp::Sub, binary(BinaryOp::Add, name("b"), product), name("f"));
    assert_eq!(parsed, assign(AssignOp::Assign, name("a"), sum));
}

#[test]
fn weaker_operator_after_a_nested_run_returns_to_the_outer_run() {
    // 1 || 2 && 3 == 4 || 5
    let parsed = parse_expression(vec![
        Token::Int(1),
        p(Punctuation::Or),
        Token::Int(2),
        p(Punctuation::And),
        Token::Int(3),
        p(Punctuation::Eq),
        Token::Int(4),
        p(Punctuation::Or),
        Token::Int(5),
    ]);
    let and = binary(BinaryOp::And, lit(2), binary(BinaryOp::Eq, lit(3), lit(4)));
    assert_eq!(parsed, binary(BinaryOp::Or, binary(BinaryOp::Or, lit(1), and), lit(5)));
}

#[test]
fn slash_between_operands_divides() {
    let parsed = parse_expression(vec![Token::Int(6), p(Punctuation::Slash), Token::Int(3)]);
    assert_eq!(parsed, binary(BinaryOp::Div, lit(6), lit(3)));
}

#[test]
fn both_spellings_of_not_equal() {
    let a = parse_expression(vec![id("a"), p(Punctuation::NotEq), id("b")]);
    let b = parse_expression(vec![id("a"), p(Punctuation::LessGreater), id("b")]);
    assert_eq!(a, binary(BinaryOp::NotEq, name("a"), name("b")));
    assert_eq!(a, b);
}

#[test]
fn new_with_type_path_and_two_arguments() {
    let parsed = parse_expression(vec![
        id("new"),
        p(Punctuation::Slash),
        id("obj"),
        p(Punctuation::Slash),
        id("item"),
        p(Punctuation::LParen),
        Token::Int(1),
        p(Punctuation::Comma),
        Token::Int(2),
        p(Punctuation::RParen),
    ]);
    let path = vec![(PathOp::Slash, "obj".to_string()), (PathOp::Slash, "item".to_string())];
    let expected = base(Term::New { type_: NewType::Prefab(Prefab::new(path)), args: Some(vec![lit(1), lit(2)]) });
    assert_eq!(parsed, expected);
}

#[test]
fn new_with_implicit_type_and_empty_arguments() {
    let parsed = parse_expression(vec![id("new"), p(Punctuation::LParen), p(Punctuation::RParen)]);
    assert_eq!(parsed, base(Term::New { type_: NewType::Implicit, args: Some(vec![]) }));
}

#[test]
fn new_alone_has_no_arguments() {
    let parsed = parse_expression(vec![id("new")]);
    assert_eq!(parsed, base(Term::New { type_: NewType::Implicit, args: None }));
}

#[test]
fn new_with_a_type_name() {
    let parsed = parse_expression(vec![id("new"), id("thing"), p(Punctuation::LParen), id("x"), p(Punctuation::RParen)]);
    let expected = base(Term::New { type_: NewType::Ident("thing".to_string()), args: Some(vec![name("x")]) });
    assert_eq!(parsed, expected);
}

#[test]
fn literals() {
    assert_eq!(parse_expression(vec![Token::String("hi".to_string())]), base(Term::String("hi".to_string())));
    assert_eq!(parse_expression(vec![Token::Resource("a.png".to_string())]), base(Term::Resource("a.png".to_string())));
    assert_eq!(parse_expression(vec![Token::Int(-7)]), base(Term::Int(-7)));
    let bits = 1.5f32.to_bits();
    let parsed = parse_expression(vec![Token::Float(bits)]);
    assert_eq!(parsed, base(Term::Float(bits)));
    match parsed {
        Expression::Base { term: Term::Float(b), .. } => assert_eq!(f32::from_bits(b), 1.5f32),
        _ => panic!("not a float"),
    }
}

#[test]
fn call_and_bare_identifier() {
    let call = parse_expression(vec![id("f"), p(Punctuation::LParen), Token::Int(1), p(Punctuation::RParen)]);
    assert_eq!(call, base(Term::Call("f".to_string(), vec![lit(1)])));
    assert_eq!(parse_expression(vec![id("f")]), name("f"));
}

#[test]
fn parenthesized_expression() {
    // (1 + 2) * 3
    let parsed = parse_expression(vec![
        p(Punctuation::LParen),
        Token::Int(1),
        p(Punctuation::Add),
        Token::Int(2),
        p(Punctuation::RParen),
        p(Punctuation::Mul),
        Token::Int(3),
    ]);
    let inner = base(Term::Expr(Box::new(binary(BinaryOp::Add, lit(1), lit(2)))));
    assert_eq!(parsed, binary(BinaryOp::Mul, inner, lit(3)));
}

#[test]
fn unary_operators_in_order() {
    let parsed = parse_expression(vec![p(Punctuation::Sub), p(Punctuation::Not), p(Punctuation::BitNot), id("x")]);
    let expected = Expression::Base {
        unary: vec![UnaryOp::Neg, UnaryOp::Not, UnaryOp::BitNot],
        term: Term::Ident("x".to_string()),
        follow: vec![],
    };
    assert_eq!(parsed, expected);
}

#[test]
fn unary_operator_without_a_term_is_fatal() {
    let mut parser = Parser::new(input(vec![p(Punctuation::Sub), p(Punctuation::Semicolon)]));
    let error = parser.expression(false).unwrap_err();
    assert_eq!(error.description(), "got ;, expected one of: unary operator, term");
    assert_eq!(error.location(), Location::new(1, 2, 1));
}

#[test]
fn follows_chain_left_to_right() {
    // a.b(1)[2].c as d
    let parsed = parse_expression(vec![
        id("a"),
        p(Punctuation::Dot),
        id("b"),
        p(Punctuation::LParen),
        Token::Int(1),
        p(Punctuation::RParen),
        p(Punctuation::LBracket),
        Token::Int(2),
        p(Punctuation::RBracket),
        p(Punctuation::Dot),
        id("c"),
        id("as"),
        id("d"),
    ]);
    let expected = Expression::Base {
        unary: vec![],
        term: Term::Ident("a".to_string()),
        follow: vec![
            Follow::Call("b".to_string(), vec![lit(1)]),
            Follow::Index(Box::new(lit(2))),
            Follow::Field("c".to_string()),
            Follow::Cast("d".to_string()),
        ],
    };
    assert_eq!(parsed, expected);
}

#[test]
fn list_literal_with_keyed_entries() {
    // list(1, "k" = 2, x)
    let parsed = parse_expression(vec![
        id("list"),
        p(Punctuation::LParen),
        Token::Int(1),
        p(Punctuation::Comma),
        Token::String("k".to_string()),
        p(Punctuation::Assign),
        Token::Int(2),
        p(Punctuation::Comma),
        id("x"),
        p(Punctuation::RParen),
    ]);
    let expected = base(Term::List(vec![
        (lit(1), None),
        (base(Term::String("k".to_string())), Some(lit(2))),
        (name("x"), None),
    ]));
    assert_eq!(parsed, expected);
}

#[test]
fn list_without_parentheses_is_an_identifier() {
    assert_eq!(parse_expression(vec![id("list")]), name("list"));
}

#[test]
fn trailing_comma_is_accepted() {
    let parsed = parse_expression(vec![
        id("f"),
        p(Punctuation::LParen),
        Token::Int(1),
        p(Punctuation::Comma),
        p(Punctuation::RParen),
    ]);
    assert_eq!(parsed, base(Term::Call("f".to_string(), vec![lit(1)])));
}

#[test]
fn two_elements_without_a_comma_are_fatal() {
    let mut parser = Parser::new(input(vec![
        id("f"),
        p(Punctuation::LParen),
        Token::Int(1),
        Token::Int(2),
        p(Punctuation::RParen),
    ]));
    let error = parser.expression(false).unwrap_err();
    assert_eq!(
        error.description(),
        "got 2, expected one of: field, index, or function call, binary operator, list element"
    );
    assert_eq!(error.location(), Location::new(1, 4, 1));
}

#[test]
fn prefab_with_overrides() {
    // /obj/item{a = 1; b = 2; a = 3}
    let parsed = parse_expression(vec![
        p(Punctuation::Slash),
        id("obj"),
        p(Punctuation::Slash),
        id("item"),
        p(Punctuation::LBrace),
        id("a"),
        p(Punctuation::Assign),
        Token::Int(1),
        p(Punctuation::Semicolon),
        id("b"),
        p(Punctuation::Assign),
        Token::Int(2),
        p(Punctuation::Semicolon),
        id("a"),
        p(Punctuation::Assign),
        Token::Int(3),
        p(Punctuation::RBrace),
    ]);
    let prefab = match parsed {
        Expression::Base { term: Term::Prefab(prefab), .. } => prefab,
        other => panic!("not a prefab: {:?}", other),
    };
    assert_eq!(prefab.path(), &vec![(PathOp::Slash, "obj".to_string()), (PathOp::Slash, "item".to_string())]);
    let vars = prefab.vars();
    assert_eq!(vars.len(), 2);
    assert_eq!(vars[0], ("b".to_string(), &lit(2)));
    assert_eq!(vars[1], ("a".to_string(), &lit(3)));
}

#[test]
fn prefab_separators_are_kept() {
    let parsed = parse_expression(vec![p(Punctuation::Dot), id("a"), p(Punctuation::Colon), id("b"), p(Punctuation::Slash), id("c")]);
    let path = vec![(PathOp::Dot, "a".to_string()), (PathOp::Colon, "b".to_string()), (PathOp::Slash, "c".to_string())];
    assert_eq!(parsed, base(Term::Prefab(Prefab::new(path))));
}

#[test]
fn prefab_separator_without_identifier_adds_nothing() {
    let mut parser = Parser::new(input(vec![p(Punctuation::Slash), id("a"), p(Punctuation::Slash), p(Punctuation::Semicolon)]));
    let parsed = parser.expression(false).unwrap().unwrap();
    assert_eq!(parsed, base(Term::Prefab(Prefab::new(vec![(PathOp::Slash, "a".to_string())]))));
    assert_eq!(parser.next("").unwrap(), p(Punctuation::Semicolon));
}

#[test]
fn prefab_needs_an_identifier_after_its_separator() {
    let mut parser = Parser::new(input(vec![p(Punctuation::Slash), Token::Int(1)]));
    let error = parser.expression(false).unwrap_err();
    assert_eq!(error.description(), "got 1, expected one of: identifier");
}

#[test]
fn prefab_insert_replaces_and_moves_to_the_end() {
    let prefab = Prefab::new(vec![(PathOp::Slash, "a".to_string())])
        .insert("x".to_string(), lit(1))
        .insert("y".to_string(), lit(2))
        .insert("x".to_string(), lit(3));
    let vars = prefab.vars();
    assert_eq!(vars, vec![("y".to_string(), &lit(2)), ("x".to_string(), &lit(3))]);
}

#[test]
fn disallowed_assignment_is_left_unread() {
    let mut parser = Parser::new(input(vec![id("a"), p(Punctuation::Assign), id("b")]));
    let parsed = parser.expression(true).unwrap().unwrap();
    assert_eq!(parsed, name("a"));
    assert_eq!(parser.next("").unwrap(), p(Punctuation::Assign));
}

#[test]
fn no_expression_leaves_the_token_unread() {
    let mut parser = Parser::new(input(vec![p(Punctuation::Semicolon), id("a")]));
    assert_eq!(parser.expression(false), Ok(None));
    assert_eq!(parser.next("").unwrap(), p(Punctuation::Semicolon));
    assert_eq!(parser.next("").unwrap(), id("a"));
}

#[test]
fn missing_closing_parenthesis_is_fatal() {
    let mut parser = Parser::new(input(vec![p(Punctuation::LParen), Token::Int(1), p(Punctuation::Semicolon)]));
    let error = parser.expression(false).unwrap_err();
    assert_eq!(
        error.description(),
        "got ;, expected one of: field, index, or function call, binary operator, )"
    );
}

#[test]
fn operator_without_right_operand_is_fatal() {
    let mut parser = Parser::new(input(vec![Token::Int(1), p(Punctuation::Add)]));
    let error = parser.expression(false).unwrap_err();
    // The end of the input is no token of the input: reading it does not
    // start the list of what was looked for anew.
    assert_eq!(
        error.description(),
        "got end of file, expected one of: field, index, or function call, binary operator, unary operator, term"
    );
    assert_eq!(error.location(), Location::new(1, 2, 1));
}

#[test]
fn three_operands_for_every_pair_of_operators() {
    let operators = [
        Punctuation::Pow,
        Punctuation::Mul,
        Punctuation::Slash,
        Punctuation::Mod,
        Punctuation::Add,
        Punctuation::Sub,
        Punctuation::Less,
        Punctuation::GreaterEq,
        Punctuation::LShift,
        Punctuation::Eq,
        Punctuation::LessGreater,
        Punctuation::BitAnd,
        Punctuation::BitOr,
        Punctuation::And,
        Punctuation::Or,
        Punctuation::Assign,
        Punctuation::AddAssign,
        Punctuation::RShiftAssign,
    ];
    let build = |op: Op, lhs: Expression, rhs: Expression| op.build(Box::new(lhs), Box::new(rhs));
    for first in operators {
        for second in operators {
            let one = find_operator(first).unwrap();
            let two = find_operator(second).unwrap();
            let parsed = parse_expression(vec![Token::Int(1), p(first), Token::Int(2), p(second), Token::Int(3)]);
            let expected = if two.strength > one.strength || (two.strength == one.strength && one.right_binding) {
                build(one.oper, lit(1), build(two.oper, lit(2), lit(3)))
            } else {
                build(two.oper, build(one.oper, lit(1), lit(2)), lit(3))
            };
            assert_eq!(parsed, expected, "{:?} {:?}", first, second);
        }
    }
}

#[test]
fn four_operands_climb_and_return() {
    // 1 + 2 * 3 ** 4 - 5
    let parsed = parse_expression(vec![
        Token::Int(1),
        p(Punctuation::Add),
        Token::Int(2),
        p(Punctuation::Mul),
        Token::Int(3),
        p(Punctuation::Pow),
        Token::Int(4),
        p(Punctuation::Sub),
        Token::Int(5),
    ]);
    let product = binary(BinaryOp::Mul, lit(2), binary(BinaryOp::Pow, lit(3), lit(4)));
    assert_eq!(parsed, binary(BinaryOp::Sub, binary(BinaryOp::Add, lit(1), product), lit(5)));
}
