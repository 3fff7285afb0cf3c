use dreammaker::ast::{BinaryOp, Expression, Term};
use dreammaker::lexer::{LocatedToken, Punctuation, Token};
use dreammaker::location::{DMError, Location};
use dreammaker::objtree::{Declaration, ObjectTree};
use dreammaker::ops::{find_operator, Op};
use dreammaker::parser::{parse, Parser};
use dreammaker::path::{PathStack, PathWarning};

fn located(tokens: Vec<Token>) -> Vec<Result<LocatedToken, DMError>> {
    let mut items = Vec::new();
    let mut line = 1;
    for token in tokens {
        items.push(Ok(LocatedToken::new(Location::new(1, line, 1), token)));
        line += 1;
    }
    items
}

fn word(name: &str) -> Token {
    Token::Ident(name.to_string(), false)
}

fn sym(punctuation: Punctuation) -> Token {
    Token::Punct(punctuation)
}

fn path(segments: &[&str]) -> Vec<String> {
    segments.iter().map(|s| s.to_string()).collect()
}

fn number(i: i32) -> Expression {
    Expression::Base { unary: vec![], term: Term::Int(i), follow: vec![] }
}

fn declared(tokens: Vec<Token>) -> (ObjectTree, Vec<PathWarning>) {
    let (result, warnings) = parse(located(tokens));
    (result.unwrap(), warnings)
}

#[test]
fn bare_path_registers_its_segments() {
    let (tree, warnings) = declared(vec![
        word("a"),
        sym(Punctuation::Slash),
        word("b"),
        sym(Punctuation::Slash),
        word("c"),
        sym(Punctuation::Semicolon),
    ]);
    assert_eq!(
        tree.declarations(),
        &vec![Declaration::Entry { location: Location::new(1, 6, 1), path: path(&["a", "b", "c"]) }]
    );
    assert!(tree.is_finalized());
    assert!(warnings.is_empty());
}

#[test]
fn leading_slash_at_the_root_gives_no_warning() {
    let (tree, warnings) = declared(vec![sym(Punctuation::Slash), word("a"), sym(Punctuation::Semicolon)]);
    assert_eq!(
        tree.declarations(),
        &vec![Declaration::Entry { location: Location::new(1, 3, 1), path: path(&["a"]) }]
    );
    assert!(warnings.is_empty());
}

#[test]
fn paths_inside_a_block() {
    // /a/b { c/d; /x/y; }
    let (tree, warnings) = declared(vec![
        sym(Punctuation::Slash),
        word("a"),
        sym(Punctuation::Slash),
        word("b"),
        sym(Punctuation::LBrace),
        word("c"),
        sym(Punctuation::Slash),
        word("d"),
        sym(Punctuation::Semicolon),
        sym(Punctuation::Slash),
        word("x"),
        sym(Punctuation::Slash),
        word("y"),
        sym(Punctuation::Semicolon),
        sym(Punctuation::RBrace),
    ]);
    assert_eq!(
        tree.declarations(),
        &vec![
            Declaration::Entry { location: Location::new(1, 5, 1), path: path(&["a", "b"]) },
            Declaration::Entry { location: Location::new(1, 9, 1), path: path(&["a", "b", "c", "d"]) },
            Declaration::Entry { location: Location::new(1, 14, 1), path: path(&["x", "y"]) },
        ]
    );
    assert_eq!(
        warnings,
        vec![PathWarning { location: Location::new(1, 14, 1), path: path(&["x", "y"]), enclosing: path(&["a", "b"]) }]
    );
}

#[test]
fn blocks_nest() {
    // a { b { c; } d; }
    let (tree, warnings) = declared(vec![
        word("a"),
        sym(Punctuation::LBrace),
        word("b"),
        sym(Punctuation::LBrace),
        word("c"),
        sym(Punctuation::Semicolon),
        sym(Punctuation::RBrace),
        word("d"),
        sym(Punctuation::Semicolon),
        sym(Punctuation::RBrace),
    ]);
    let paths: Vec<Vec<String>> = tree
        .declarations()
        .iter()
        .map(|d| match d {
            Declaration::Entry { path, .. } => path.clone(),
            other => panic!("not an entry: {:?}", other),
        })
        .collect();
    assert_eq!(
        paths,
        vec![path(&["a"]), path(&["a", "b"]), path(&["a", "b", "c"]), path(&["a", "d"])]
    );
    assert!(warnings.is_empty());
}

#[test]
fn declarations_under_an_absolute_path_in_a_block_start_at_the_root() {
    // a { /b { c; } }
    let (tree, warnings) = declared(vec![
        word("a"),
        sym(Punctuation::LBrace),
        sym(Punctuation::Slash),
        word("b"),
        sym(Punctuation::LBrace),
        word("c"),
        sym(Punctuation::Semicolon),
        sym(Punctuation::RBrace),
        sym(Punctuation::RBrace),
    ]);
    let paths: Vec<Vec<String>> = tree
        .declarations()
        .iter()
        .map(|d| match d {
            Declaration::Entry { path, .. } => path.clone(),
            other => panic!("not an entry: {:?}", other),
        })
        .collect();
    assert_eq!(paths, vec![path(&["a"]), path(&["b"]), path(&["b", "c"])]);
    assert_eq!(warnings.len(), 1);
    assert_eq!(warnings[0].path, path(&["b"]));
    assert_eq!(warnings[0].enclosing, path(&["a"]));
}

#[test]
fn variable_with_initializer() {
    // a/x = 1 + 2;
    let (tree, _) = declared(vec![
        word("a"),
        sym(Punctuation::Slash),
        word("x"),
        sym(Punctuation::Assign),
        Token::Int(1),
        sym(Punctuation::Add),
        Token::Int(2),
        sym(Punctuation::Semicolon),
    ]);
    let value = Expression::BinaryOp { op: BinaryOp::Add, lhs: Box::new(number(1)), rhs: Box::new(number(2)) };
    assert_eq!(
        tree.declarations(),
        &vec![Declaration::Var { location: Location::new(1, 8, 1), path: path(&["a", "x"]), value }]
    );
}

#[test]
fn variable_with_list_size() {
    // x[10] = 5;
    let (tree, _) = declared(vec![
        word("x"),
        sym(Punctuation::LBracket),
        Token::Int(10),
        sym(Punctuation::RBracket),
        sym(Punctuation::Assign),
        Token::Int(5),
        sym(Punctuation::Semicolon),
    ]);
    assert_eq!(
        tree.declarations(),
        &vec![Declaration::Var { location: Location::new(1, 7, 1), path: path(&["x"]), value: number(5) }]
    );
}

#[test]
fn variable_without_semicolon_is_fatal() {
    let (result, _) = parse(located(vec![word("x"), sym(Punctuation::Assign), Token::Int(5), sym(Punctuation::RBrace)]));
    let error = result.unwrap_err();
    assert_eq!(
        error.description(),
        "got }, expected one of: field, index, or function call, binary operator, ;"
    );
    assert_eq!(error.location(), Location::new(1, 4, 1));
}

#[test]
fn procedure_with_body_of_any_balanced_tokens() {
    // f() { ) ] x { 1 [ } = } g;
    let (tree, _) = declared(vec![
        word("f"),
        sym(Punctuation::LParen),
        sym(Punctuation::RParen),
        sym(Punctuation::LBrace),
        sym(Punctuation::RParen),
        sym(Punctuation::RBracket),
        word("x"),
        sym(Punctuation::LBrace),
        Token::Int(1),
        sym(Punctuation::LBracket),
        sym(Punctuation::RBrace),
        sym(Punctuation::Assign),
        sym(Punctuation::RBrace),
        word("g"),
        sym(Punctuation::Semicolon),
    ]);
    assert_eq!(
        tree.declarations(),
        &vec![
            Declaration::Proc { location: Location::new(1, 2, 1), path: path(&["f"]) },
            Declaration::Entry { location: Location::new(1, 15, 1), path: path(&["g"]) },
        ]
    );
}

#[test]
fn procedure_without_body() {
    // a/f(x, (y)); b;
    let (tree, _) = declared(vec![
        word("a"),
        sym(Punctuation::Slash),
        word("f"),
        sym(Punctuation::LParen),
        word("x"),
        sym(Punctuation::Comma),
        sym(Punctuation::LParen),
        word("y"),
        sym(Punctuation::RParen),
        sym(Punctuation::RParen),
        sym(Punctuation::Semicolon),
        word("b"),
        sym(Punctuation::Semicolon),
    ]);
    assert_eq!(
        tree.declarations(),
        &vec![
            Declaration::Proc { location: Location::new(1, 4, 1), path: path(&["a", "f"]) },
            Declaration::Entry { location: Location::new(1, 13, 1), path: path(&["b"]) },
        ]
    );
}

#[test]
fn unterminated_group_reads_past_the_end() {
    let (result, _) = parse(located(vec![word("f"), sym(Punctuation::LParen), word("x")]));
    let error = result.unwrap_err();
    assert_eq!(error.description(), "read-after-EOF");
    assert_eq!(error.location(), Location::new(1, 3, 1));
}

#[test]
fn trailing_separator_ends_the_path_at_the_last_identifier() {
    // a/b/
    let (tree, warnings) = declared(vec![word("a"), sym(Punctuation::Slash), word("b"), sym(Punctuation::Slash)]);
    assert_eq!(
        tree.declarations(),
        &vec![Declaration::Entry { location: Location::new(1, 4, 1), path: path(&["a", "b"]) }]
    );
    assert!(warnings.is_empty());
}

#[test]
fn doubled_separator_adds_no_segment() {
    // a//b;
    let (tree, _) = declared(vec![
        word("a"),
        sym(Punctuation::Slash),
        sym(Punctuation::Slash),
        word("b"),
        sym(Punctuation::Semicolon),
    ]);
    assert_eq!(
        tree.declarations(),
        &vec![Declaration::Entry { location: Location::new(1, 5, 1), path: path(&["a", "b"]) }]
    );
}

#[test]
fn leading_slash_without_identifier_is_fatal() {
    let (result, _) = parse(located(vec![sym(Punctuation::Slash), sym(Punctuation::Semicolon)]));
    let error = result.unwrap_err();
    assert_eq!(error.description(), "got ;, expected one of: identifier");
    assert_eq!(error.location(), Location::new(1, 2, 1));
}

#[test]
fn token_that_begins_no_declaration_is_fatal() {
    let (result, _) = parse(located(vec![Token::Int(3)]));
    let error = result.unwrap_err();
    assert_eq!(error.description(), "got 3, expected one of: newline or end of file, /, identifier");
    assert_eq!(error.location(), Location::new(1, 1, 1));
}

#[test]
fn empty_input_gives_an_empty_tree() {
    let (tree, warnings) = declared(vec![]);
    assert!(tree.declarations().is_empty());
    assert!(tree.is_finalized());
    assert!(warnings.is_empty());
}

#[test]
fn semicolons_between_declarations_are_skipped() {
    let (tree, _) = declared(vec![
        sym(Punctuation::Semicolon),
        word("a"),
        sym(Punctuation::Semicolon),
        sym(Punctuation::Semicolon),
        word("b"),
    ]);
    assert_eq!(tree.declarations().len(), 2);
}

#[test]
fn unclosed_block_reads_past_the_end() {
    // The block takes the end of the input for its end; the declarations
    // around it then find nothing more to read.
    let (result, _) = parse(located(vec![word("a"), sym(Punctuation::LBrace), word("b")]));
    assert_eq!(result.unwrap_err().description(), "read-after-EOF");
}

#[test]
fn failure_of_the_input_is_passed_on() {
    let failure = DMError::new(Location::new(2, 7, 3), "bad character".to_string());
    let mut items = located(vec![word("a"), sym(Punctuation::Slash)]);
    items.push(Err(failure.clone()));
    items.push(Ok(LocatedToken::new(Location::new(1, 9, 1), word("b"))));
    let (result, _) = parse(items);
    assert_eq!(result.unwrap_err(), failure);
}

#[test]
fn warnings_survive_an_error() {
    // a { /b; 3
    let (result, warnings) = parse(located(vec![
        word("a"),
        sym(Punctuation::LBrace),
        sym(Punctuation::Slash),
        word("b"),
        sym(Punctuation::Semicolon),
        Token::Int(3),
    ]));
    assert!(result.is_err());
    assert_eq!(warnings.len(), 1);
}

#[test]
fn end_of_file_comes_once() {
    let mut parser = Parser::new(located(vec![word("a")]));
    assert_eq!(parser.location(), Location::default());
    assert_eq!(parser.next("x").unwrap(), word("a"));
    assert_eq!(parser.location(), Location::new(1, 1, 1));
    assert_eq!(parser.next("x").unwrap(), Token::Eof);
    let error = parser.next("x").unwrap_err();
    assert_eq!(error.description(), "read-after-EOF");
    assert_eq!(error.location(), Location::new(1, 1, 1));
}

#[test]
fn token_put_back_is_read_again() {
    let mut parser = Parser::new(located(vec![word("a"), word("b")]));
    let first = parser.next("x").unwrap();
    parser.put_back(first);
    assert_eq!(parser.next("y").unwrap(), word("a"));
    assert_eq!(parser.next("z").unwrap(), word("b"));
}

#[test]
fn exact_reads_only_the_given_token() {
    let mut parser = Parser::new(located(vec![sym(Punctuation::Comma), sym(Punctuation::Dot)]));
    assert_eq!(parser.exact(sym(Punctuation::Dot)), Ok(None));
    assert_eq!(parser.exact(sym(Punctuation::Comma)), Ok(Some(())));
    assert_eq!(parser.exact(sym(Punctuation::Dot)), Ok(Some(())));
    assert_eq!(parser.exact(Token::Eof), Ok(Some(())));
}

#[test]
fn syntax_error_lists_what_was_looked_for() {
    let mut parser = Parser::new(located(vec![Token::String("s".to_string())]));
    assert_eq!(parser.ident(), Ok(None));
    assert_eq!(parser.exact(sym(Punctuation::LBrace)), Ok(None));
    let error = parser.parse_error();
    assert_eq!(error.description(), "got \"s\", expected one of: identifier, {");
    assert_eq!(error.location(), Location::new(1, 1, 1));
    assert_eq!(parser.next("").unwrap(), Token::String("s".to_string()));
}

#[test]
fn ignore_group_counts_nested_groups() {
    // ( ( ) [ ) x
    let mut parser = Parser::new(located(vec![
        sym(Punctuation::LParen),
        sym(Punctuation::LParen),
        sym(Punctuation::RParen),
        sym(Punctuation::LBracket),
        sym(Punctuation::RParen),
        word("x"),
    ]));
    assert_eq!(parser.ignore_group(Punctuation::LBrace, Punctuation::RBrace), Ok(None));
    assert_eq!(parser.ignore_group(Punctuation::LParen, Punctuation::RParen), Ok(Some(())));
    assert_eq!(parser.next("").unwrap(), word("x"));
}

#[test]
fn tree_refuses_the_root_path_and_late_registrations() {
    let mut tree = ObjectTree::new();
    let at = Location::new(1, 2, 3);
    let error = tree.add_entry(at, vec![]).unwrap_err();
    assert_eq!(error.description(), "cannot register the root path");
    assert_eq!(error.location(), at);
    assert_eq!(tree.add_proc(at, path(&["f"])), Ok(()));
    assert_eq!(tree.add_var(at, path(&["x"]), number(1)), Ok(()));
    assert_eq!(tree.finalize(), Ok(()));
    assert_eq!(tree.add_entry(at, path(&["a"])).unwrap_err().description(), "the tree is already finalized");
    assert_eq!(tree.finalize().unwrap_err().description(), "the tree is already finalized");
    assert_eq!(tree.declarations().len(), 2);
}

#[test]
fn path_stack_lists_outer_frames_first() {
    let outer = path(&["a", "b"]);
    let middle = path(&[]);
    let inner = path(&["c"]);
    let root_parts = path(&[]);
    let root = PathStack { parent: None, parts: &root_parts, nested: false };
    let first = PathStack { parent: Some(&root), parts: &outer, nested: true };
    let second = PathStack { parent: Some(&first), parts: &middle, nested: true };
    let third = PathStack { parent: Some(&second), parts: &inner, nested: true };
    assert_eq!(third.iter(), path(&["a", "b", "c"]));
    assert_eq!(root.iter(), path(&[]));
}

#[test]
fn operator_table_rows() {
    let pow = find_operator(Punctuation::Pow).unwrap();
    assert_eq!((pow.strength, pow.right_binding, pow.oper), (11, false, Op::BinaryOp(BinaryOp::Pow)));
    let div = find_operator(Punctuation::Slash).unwrap();
    assert_eq!((div.strength, div.oper), (10, Op::BinaryOp(BinaryOp::Div)));
    let or = find_operator(Punctuation::Or).unwrap();
    assert_eq!(or.strength, 3);
    let assign = find_operator(Punctuation::LShiftAssign).unwrap();
    assert_eq!((assign.strength, assign.right_binding), (0, true));
    assert_eq!(find_operator(Punctuation::Comma), None);
    assert_eq!(find_operator(Punctuation::Not), None);
}

#[test]
fn tokens_describe_themselves() {
    assert_eq!(sym(Punctuation::RShiftAssign).describe(), ">>=");
    assert_eq!(word("abc").describe(), "abc");
    assert_eq!(Token::String("abc".to_string()).describe(), "\"abc\"");
    assert_eq!(Token::Resource("a.png".to_string()).describe(), "'a.png'");
    assert_eq!(Token::Eof.describe(), "end of file");
    assert_eq!(Token::Int(0).describe(), "0");
    assert_eq!(Token::Int(7).describe(), "7");
    assert_eq!(Token::Int(1203).describe(), "1203");
    assert_eq!(Token::Int(-45).describe(), "-45");
    assert_eq!(Token::Int(i32::MAX).describe(), "2147483647");
    assert_eq!(Token::Int(i32::MIN).describe(), "-2147483648");
    assert_eq!(Token::Float(2.5f32.to_bits()).describe(), "number");
    assert!(word("a").same(&Token::Ident("a".to_string(), false)));
    assert!(!word("a").same(&Token::Ident("a".to_string(), true)));
    assert!(!word("a").same(&Token::String("a".to_string())));
}

#[test]
fn token_tree_is_one_token_or_one_group() {
    // x ( a [ b ] ) y
    let mut parser = Parser::new(located(vec![
        word("x"),
        sym(Punctuation::LParen),
        word("a"),
        sym(Punctuation::LBracket),
        word("b"),
        sym(Punctuation::RBracket),
        sym(Punctuation::RParen),
        word("y"),
    ]));
    let mut target = Vec::new();
    assert_eq!(parser.read_any_tt(&mut target), Ok(Some(())));
    assert_eq!(target, vec![word("x")]);
    assert_eq!(parser.read_any_tt(&mut target), Ok(Some(())));
    assert_eq!(
        target,
        vec![
            word("x"),
            sym(Punctuation::LParen),
            word("a"),
            sym(Punctuation::LBracket),
            word("b"),
            sym(Punctuation::RBracket),
            sym(Punctuation::RParen),
        ]
    );
    assert_eq!(parser.next("").unwrap(), word("y"));
}

#[test]
fn token_tree_without_its_end_reads_past_the_end() {
    let mut parser = Parser::new(located(vec![sym(Punctuation::LBrace), word("a")]));
    let mut target = Vec::new();
    let error = parser.read_any_tt(&mut target).unwrap_err();
    assert_eq!(error.description(), "read-after-EOF");
    assert_eq!(target, vec![sym(Punctuation::LBrace), word("a"), Token::Eof]);
}

#[test]
fn syntax_error_when_nothing_can_be_read() {
    let mut parser = Parser::new(located(vec![]));
    assert_eq!(parser.next("a").unwrap(), Token::Eof);
    let error = parser.parse_error();
    assert_eq!(error.description(), "i/o error, expected one of: a");
    assert_eq!(error.location(), Location::default());
}

#[test]
fn syntax_error_when_the_input_fails() {
    let failure = DMError::new(Location::new(3, 3, 3), "bad character".to_string());
    let mut parser = Parser::new(vec![Ok(LocatedToken::new(Location::new(1, 1, 1), word("a"))), Err(failure)]);
    assert_eq!(parser.ident(), Ok(Some("a".to_string())));
    let error = parser.parse_error();
    assert_eq!(error.description(), "i/o error, expected one of: identifier");
    assert_eq!(error.location(), Location::new(1, 1, 1));
}

#[test]
fn parser_hands_out_its_tree_and_warnings() {
    // a { /b; }
    let mut parser = Parser::new(located(vec![
        word("a"),
        sym(Punctuation::LBrace),
        sym(Punctuation::Slash),
        word("b"),
        sym(Punctuation::Semicolon),
        sym(Punctuation::RBrace),
    ]));
    assert_eq!(parser.root(), Ok(Some(())));
    assert_eq!(parser.tree().declarations().len(), 2);
    assert!(!parser.tree().is_finalized());
    assert_eq!(parser.warnings().len(), 1);
    let (tree, warnings) = parser.finish();
    assert_eq!(tree.declarations().len(), 2);
    assert_eq!(warnings[0].location, Location::new(1, 5, 1));
}

#[test]
fn entry_inside_a_given_block() {
    // c/d; with the block a/b around it
    let mut parser = Parser::new(located(vec![word("c"), sym(Punctuation::Slash), word("d"), sym(Punctuation::Semicolon)]));
    let none = path(&[]);
    let outer = path(&["a", "b"]);
    let root = PathStack { parent: None, parts: &none, nested: false };
    let block = PathStack { parent: Some(&root), parts: &outer, nested: true };
    assert_eq!(parser.tree_entry(&block), Ok(Some(())));
    assert_eq!(
        parser.tree().declarations(),
        &vec![Declaration::Entry { location: Location::new(1, 4, 1), path: path(&["a", "b", "c", "d"]) }]
    );
    assert_eq!(parser.next("").unwrap(), sym(Punctuation::Semicolon));
}

#[test]
fn no_declaration_leaves_the_token_unread() {
    let mut parser = Parser::new(located(vec![Token::Int(1)]));
    let none = path(&[]);
    let root = PathStack { parent: None, parts: &none, nested: false };
    assert_eq!(parser.tree_entry(&root), Ok(None));
    assert_eq!(parser.tree_path(), Ok(None));
    assert_eq!(parser.tree_block(&root), Ok(None));
    assert_eq!(parser.next("").unwrap(), Token::Int(1));
}
