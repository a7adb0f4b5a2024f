use ulangc::ast::token::TokenKind;
use ulangc::ast::{
    Ast, BindType, Node, NodeKind, SourcePos, SourceRange, SourceView, CRATE_NODE,
};
use ulangc::parser::error::{Error, ErrorKind};
use ulangc::parser::lexer::Lexer;
use ulangc::parser::Parser;

fn name(node: &Node<'_>) -> String {
    match node.token().unwrap().data {
        TokenKind::Ident(name) => name.to_string(),
        other => panic!("a name is an identifier, not {:?}", other),
    }
}

fn describe(ast: &Ast<'_>, id: usize) -> String {
    let node = ast.node(id).unwrap();
    let label = match node.kind() {
        NodeKind::Module => "module".to_string(),
        NodeKind::Binding(BindType::Static) => format!("static {}", name(node)),
        NodeKind::Binding(BindType::Const) => format!("const {}", name(node)),
        NodeKind::Binding(BindType::Let) => format!("let {}", name(node)),
        NodeKind::Function => "fn".to_string(),
        NodeKind::Call => "call".to_string(),
        NodeKind::Scope => "::".to_string(),
        NodeKind::Binary | NodeKind::Unary => node.token().unwrap().view.view.to_string(),
        NodeKind::Ident => return name(node),
        NodeKind::Str => match node.token().unwrap().data {
            TokenKind::Str(contents) => return format!("'{}'", contents),
            other => panic!("a string is a string literal, not {:?}", other),
        },
    };
    let mut out = format!("({}", label);
    for child in node.children() {
        out.push(' ');
        out.push_str(&describe(ast, *child));
    }
    out.push(')');
    out
}

fn parse_ok(source: &str) -> String {
    let mut lexer = Lexer::from_str(source);
    let ast = Parser::parse(&mut lexer).unwrap();
    check_tree(&ast);
    describe(&ast, CRATE_NODE)
}

fn parse_err(source: &str) -> Vec<Error<'_>> {
    let lexer = Box::leak(Box::new(Lexer::from_str(source)));
    match Parser::parse(lexer) {
        Ok(ast) => panic!("parsed to {}", describe(&ast, CRATE_NODE)),
        Err(errors) => errors,
    }
}

fn check_tree(ast: &Ast<'_>) {
    let root = ast.node(CRATE_NODE).unwrap();
    assert_eq!(root.kind(), NodeKind::Module);
    assert_eq!(root.parent(), None);
    assert_eq!(root.token(), None);
    assert!(ast.node(ast.len()).is_none());
    let mut seen = vec![0usize; ast.len()];
    for id in 0..ast.len() {
        let node = ast.node(id).unwrap();
        for child in node.children() {
            assert_eq!(ast.node(*child).unwrap().parent(), Some(id));
            seen[*child] += 1;
        }
        if id != CRATE_NODE {
            let parent = node.parent().unwrap();
            assert!(parent == CRATE_NODE || parent > id);
            assert!(ast.node(parent).unwrap().children().contains(&id));
            assert!(node.token().is_some());
        }
    }
    assert_eq!(seen[CRATE_NODE], 0);
    for id in 1..ast.len() {
        assert_eq!(seen[id], 1);
    }
}

fn view(l0: usize, c0: usize, l1: usize, c1: usize, text: &str) -> SourceView<'_> {
    SourceView {
        range: SourceRange {
            start: SourcePos { line: l0, column: c0 },
            end: SourcePos { line: l1, column: c1 },
        },
        view: text,
    }
}

fn statement_starts<'a>() -> Vec<TokenKind<'a>> {
    vec![TokenKind::KwStatic, TokenKind::KwConst, TokenKind::KwLet]
}

fn expression_starts<'a>() -> Vec<TokenKind<'a>> {
    vec![
        TokenKind::Ident(""),
        TokenKind::Str(""),
        TokenKind::LParen,
        TokenKind::KwFn,
        TokenKind::Not,
        TokenKind::Minus,
    ]
}

#[test]
fn new_ast_is_an_empty_module() {
    let ast = Ast::new();
    assert_eq!(ast.len(), 1);
    check_tree(&ast);
    assert!(ast.node(CRATE_NODE).unwrap().children().is_empty());
    assert!(ast.node(1).is_none());
    assert_eq!(describe(&ast, CRATE_NODE), "(module)");
}

#[test]
fn empty_source_is_an_empty_module() {
    assert_eq!(parse_ok(""), "(module)");
}

#[test]
fn comments_and_white_space_are_an_empty_module() {
    for source in [
        " ",
        "\n\n\t\r\n",
        "-- only a comment",
        "-- a comment\n   -- another\n",
        "--- a block\n that goes on ---",
        "--- a block that never ends",
        " --- a --- -- b\n --- c --- \n",
    ] {
        let mut lexer = Lexer::from_str(source);
        let ast = Parser::parse(&mut lexer).unwrap();
        assert_eq!(ast.len(), 1);
        assert!(ast.node(CRATE_NODE).unwrap().children().is_empty());
    }
}

#[test]
fn illustrative_program() {
    let source = "static main = fn do\n    std::println ('Hello, World!')\nend";
    let mut lexer = Lexer::from_str(source);
    let ast = Parser::parse(&mut lexer).unwrap();
    check_tree(&ast);
    let root = ast.node(CRATE_NODE).unwrap();
    assert_eq!(root.children().len(), 1);
    let binding = ast.node(root.children()[0]).unwrap();
    assert_eq!(binding.kind(), NodeKind::Binding(BindType::Static));
    assert_eq!(binding.token().unwrap().data, TokenKind::Ident("main"));
    assert_eq!(binding.token().unwrap().view, view(0, 7, 0, 11, "main"));
    assert_eq!(binding.parent(), Some(CRATE_NODE));
    assert_eq!(binding.children().len(), 1);
    let function = ast.node(binding.children()[0]).unwrap();
    assert_eq!(function.kind(), NodeKind::Function);
    assert_eq!(function.token().unwrap().data, TokenKind::KwFn);
    assert_eq!(function.children().len(), 1);
    let call = ast.node(function.children()[0]).unwrap();
    assert_eq!(call.kind(), NodeKind::Call);
    assert_eq!(call.token().unwrap().view, view(1, 17, 1, 18, "("));
    assert_eq!(call.children().len(), 2);
    let callee = ast.node(call.children()[0]).unwrap();
    assert_eq!(callee.kind(), NodeKind::Scope);
    let argument = ast.node(call.children()[1]).unwrap();
    assert_eq!(argument.kind(), NodeKind::Str);
    assert_eq!(argument.token().unwrap().data, TokenKind::Str("Hello, World!"));
    assert_eq!(
        describe(&ast, CRATE_NODE),
        "(module (static main (fn (call (:: std println) 'Hello, World!'))))"
    );
    assert_eq!(ast.len(), 8);
}

#[test]
fn parsing_reads_every_token() {
    let mut lexer = Lexer::from_str("static a = b const c = d");
    assert!(Parser::parse(&mut lexer).is_ok());
}

#[test]
fn the_three_bindings() {
    assert_eq!(
        parse_ok("static a = 'x' const b = a let c = b"),
        "(module (static a 'x') (const b a) (let c b))"
    );
}

#[test]
fn products_bind_tighter_than_sums() {
    assert_eq!(parse_ok("let x = a + b * c"), "(module (let x (+ a (* b c))))");
    assert_eq!(parse_ok("let x = a * b + c"), "(module (let x (+ (* a b) c)))");
    assert_eq!(parse_ok("let x = a / b - c * d"), "(module (let x (- (/ a b) (* c d))))");
}

#[test]
fn sums_and_products_group_to_the_left() {
    assert_eq!(parse_ok("let x = a - b - c"), "(module (let x (- (- a b) c)))");
    assert_eq!(parse_ok("let x = a / b * c / d"), "(module (let x (/ (* (/ a b) c) d)))");
}

#[test]
fn comparisons_bind_tighter_than_equalities() {
    assert_eq!(
        parse_ok("let x = a < b == c >= d"),
        "(module (let x (== (< a b) (>= c d))))"
    );
    assert_eq!(
        parse_ok("let x = a + b <= c != d > e * f"),
        "(module (let x (!= (<= (+ a b) c) (> d (* e f)))))"
    );
}

#[test]
fn assignments_group_to_the_right() {
    assert_eq!(parse_ok("let x = a = b = c"), "(module (let x (= a (= b c))))");
    assert_eq!(
        parse_ok("let x = a += b -= c *= d /= e + f"),
        "(module (let x (+= a (-= b (*= c (/= d (+ e f)))))))"
    );
}

#[test]
fn prefix_operators() {
    assert_eq!(parse_ok("let x = -a * !b"), "(module (let x (* (- a) (! b))))");
    assert_eq!(parse_ok("let x = !-!a"), "(module (let x (! (- (! a)))))");
    assert_eq!(parse_ok("let x = -f(a)::b"), "(module (let x (- (:: (call f a) b))))");
    assert_eq!(parse_ok("let x = a - -b"), "(module (let x (- a (- b))))");
}

#[test]
fn parentheses_group() {
    assert_eq!(parse_ok("let x = (a + b) * c"), "(module (let x (* (+ a b) c)))");
    assert_eq!(parse_ok("let x = ((a))"), "(module (let x a))");
    assert_eq!(parse_ok("let x = a - (b - c)"), "(module (let x (- a (- b c))))");
}

#[test]
fn calls() {
    assert_eq!(parse_ok("let x = f()"), "(module (let x (call f)))");
    assert_eq!(parse_ok("let x = f(a)"), "(module (let x (call f a)))");
    assert_eq!(
        parse_ok("let x = f(a, 'b', g(c, d) + e)"),
        "(module (let x (call f a 'b' (+ (call g c d) e))))"
    );
    assert_eq!(parse_ok("let x = f(a,)"), "(module (let x (call f a)))");
    assert_eq!(parse_ok("let x = f(a)(b)"), "(module (let x (call (call f a) b)))");
    assert_eq!(parse_ok("let x = (fn do end)()"), "(module (let x (call (fn))))");
}

#[test]
fn scope_access_chains() {
    assert_eq!(parse_ok("let x = a::b"), "(module (let x (:: a b)))");
    assert_eq!(parse_ok("let x = a::b::c"), "(module (let x (:: (:: a b) c)))");
    assert_eq!(parse_ok("let x = a::b(c)::d"), "(module (let x (:: (call (:: a b) c) d)))");
}

#[test]
fn function_bodies() {
    assert_eq!(parse_ok("let f = fn do end"), "(module (let f (fn)))");
    assert_eq!(
        parse_ok("const f = fn do\n let y = 'a'\n g(y)\n y = y + y\n end\n static z = f()"),
        "(module (const f (fn (let y 'a') (call g y) (= y (+ y y)))) (static z (call f)))"
    );
    assert_eq!(
        parse_ok("let f = fn do let g = fn do h end end"),
        "(module (let f (fn (let g (fn h)))))"
    );
}

#[test]
fn statement_must_start_with_a_binding_keyword() {
    let errors = parse_err("x = 'a'");
    assert_eq!(
        errors,
        vec![Error {
            kind: ErrorKind::UnexpectedToken {
                expected: statement_starts(),
                got: TokenKind::Ident("x"),
            },
            view: view(0, 0, 0, 1, "x"),
        }]
    );
}

#[test]
fn parsing_goes_on_behind_a_diagnostic() {
    let errors = parse_err("x = y\nlet = z\nstatic ok = 'fine'\n)");
    assert_eq!(
        errors,
        vec![
            Error {
                kind: ErrorKind::UnexpectedToken {
                    expected: statement_starts(),
                    got: TokenKind::Ident("x"),
                },
                view: view(0, 0, 0, 1, "x"),
            },
            Error {
                kind: ErrorKind::UnexpectedToken {
                    expected: vec![TokenKind::Ident("")],
                    got: TokenKind::Assign,
                },
                view: view(1, 4, 1, 5, "="),
            },
            Error {
                kind: ErrorKind::UnexpectedToken {
                    expected: statement_starts(),
                    got: TokenKind::RParen,
                },
                view: view(3, 0, 3, 1, ")"),
            },
        ]
    );
}

#[test]
fn resynchronisation_stops_at_a_binding_keyword() {
    let errors = parse_err("let let x = 'a'");
    assert_eq!(
        errors,
        vec![Error {
            kind: ErrorKind::UnexpectedToken {
                expected: vec![TokenKind::Ident("")],
                got: TokenKind::KwLet,
            },
            view: view(0, 4, 0, 7, "let"),
        }]
    );
}

#[test]
fn digits_start_no_statement() {
    let errors = parse_err("123 = 1");
    assert_eq!(
        errors,
        vec![Error {
            kind: ErrorKind::UnexpectedEndOfTokenStream,
            view: view(0, 0, 0, 1, "1"),
        }]
    );
}

#[test]
fn stray_character_behind_a_statement() {
    let errors = parse_err("let x = y # let z = x");
    assert_eq!(
        errors,
        vec![Error {
            kind: ErrorKind::UnexpectedEndOfTokenStream,
            view: view(0, 10, 0, 11, "#"),
        }]
    );
}

#[test]
fn unterminated_string_in_a_binding() {
    let errors = parse_err("static x = '");
    assert_eq!(
        errors,
        vec![Error {
            kind: ErrorKind::UnexpectedEndOfTokenStream,
            view: view(0, 11, 0, 12, "'"),
        }]
    );
}

#[test]
fn unterminated_string_behind_a_statement() {
    let errors = parse_err("static x = 'a'\n'bc\nd");
    assert_eq!(
        errors,
        vec![Error {
            kind: ErrorKind::UnexpectedEndOfTokenStream,
            view: view(1, 0, 2, 1, "'bc\nd"),
        }]
    );
}

#[test]
fn tokens_run_out_in_a_binding() {
    assert_eq!(
        parse_err("static x ="),
        vec![Error {
            kind: ErrorKind::UnexpectedEndOfTokenStream,
            view: view(0, 10, 0, 10, ""),
        }]
    );
    assert_eq!(
        parse_err("static"),
        vec![Error {
            kind: ErrorKind::UnexpectedEndOfTokenStream,
            view: view(0, 6, 0, 6, ""),
        }]
    );
    assert_eq!(
        parse_err("let f = fn do g()"),
        vec![Error {
            kind: ErrorKind::UnexpectedEndOfTokenStream,
            view: view(0, 17, 0, 17, ""),
        }]
    );
    assert_eq!(
        parse_err("let f = g(a, "),
        vec![Error {
            kind: ErrorKind::UnexpectedEndOfTokenStream,
            view: view(0, 13, 0, 13, ""),
        }]
    );
}

#[test]
fn binding_needs_a_name() {
    assert_eq!(
        parse_err("static 'x' = y"),
        vec![Error {
            kind: ErrorKind::UnexpectedToken {
                expected: vec![TokenKind::Ident("")],
                got: TokenKind::Str("x"),
            },
            view: view(0, 7, 0, 10, "'x'"),
        }]
    );
}

#[test]
fn binding_needs_an_assignment() {
    assert_eq!(
        parse_err("static x y"),
        vec![Error {
            kind: ErrorKind::UnexpectedToken {
                expected: vec![TokenKind::Assign],
                got: TokenKind::Ident("y"),
            },
            view: view(0, 9, 0, 10, "y"),
        }]
    );
    assert_eq!(
        parse_err("static x += y"),
        vec![Error {
            kind: ErrorKind::UnexpectedToken {
                expected: vec![TokenKind::Assign],
                got: TokenKind::AssignPlus,
            },
            view: view(0, 9, 0, 11, "+="),
        }]
    );
}

#[test]
fn binding_needs_a_value() {
    assert_eq!(
        parse_err("static x = )"),
        vec![Error {
            kind: ErrorKind::UnexpectedToken {
                expected: expression_starts(),
                got: TokenKind::RParen,
            },
            view: view(0, 11, 0, 12, ")"),
        }]
    );
    assert_eq!(
        parse_err("static x = a + * b"),
        vec![Error {
            kind: ErrorKind::UnexpectedToken {
                expected: expression_starts(),
                got: TokenKind::Mul,
            },
            view: view(0, 15, 0, 16, "*"),
        }]
    );
}

#[test]
fn arguments_are_separated_by_commas() {
    assert_eq!(
        parse_err("static f = g(a b)"),
        vec![Error {
            kind: ErrorKind::UnexpectedToken {
                expected: vec![TokenKind::Comma, TokenKind::RParen],
                got: TokenKind::Ident("b"),
            },
            view: view(0, 15, 0, 16, "b"),
        }]
    );
}

#[test]
fn parenthesis_must_be_closed() {
    assert_eq!(
        parse_err("static f = (a + b c"),
        vec![Error {
            kind: ErrorKind::UnexpectedToken {
                expected: vec![TokenKind::RParen],
                got: TokenKind::Ident("c"),
            },
            view: view(0, 18, 0, 19, "c"),
        }]
    );
}

#[test]
fn function_needs_do() {
    assert_eq!(
        parse_err("static f = fn end"),
        vec![Error {
            kind: ErrorKind::UnexpectedToken {
                expected: vec![TokenKind::KwDo],
                got: TokenKind::KwEnd,
            },
            view: view(0, 14, 0, 17, "end"),
        }]
    );
}

#[test]
fn scope_access_needs_a_name() {
    assert_eq!(
        parse_err("static f = a::'b'"),
        vec![Error {
            kind: ErrorKind::UnexpectedToken {
                expected: vec![TokenKind::Ident("")],
                got: TokenKind::Str("b"),
            },
            view: view(0, 14, 0, 17, "'b'"),
        }]
    );
}

#[test]
fn type_annotations_are_not_implemented() {
    assert_eq!(
        parse_err("let x : T = 'a'"),
        vec![Error {
            kind: ErrorKind::NotImplemented(
                "Explicit type parsing is not yet implemented.".to_string()
            ),
            view: view(0, 8, 0, 9, "T"),
        }]
    );
    assert_eq!(
        parse_err("let x :"),
        vec![Error {
            kind: ErrorKind::NotImplemented(
                "Explicit type parsing is not yet implemented.".to_string()
            ),
            view: view(0, 7, 0, 7, ""),
        }]
    );
}

#[test]
fn error_inside_a_function_body() {
    let errors = parse_err("static f = fn do\n let = 'a'\n let b = 'c'\nend\nstatic g = f");
    assert_eq!(
        errors,
        vec![
            Error {
                kind: ErrorKind::UnexpectedToken {
                    expected: vec![TokenKind::Ident("")],
                    got: TokenKind::Assign,
                },
                view: view(1, 5, 1, 6, "="),
            },
            Error {
                kind: ErrorKind::UnexpectedToken {
                    expected: statement_starts(),
                    got: TokenKind::KwEnd,
                },
                view: view(3, 0, 3, 3, "end"),
            },
        ]
    );
}

#[test]
fn dot_is_no_part_of_an_expression() {
    assert_eq!(
        parse_err("let x = a.b"),
        vec![Error {
            kind: ErrorKind::UnexpectedToken {
                expected: statement_starts(),
                got: TokenKind::Dot,
            },
            view: view(0, 9, 0, 10, "."),
        }]
    );
}
