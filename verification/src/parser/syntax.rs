use crate::ast::token::{SpecToken, SpecTokenKind};
use crate::ast::{BindType, NodeKind, SpecSourceView, Tree};
use crate::parser::error::{SpecError, SpecErrorKind};
use crate::parser::lexical::{
    ends_open, lemma_open_string_cuts_short, lemma_trivia_has_no_tokens, lex, trivia_end,
};
use vstd::prelude::*;

verus! {

/// What reading a construct off the front of a token stream gives: the
/// construct or a diagnostic, and the tokens left.
pub struct Parsed<T> {
    pub result: Result<T, SpecError>,
    pub rest: Seq<SpecToken>,
}

/// The construct `value` was read, and `rest` is left.
pub open spec fn done<T>(value: T, rest: Seq<SpecToken>) -> Parsed<T> {
    Parsed { result: Ok(value), rest }
}

/// Reading failed with `error`, and `rest` is left.
pub open spec fn failed<T>(error: SpecError, rest: Seq<SpecToken>) -> Parsed<T> {
    Parsed { result: Err(error), rest }
}

/// The diagnostic for tokens that ran out. It points at the place where the
/// stream stopped.
pub open spec fn unexpected_end(tail: SpecSourceView) -> SpecError {
    SpecError { kind: SpecErrorKind::UnexpectedEndOfTokenStream, view: tail }
}

/// The diagnostic for the token `got` where one of `expected` had to stand.
pub open spec fn unexpected(expected: Seq<SpecTokenKind>, got: SpecToken) -> SpecError {
    SpecError { kind: SpecErrorKind::UnexpectedToken { expected, got: got.kind }, view: got.span }
}

/// A tree of one node.
pub open spec fn leaf(kind: NodeKind, token: SpecToken) -> Tree {
    Tree { kind, token: Some(token), children: Seq::empty() }
}

/// A tree with the given children.
pub open spec fn branch(kind: NodeKind, token: SpecToken, children: Seq<Tree>) -> Tree {
    Tree { kind, token: Some(token), children }
}

/// Two token kinds are of the same category, whatever text they carry.
pub open spec fn same_kind(a: SpecTokenKind, b: SpecTokenKind) -> bool {
    ||| a is Str && b is Str
    ||| a is Ident && b is Ident
    ||| a == b
}

/// Reads one token of the category of `wanted`. A token of another category
/// stays in the stream.
pub open spec fn expect(toks: Seq<SpecToken>, tail: SpecSourceView, wanted: SpecTokenKind) -> Parsed<
    SpecToken,
> {
    if toks.len() == 0 {
        failed(unexpected_end(tail), toks)
    } else if same_kind(toks[0].kind, wanted) {
        done(toks[0], toks.skip(1))
    } else {
        failed(unexpected(seq![wanted], toks[0]), toks)
    }
}

/// The way of binding that a keyword stands for.
pub open spec fn bind_type(kind: SpecTokenKind) -> Option<BindType> {
    match kind {
        SpecTokenKind::KwStatic => Some(BindType::Static),
        SpecTokenKind::KwConst => Some(BindType::Const),
        SpecTokenKind::KwLet => Some(BindType::Let),
        _ => None,
    }
}

/// The kinds of token that start a statement.
pub open spec fn statement_starts() -> Seq<SpecTokenKind> {
    seq![SpecTokenKind::KwStatic, SpecTokenKind::KwConst, SpecTokenKind::KwLet]
}

/// The kinds of token that start an expression.
pub open spec fn expression_starts() -> Seq<SpecTokenKind> {
    seq![
        SpecTokenKind::Ident(Seq::empty()),
        SpecTokenKind::Str(Seq::empty()),
        SpecTokenKind::LParen,
        SpecTokenKind::KwFn,
        SpecTokenKind::Not,
        SpecTokenKind::Minus,
    ]
}

/// The kinds of token that go on with, or close, a list of arguments.
pub open spec fn argument_ends() -> Seq<SpecTokenKind> {
    seq![SpecTokenKind::Comma, SpecTokenKind::RParen]
}

/// How tightly a binary operator binds, and whether it groups to the right.
pub struct Strength {
    pub precedence: int,
    pub right: bool,
}

/// The binary operators: assignments bind loosest and group to the right;
/// then, each level tighter and grouping to the left, equalities,
/// comparisons, sums and products.
pub open spec fn binary_op(kind: SpecTokenKind) -> Option<Strength> {
    match kind {
        SpecTokenKind::Assign
        | SpecTokenKind::AssignPlus
        | SpecTokenKind::AssignMinus
        | SpecTokenKind::AssignMul
        | SpecTokenKind::AssignDiv => Some(Strength { precedence: 1, right: true }),
        SpecTokenKind::Equal | SpecTokenKind::NotEq => Some(
            Strength { precedence: 2, right: false },
        ),
        SpecTokenKind::Less
        | SpecTokenKind::LessEq
        | SpecTokenKind::Greater
        | SpecTokenKind::GreaterEq => Some(Strength { precedence: 3, right: false }),
        SpecTokenKind::Plus | SpecTokenKind::Minus => Some(
            Strength { precedence: 4, right: false },
        ),
        SpecTokenKind::Mul | SpecTokenKind::Div => Some(
            Strength { precedence: 5, right: false },
        ),
        _ => None,
    }
}

/// The prefix operators.
pub open spec fn prefix_op(kind: SpecTokenKind) -> bool {
    kind is Not || kind is Minus
}

/// A primary expression starts at the front of the stream.
pub open spec fn starts_primary(toks: Seq<SpecToken>) -> bool {
    toks.len() > 0 && (toks[0].kind is Str || toks[0].kind is Ident || toks[0].kind is LParen
        || toks[0].kind is KwFn)
}

/// An expression starts at the front of the stream.
pub open spec fn starts_expression(toks: Seq<SpecToken>) -> bool {
    toks.len() > 0 && (prefix_op(toks[0].kind) || starts_primary(toks))
}

/// The name of the part of the grammar that reads types.
pub open spec fn explicit_type_feature() -> Seq<char> {
    "Explicit type parsing is not yet implemented."@
}

/// A type annotation. Its grammar is not settled: reading one fails, at the
/// token where the type would start.
pub open spec fn explicit_type(toks: Seq<SpecToken>, tail: SpecSourceView) -> Parsed<Tree> {
    failed(
        SpecError {
            kind: SpecErrorKind::NotImplemented(explicit_type_feature()),
            view: if toks.len() > 0 {
                toks[0].span
            } else {
                tail
            },
        },
        toks,
    )
}

/// The optional type annotation of a binding: a colon and a type.
pub open spec fn annotation(toks: Seq<SpecToken>, tail: SpecSourceView) -> Parsed<Seq<Tree>> {
    if toks.len() > 0 && toks[0].kind is Column {
        let ty = explicit_type(toks.skip(1), tail);
        match ty.result {
            Err(e) => failed(e, ty.rest),
            Ok(tree) => done(seq![tree], ty.rest),
        }
    } else {
        done(Seq::empty(), toks)
    }
}

/// A binding behind its keyword: a name, an optional type annotation, `=`
/// and the value.
pub open spec fn binding(toks: Seq<SpecToken>, tail: SpecSourceView, bt: BindType) -> Parsed<Tree>
    decreases toks.len(), 7int,
{
    let name = expect(toks, tail, SpecTokenKind::Ident(Seq::empty()));
    match name.result {
        Err(e) => failed(e, name.rest),
        Ok(ident) => {
            let annotated = annotation(name.rest, tail);
            match annotated.result {
                Err(e) => failed(e, annotated.rest),
                Ok(types) => {
                    let assign = expect(annotated.rest, tail, SpecTokenKind::Assign);
                    match assign.result {
                        Err(e) => failed(e, assign.rest),
                        Ok(_) => {
                            let value = expression(assign.rest, tail, 1);
                            match value.result {
                                Err(e) => failed(e, value.rest),
                                Ok(v) => done(
                                    branch(NodeKind::Binding(bt), ident, types.push(v)),
                                    value.rest,
                                ),
                            }
                        },
                    }
                },
            }
        },
    }
}

/// An expression whose binary operators bind at least as tightly as
/// `min_precedence`.
pub open spec fn expression(toks: Seq<SpecToken>, tail: SpecSourceView, min_precedence: int) -> Parsed<
    Tree,
>
    decreases toks.len(), 6int,
{
    let left = unary(toks, tail);
    match left.result {
        Err(e) => failed(e, left.rest),
        Ok(tree) => if left.rest.len() < toks.len() {
            climb(left.rest, tail, min_precedence, tree)
        } else {
            left
        },
    }
}

/// The binary operators and right operands that follow the operand `left`.
pub open spec fn climb(
    toks: Seq<SpecToken>,
    tail: SpecSourceView,
    min_precedence: int,
    left: Tree,
) -> Parsed<Tree>
    decreases toks.len(), 1int,
{
    if toks.len() > 0 && binary_op(toks[0].kind) is Some && binary_op(toks[0].kind)->0.precedence
        >= min_precedence {
        let op = binary_op(toks[0].kind)->0;
        let right = expression(
            toks.skip(1),
            tail,
            if op.right {
                op.precedence
            } else {
                op.precedence + 1
            },
        );
        match right.result {
            Err(e) => failed(e, right.rest),
            Ok(tree) => if right.rest.len() < toks.len() {
                climb(
                    right.rest,
                    tail,
                    min_precedence,
                    branch(NodeKind::Binary, toks[0], seq![left, tree]),
                )
            } else {
                right
            },
        }
    } else {
        done(left, toks)
    }
}

/// An operand with its prefix operators.
pub open spec fn unary(toks: Seq<SpecToken>, tail: SpecSourceView) -> Parsed<Tree>
    decreases toks.len(), 5int,
{
    if toks.len() > 0 && prefix_op(toks[0].kind) {
        let operand = unary(toks.skip(1), tail);
        match operand.result {
            Err(e) => failed(e, operand.rest),
            Ok(tree) => done(branch(NodeKind::Unary, toks[0], seq![tree]), operand.rest),
        }
    } else {
        postfix(toks, tail)
    }
}

/// A primary expression with the scope accesses and calls that follow it.
pub open spec fn postfix(toks: Seq<SpecToken>, tail: SpecSourceView) -> Parsed<Tree>
    decreases toks.len(), 4int,
{
    let head = primary(toks, tail);
    match head.result {
        Err(e) => failed(e, head.rest),
        Ok(tree) => if head.rest.len() < toks.len() {
            postfix_tail(head.rest, tail, tree)
        } else {
            head
        },
    }
}

/// The scope accesses and calls that follow the expression `head`.
pub open spec fn postfix_tail(toks: Seq<SpecToken>, tail: SpecSourceView, head: Tree) -> Parsed<Tree>
    decreases toks.len(), 1int,
{
    if toks.len() > 0 && toks[0].kind is ScopeAccess {
        let name = expect(toks.skip(1), tail, SpecTokenKind::Ident(Seq::empty()));
        match name.result {
            Err(e) => failed(e, name.rest),
            Ok(ident) => postfix_tail(
                name.rest,
                tail,
                branch(NodeKind::Scope, toks[0], seq![head, leaf(NodeKind::Ident, ident)]),
            ),
        }
    } else if toks.len() > 0 && toks[0].kind is LParen {
        let args = arguments(toks.skip(1), tail, seq![head]);
        match args.result {
            Err(e) => failed(e, args.rest),
            Ok(items) => if args.rest.len() < toks.len() {
                postfix_tail(args.rest, tail, branch(NodeKind::Call, toks[0], items))
            } else {
                failed(unexpected_end(tail), args.rest)
            },
        }
    } else {
        done(head, toks)
    }
}

/// The arguments of a call behind its opening parenthesis, up to and with the
/// closing one, added to `items`.
pub open spec fn arguments(toks: Seq<SpecToken>, tail: SpecSourceView, items: Seq<Tree>) -> Parsed<
    Seq<Tree>,
>
    decreases toks.len(), 9int,
{
    if toks.len() == 0 {
        failed(unexpected_end(tail), toks)
    } else if toks[0].kind is RParen {
        done(items, toks.skip(1))
    } else {
        let arg = expression(toks, tail, 1);
        match arg.result {
            Err(e) => failed(e, arg.rest),
            Ok(tree) => if arg.rest.len() == 0 {
                failed(unexpected_end(tail), arg.rest)
            } else if arg.rest[0].kind is RParen {
                done(items.push(tree), arg.rest.skip(1))
            } else if arg.rest[0].kind is Comma && arg.rest.len() <= toks.len() {
                arguments(arg.rest.skip(1), tail, items.push(tree))
            } else {
                failed(unexpected(argument_ends(), arg.rest[0]), arg.rest)
            },
        }
    }
}

/// A primary expression: a string, an identifier, an expression in
/// parentheses or a function literal.
pub open spec fn primary(toks: Seq<SpecToken>, tail: SpecSourceView) -> Parsed<Tree>
    decreases toks.len(), 3int,
{
    if toks.len() == 0 {
        failed(unexpected_end(tail), toks)
    } else {
        match toks[0].kind {
            SpecTokenKind::Str(_) => done(leaf(NodeKind::Str, toks[0]), toks.skip(1)),
            SpecTokenKind::Ident(_) => done(leaf(NodeKind::Ident, toks[0]), toks.skip(1)),
            SpecTokenKind::LParen => {
                let inner = expression(toks.skip(1), tail, 1);
                match inner.result {
                    Err(e) => failed(e, inner.rest),
                    Ok(tree) => {
                        let close = expect(inner.rest, tail, SpecTokenKind::RParen);
                        match close.result {
                            Err(e) => failed(e, close.rest),
                            Ok(_) => done(tree, close.rest),
                        }
                    },
                }
            },
            SpecTokenKind::KwFn => function(toks, tail),
            _ => failed(unexpected(expression_starts(), toks[0]), toks),
        }
    }
}

/// A function literal: `fn`, `do`, the statements of the body and `end`.
pub open spec fn function(toks: Seq<SpecToken>, tail: SpecSourceView) -> Parsed<Tree>
    decreases toks.len(), 2int,
{
    if toks.len() == 0 {
        failed(unexpected_end(tail), toks)
    } else {
        let open = expect(toks.skip(1), tail, SpecTokenKind::KwDo);
        match open.result {
            Err(e) => failed(e, open.rest),
            Ok(_) => {
                let body = block(open.rest, tail, Seq::empty());
                match body.result {
                    Err(e) => failed(e, body.rest),
                    Ok(items) => done(branch(NodeKind::Function, toks[0], items), body.rest),
                }
            },
        }
    }
}

/// The statements of a function body up to and with its `end`, added to
/// `items`. A statement of a body is a binding or an expression.
pub open spec fn block(toks: Seq<SpecToken>, tail: SpecSourceView, items: Seq<Tree>) -> Parsed<
    Seq<Tree>,
>
    decreases toks.len(), 8int,
{
    if toks.len() == 0 {
        failed(unexpected_end(tail), toks)
    } else if toks[0].kind is KwEnd {
        done(items, toks.skip(1))
    } else {
        let item = match bind_type(toks[0].kind) {
            Some(bt) => binding(toks.skip(1), tail, bt),
            None => expression(toks, tail, 1),
        };
        match item.result {
            Err(e) => failed(e, item.rest),
            Ok(tree) => if item.rest.len() < toks.len() {
                block(item.rest, tail, items.push(tree))
            } else {
                failed(unexpected_end(tail), item.rest)
            },
        }
    }
}

/// A statement of the module: a binding. The token that starts it leaves the
/// stream also where it starts none.
pub open spec fn statement(toks: Seq<SpecToken>, tail: SpecSourceView) -> Parsed<Tree> {
    if toks.len() == 0 {
        failed(unexpected_end(tail), toks)
    } else {
        match bind_type(toks[0].kind) {
            Some(bt) => binding(toks.skip(1), tail, bt),
            None => failed(unexpected(statement_starts(), toks[0]), toks.skip(1)),
        }
    }
}

/// The stream from its first token that starts a statement on.
pub open spec fn resync(toks: Seq<SpecToken>) -> Seq<SpecToken>
    decreases toks.len(),
{
    if toks.len() == 0 || bind_type(toks[0].kind) is Some {
        toks
    } else {
        resync(toks.skip(1))
    }
}

/// The statements read and the diagnostics met.
pub struct Outcome {
    pub trees: Seq<Tree>,
    pub errors: Seq<SpecError>,
}

/// The statements of a module and the diagnostics met while reading them,
/// added to `sofar`. Behind a diagnostic, reading goes on at the next token
/// that starts a statement.
pub open spec fn module(toks: Seq<SpecToken>, tail: SpecSourceView, sofar: Outcome) -> Outcome
    decreases toks.len(),
    via module_decreases
{
    if toks.len() == 0 {
        sofar
    } else {
        let st = statement(toks, tail);
        if st.rest.len() < toks.len() {
            match st.result {
                Ok(tree) => module(
                    st.rest,
                    tail,
                    Outcome { trees: sofar.trees.push(tree), errors: sofar.errors },
                ),
                Err(e) => module(
                    resync(st.rest),
                    tail,
                    Outcome { trees: sofar.trees, errors: sofar.errors.push(e) },
                ),
            }
        } else {
            sofar
        }
    }
}

#[via_fn]
proof fn module_decreases(toks: Seq<SpecToken>, tail: SpecSourceView, sofar: Outcome) {
    if toks.len() > 0 {
        lemma_resync_shorter(statement(toks, tail).rest);
    }
}

/// Dropping tokens makes a stream no longer.
pub proof fn lemma_resync_shorter(toks: Seq<SpecToken>)
    ensures
        resync(toks).len() <= toks.len(),
    decreases toks.len(),
{
    if toks.len() > 0 && bind_type(toks[0].kind) is None {
        lemma_resync_shorter(toks.skip(1));
    }
}

/// The stream stopped short of the end of the text: at a character that
/// starts no lexeme, or at a string literal left open.
pub open spec fn cut_short(tail: SpecSourceView) -> bool {
    tail.text.len() > 0
}

/// The last diagnostic says that the tokens ran out.
pub open spec fn ends_at_end(errors: Seq<SpecError>) -> bool {
    errors.len() > 0 && errors.last().kind is UnexpectedEndOfTokenStream
}

/// The diagnostics of a module: those met while reading its statements, and
/// one more for a stream that stopped short, unless the last of them already
/// says that the tokens ran out.
pub open spec fn diagnostics(tail: SpecSourceView, errors: Seq<SpecError>) -> Seq<SpecError> {
    if cut_short(tail) && !ends_at_end(errors) {
        errors.push(unexpected_end(tail))
    } else {
        errors
    }
}

/// What parsing a token stream gives: the tree of the module, or, where there
/// are any, the diagnostics.
pub open spec fn parse_spec(toks: Seq<SpecToken>, tail: SpecSourceView) -> Result<
    Tree,
    Seq<SpecError>,
> {
    let read = module(toks, tail, Outcome { trees: Seq::empty(), errors: Seq::empty() });
    let errors = diagnostics(tail, read.errors);
    if errors.len() == 0 {
        Ok(Tree { kind: NodeKind::Module, token: None, children: read.trees })
    } else {
        Err(errors)
    }
}

/// A stream without tokens that stops at the end of its text parses to an
/// empty module, without a diagnostic.
pub proof fn lemma_no_tokens_parse_to_empty_module(tail: SpecSourceView)
    requires
        !cut_short(tail),
    ensures
        parse_spec(Seq::empty(), tail) == Ok::<Tree, Seq<SpecError>>(
            Tree { kind: NodeKind::Module, token: None, children: Seq::empty() },
        ),
{
}

/// A source text of nothing but comments and white space parses to an empty
/// module, without a diagnostic.
pub proof fn lemma_trivia_parses_to_empty_module(s: Seq<char>)
    requires
        trivia_end(s, 0) == s.len(),
    ensures
        parse_spec(lex(s, 0).tokens, lex(s, 0).tail) == Ok::<Tree, Seq<SpecError>>(
            Tree { kind: NodeKind::Module, token: None, children: Seq::empty() },
        ),
{
    lemma_trivia_has_no_tokens(s);
    lemma_no_tokens_parse_to_empty_module(lex(s, 0).tail);
}

/// A stream that stopped short of the end of its text never parses: the
/// diagnostics end with the one that says that the tokens ran out.
pub proof fn lemma_cut_short_is_reported(toks: Seq<SpecToken>, tail: SpecSourceView)
    requires
        cut_short(tail),
    ensures
        parse_spec(toks, tail) matches Err(errors) && ends_at_end(errors),
{
}

/// A source text that ends in a string literal left open never parses: the
/// diagnostics end with the one that says that the tokens ran out, which
/// points at the open literal.
pub proof fn lemma_open_string_never_parses(s: Seq<char>)
    requires
        ends_open(s, 0),
    ensures
        parse_spec(lex(s, 0).tokens, lex(s, 0).tail) matches Err(errors) && ends_at_end(errors),
        lex(s, 0).tail.text.len() > 0,
        lex(s, 0).tail.text[0] == '\'',
{
    lemma_open_string_cuts_short(s, 0);
    lemma_cut_short_is_reported(lex(s, 0).tokens, lex(s, 0).tail);
}

/// Where no expression starts, reading one fails.
pub proof fn lemma_expression_needs_start(
    toks: Seq<SpecToken>,
    tail: SpecSourceView,
    min_precedence: int,
)
    requires
        !starts_expression(toks),
    ensures
        expression(toks, tail, min_precedence).result is Err,
        unary(toks, tail).result is Err,
        postfix(toks, tail).result is Err,
        primary(toks, tail).result is Err,
{
}

/// Parsing fails with at least one diagnostic, never with none.
pub proof fn lemma_failure_has_diagnostics(toks: Seq<SpecToken>, tail: SpecSourceView)
    ensures
        parse_spec(toks, tail) matches Err(errors) ==> errors.len() > 0,
{
}

/// A statement that starts with no binding keyword gives one diagnostic,
/// which names the three binding keywords and points at the token; reading
/// goes on behind it at the next token that starts a statement.
pub proof fn lemma_statement_needs_keyword(toks: Seq<SpecToken>, tail: SpecSourceView)
    requires
        toks.len() > 0,
        bind_type(toks[0].kind) is None,
    ensures
        statement(toks, tail) == failed::<Tree>(
            unexpected(statement_starts(), toks[0]),
            toks.skip(1),
        ),
        module(toks, tail, Outcome { trees: Seq::empty(), errors: Seq::empty() }) == module(
            resync(toks.skip(1)),
            tail,
            Outcome {
                trees: Seq::empty(),
                errors: seq![unexpected(statement_starts(), toks[0])],
            },
        ),
{
    assert(Seq::<SpecError>::empty().push(unexpected(statement_starts(), toks[0])) =~= seq![
        unexpected(statement_starts(), toks[0]),
    ]);
}

} // verus!
