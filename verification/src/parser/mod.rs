use crate::ast::token::{SpecToken, SpecTokenKind, Token, TokenKind};
use crate::ast::{
    attached, detached, forest, lemma_forest_frame, subtree, Ast, BindType, NodeId, NodeKind,
    SpecNode, SpecSourceView, Tree,
};
use crate::parser::error::{errors_view, kinds_view, Error, ErrorKind, SpecError};
use crate::parser::lexer::Lexer;
use crate::parser::syntax::{
    annotation, bind_type, binary_op, binding, branch, diagnostics, done, ends_at_end, expect,
    lemma_resync_shorter, module, parse_spec, prefix_op, same_kind, starts_expression, statement,
    statement_starts,
    unexpected, unexpected_end, Outcome, Parsed, Strength,
};
use vstd::prelude::*;

pub mod error;
pub mod expr;
pub mod lexer;
pub mod lexical;
pub mod syntax;
pub mod types;

verus! {

/// Reads the tokens of a lexer into a syntax tree.
pub struct Parser<'a> {
    lexer: &'a mut Lexer<'a>,
    ast: Ast<'a>,
    errors: Vec<Error<'a>>,
}

/// What parsing gives: the tree, or the diagnostics.
pub type ParseResult<'a> = Result<Ast<'a>, Vec<Error<'a>>>;

/// How tightly a binary operator binds, and whether it groups to the right.
pub(crate) struct Precedence {
    pub precedence: u8,
    pub right: bool,
}

/// Whether two token kinds are of the same category, whatever text they
/// carry.
pub(crate) fn same_category<'a>(a: TokenKind<'a>, b: TokenKind<'a>) -> (same: bool)
    ensures
        same == same_kind(a@, b@),
{
    match (a, b) {
        (TokenKind::KwEnd, TokenKind::KwEnd) => true,
        (TokenKind::KwDo, TokenKind::KwDo) => true,
        (TokenKind::KwStatic, TokenKind::KwStatic) => true,
        (TokenKind::KwConst, TokenKind::KwConst) => true,
        (TokenKind::KwLet, TokenKind::KwLet) => true,
        (TokenKind::KwFn, TokenKind::KwFn) => true,
        (TokenKind::LParen, TokenKind::LParen) => true,
        (TokenKind::RParen, TokenKind::RParen) => true,
        (TokenKind::Comma, TokenKind::Comma) => true,
        (TokenKind::Dot, TokenKind::Dot) => true,
        (TokenKind::Column, TokenKind::Column) => true,
        (TokenKind::Assign, TokenKind::Assign) => true,
        (TokenKind::Plus, TokenKind::Plus) => true,
        (TokenKind::AssignPlus, TokenKind::AssignPlus) => true,
        (TokenKind::Minus, TokenKind::Minus) => true,
        (TokenKind::AssignMinus, TokenKind::AssignMinus) => true,
        (TokenKind::Mul, TokenKind::Mul) => true,
        (TokenKind::AssignMul, TokenKind::AssignMul) => true,
        (TokenKind::Div, TokenKind::Div) => true,
        (TokenKind::AssignDiv, TokenKind::AssignDiv) => true,
        (TokenKind::Less, TokenKind::Less) => true,
        (TokenKind::LessEq, TokenKind::LessEq) => true,
        (TokenKind::Greater, TokenKind::Greater) => true,
        (TokenKind::GreaterEq, TokenKind::GreaterEq) => true,
        (TokenKind::Equal, TokenKind::Equal) => true,
        (TokenKind::Not, TokenKind::Not) => true,
        (TokenKind::NotEq, TokenKind::NotEq) => true,
        (TokenKind::ScopeAccess, TokenKind::ScopeAccess) => true,
        (TokenKind::Str(_), TokenKind::Str(_)) => true,
        (TokenKind::Ident(_), TokenKind::Ident(_)) => true,
        _ => false,
    }
}

/// The way of binding that a keyword stands for.
pub(crate) fn binding_keyword<'a>(kind: TokenKind<'a>) -> (bt: Option<BindType>)
    ensures
        bt == bind_type(kind@),
{
    match kind {
        TokenKind::KwStatic => Some(BindType::Static),
        TokenKind::KwConst => Some(BindType::Const),
        TokenKind::KwLet => Some(BindType::Let),
        _ => None,
    }
}

/// The binding strength of a binary operator.
pub(crate) fn binary_operator<'a>(kind: TokenKind<'a>) -> (op: Option<Precedence>)
    ensures
        match op {
            Some(o) => binary_op(kind@) == Some(
                Strength { precedence: o.precedence as int, right: o.right },
            ) && 1 <= o.precedence <= 5,
            None => binary_op(kind@) is None,
        },
{
    match kind {
        TokenKind::Assign
        | TokenKind::AssignPlus
        | TokenKind::AssignMinus
        | TokenKind::AssignMul
        | TokenKind::AssignDiv => Some(Precedence { precedence: 1, right: true }),
        TokenKind::Equal | TokenKind::NotEq => Some(Precedence { precedence: 2, right: false }),
        TokenKind::Less | TokenKind::LessEq | TokenKind::Greater | TokenKind::GreaterEq => Some(
            Precedence { precedence: 3, right: false },
        ),
        TokenKind::Plus | TokenKind::Minus => Some(Precedence { precedence: 4, right: false }),
        TokenKind::Mul | TokenKind::Div => Some(Precedence { precedence: 5, right: false }),
        _ => None,
    }
}

/// Whether a token is a prefix operator.
pub(crate) fn prefix_operator<'a>(kind: TokenKind<'a>) -> (prefix: bool)
    ensures
        prefix == prefix_op(kind@),
{
    match kind {
        TokenKind::Not | TokenKind::Minus => true,
        _ => false,
    }
}

/// The diagnostic for the token `got` where one of `expected` had to stand.
pub(crate) fn unexpected_token<'a>(expected: Vec<TokenKind<'a>>, got: Token<'a>) -> (e: Error<'a>)
    ensures
        e@ == unexpected(kinds_view(expected@), got@),
{
    Error { kind: ErrorKind::UnexpectedToken { expected, got: got.data }, view: got.view }
}

impl<'a> Parser<'a> {
    /// The parser's lexer and arena are well formed.
    pub closed spec fn wf(&self) -> bool {
        self.lexer.wf() && self.ast.wf()
    }

    /// The tokens that the parser has not read yet.
    pub closed spec fn remaining(&self) -> Seq<SpecToken> {
        self.lexer.remaining()
    }

    /// The place where the parser's token stream stops.
    pub closed spec fn tail(&self) -> SpecSourceView {
        self.lexer.tail()
    }

    /// The nodes that the parser has made.
    pub closed spec fn arena(&self) -> Seq<SpecNode> {
        self.ast@
    }

    /// From `before` to `after` the parser read tokens up to `rest` and did
    /// no more to its arena than add nodes.
    pub closed spec fn stepped(before: Self, after: Self, rest: Seq<SpecToken>) -> bool {
        &&& before.wf()
        &&& after.wf()
        &&& after.lexer.source() == before.lexer.source()
        &&& after.lexer.tail() == before.lexer.tail()
        &&& after.lexer.remaining() == rest
        &&& rest.len() <= before.lexer.remaining().len()
        &&& after.errors == before.errors
        &&& before.ast@.len() <= after.ast@.len()
        &&& forall|j: int| 0 <= j < before.ast@.len() ==> #[trigger] after.ast@[j] == before.ast@[j]
    }

    /// From `before` to `after` the parser read one construct as `spec` says:
    /// on success the tree of `spec` stands in the arena below node `id`, the
    /// last node, which waits for a parent as the only new node.
    pub closed spec fn built(
        before: Self,
        after: Self,
        r: Result<NodeId, Error<'a>>,
        spec: Parsed<Tree>,
    ) -> bool {
        &&& Self::stepped(before, after, spec.rest)
        &&& match r {
            Ok(id) => {
                &&& spec.result == Ok::<Tree, SpecError>(subtree(after.ast@, id as int))
                &&& before.ast@.len() <= id
                &&& id + 1 == after.ast@.len()
                &&& after.ast@[id as int].parent is None
                &&& forall|c: int|
                    before.ast@.len() <= c < id ==> (#[trigger] after.ast@[c]).parent is Some
                &&& spec.rest.len() < before.lexer.remaining().len()
            },
            Err(e) => spec.result == Err::<Tree, SpecError>(e@),
        }
    }

    /// A binding behind its keyword fails before any part of its value is
    /// read: at its name, in its type annotation, at its `=`, or where no
    /// expression starts behind the `=`. No node is made then.
    pub closed spec fn stops_early(toks: Seq<SpecToken>, tail: SpecSourceView) -> bool {
        let name = expect(toks, tail, SpecTokenKind::Ident(Seq::empty()));
        let annotated = annotation(name.rest, tail);
        let assign = expect(annotated.rest, tail, SpecTokenKind::Assign);
        name.result is Err || annotated.result is Err || assign.result is Err
            || !starts_expression(assign.rest)
    }

    /// Since `before` the parser has read tokens and built the trees `trees`,
    /// which wait below the nodes `kids` for a parent. Every other node made
    /// since has one.
    pub closed spec fn collected(
        before: Self,
        now: Self,
        kids: Seq<NodeId>,
        trees: Seq<Tree>,
    ) -> bool {
        &&& Self::stepped(before, now, now.lexer.remaining())
        &&& detached(now.ast@, kids)
        &&& forest(now.ast@, kids) == trees
        &&& forall|k: int| 0 <= k < kids.len() ==> before.ast@.len() <= #[trigger] kids[k]
        &&& forall|c: int|
            before.ast@.len() <= c < now.ast@.len() && !kids.contains(c as usize) ==> (
            #[trigger] now.ast@[c]).parent is Some
    }

    /// Where no node was made, no tree waits.
    proof fn lemma_collected_none(before: Self, now: Self)
        requires
            Self::stepped(before, now, now.lexer.remaining()),
            now.ast@ == before.ast@,
        ensures
            Self::collected(before, now, Seq::empty(), Seq::empty()),
    {
        assert(forest(now.ast@, Seq::empty()) =~= Seq::<Tree>::empty());
    }

    /// A construct that was just built is the one tree that waits.
    proof fn lemma_built_collected(before: Self, now: Self, id: NodeId, spec: Parsed<Tree>, tree: Tree)
        requires
            Self::built(before, now, Ok(id), spec),
            spec.result == Ok::<Tree, SpecError>(tree),
        ensures
            Self::collected(before, now, seq![id], seq![tree]),
    {
        let kids = seq![id];
        assert(kids[0] == id);
        assert(forest(now.ast@, kids) =~= seq![tree]);
    }

    /// A construct built behind trees that wait joins them.
    proof fn lemma_collect(
        before: Self,
        mid: Self,
        now: Self,
        kids: Seq<NodeId>,
        trees: Seq<Tree>,
        id: NodeId,
        spec: Parsed<Tree>,
        tree: Tree,
    )
        requires
            Self::collected(before, mid, kids, trees),
            Self::built(mid, now, Ok(id), spec),
            spec.result == Ok::<Tree, SpecError>(tree),
        ensures
            Self::collected(before, now, kids.push(id), trees.push(tree)),
    {
        let all = kids.push(id);
        lemma_forest_frame(mid.ast@, now.ast@, kids);
        assert(forest(now.ast@, all) =~= trees.push(tree));
        assert(all[kids.len() as int] == id);
        assert forall|c: int|
            before.ast@.len() <= c < now.ast@.len() && !all.contains(c as usize) implies (
        #[trigger] now.ast@[c]).parent is Some by {
            if c < mid.ast@.len() {
                if kids.contains(c as usize) {
                    let w = choose|w: int| 0 <= w < kids.len() && kids[w] == c as usize;
                    assert(all[w] == c as usize);
                }
                assert(now.ast@[c] == mid.ast@[c]);
            }
        }
        assert forall|k: int| 0 <= k < all.len() implies 0 < #[trigger] all[k] < now.ast@.len()
            && now.ast@[all[k] as int].parent is None by {
            if k < kids.len() {
                assert(all[k] == kids[k]);
                assert(now.ast@[kids[k] as int] == mid.ast@[kids[k] as int]);
            }
        }
        assert forall|k: int, l: int| 0 <= k < l < all.len() implies #[trigger] all[k]
            < #[trigger] all[l] by {
            assert(all[k] == kids[k]);
            if l < kids.len() {
                assert(all[l] == kids[l]);
            }
        }
    }

    /// Trees that wait go on waiting while only tokens are read.
    proof fn lemma_collect_moved(
        before: Self,
        mid: Self,
        now: Self,
        kids: Seq<NodeId>,
        trees: Seq<Tree>,
    )
        requires
            Self::collected(before, mid, kids, trees),
            Self::stepped(mid, now, now.lexer.remaining()),
            now.ast@ == mid.ast@,
        ensures
            Self::collected(before, now, kids, trees),
    {
    }

    /// Trees that wait since a state wait since any earlier state that has
    /// the same arena.
    proof fn lemma_collect_rebased(
        before: Self,
        mid: Self,
        now: Self,
        kids: Seq<NodeId>,
        trees: Seq<Tree>,
    )
        requires
            Self::stepped(before, mid, mid.lexer.remaining()),
            mid.ast@ == before.ast@,
            Self::collected(mid, now, kids, trees),
        ensures
            Self::collected(before, now, kids, trees),
    {
    }

    /// Adds the node of a construct above the trees that wait below `kids`.
    fn build(
        &mut self,
        kind: NodeKind,
        token: Token<'a>,
        kids: Vec<NodeId>,
        Ghost(before): Ghost<Self>,
        Ghost(trees): Ghost<Seq<Tree>>,
    ) -> (id: NodeId)
        requires
            Self::collected(before, *old(self), kids@, trees),
            old(self).lexer.remaining().len() < before.lexer.remaining().len(),
        ensures
            Self::built(
                before,
                *final(self),
                Ok(id),
                done(branch(kind, token@, trees), old(self).lexer.remaining()),
            ),
    {
        let ghost mid = *self;
        let ghost ids = kids@;
        let id = self.ast.add_node(kind, Some(token), kids);
        proof {
            assert forall|j: int| 0 <= j < before.ast@.len() implies #[trigger] self.ast@[j]
                == before.ast@[j] by {
                if ids.contains(j as usize) {
                    let w = choose|w: int| 0 <= w < ids.len() && ids[w] == j as usize;
                    assert(before.ast@.len() <= ids[w]);
                }
                assert(mid.ast@[j] == before.ast@[j]);
            }
            assert forall|c: int| before.ast@.len() <= c < id implies (
            #[trigger] self.ast@[c]).parent is Some by {
                if !ids.contains(c as usize) {
                    assert(mid.ast@[c].parent is Some);
                }
            }
        }
        id
    }

    /// A parser at the start of the tokens of `lexer`, with an empty module.
    fn new(lexer: &'a mut Lexer<'a>) -> (parser: Self)
        requires
            old(lexer).wf(),
        ensures
            parser.wf(),
            parser.lexer.source() == old(lexer).source(),
            parser.lexer.remaining() == old(lexer).remaining(),
            parser.lexer.tail() == old(lexer).tail(),
            parser.errors@.len() == 0,
            parser.ast@.len() == 1,
            attached(parser.ast@),
            parser.ast.tree().children.len() == 0,
    {
        Self { lexer, ast: Ast::new(), errors: Vec::new() }
    }

    /// Records a diagnostic.
    #[inline(always)]
    fn error(&mut self, error: Error<'a>)
        ensures
            final(self).lexer == old(self).lexer,
            final(self).ast == old(self).ast,
            final(self).errors@ == old(self).errors@.push(error),
    {
        self.errors.push(error);
    }

    /// The diagnostic for tokens that ran out.
    fn end_error(&mut self) -> (e: Error<'a>)
        requires
            old(self).wf(),
        ensures
            Self::stepped(*old(self), *final(self), old(self).lexer.remaining()),
            final(self).ast == old(self).ast,
            e@ == unexpected_end(old(self).lexer.tail()),
    {
        Error { kind: ErrorKind::UnexpectedEndOfTokenStream, view: self.lexer.end_of_stream() }
    }

    /// Reads one token of the category of `wanted`. A token of another
    /// category stays in the stream.
    fn expect_token(&mut self, wanted: TokenKind<'a>) -> (r: Result<Token<'a>, Error<'a>>)
        requires
            old(self).wf(),
        ensures
            Self::stepped(
                *old(self),
                *final(self),
                expect(old(self).lexer.remaining(), old(self).lexer.tail(), wanted@).rest,
            ),
            final(self).ast == old(self).ast,
            match r {
                Ok(token) => expect(
                    old(self).lexer.remaining(),
                    old(self).lexer.tail(),
                    wanted@,
                ).result == Ok::<SpecToken, SpecError>(token@),
                Err(e) => expect(
                    old(self).lexer.remaining(),
                    old(self).lexer.tail(),
                    wanted@,
                ).result == Err::<SpecToken, SpecError>(e@),
            },
    {
        match self.lexer.peek(0) {
            None => Err(self.end_error()),
            Some(token) => {
                if same_category(token.data, wanted) {
                    let _ = self.lexer.seek(0);
                    Ok(token)
                } else {
                    let expected = vec![wanted];
                    assert(kinds_view(expected@) =~= seq![wanted@]);
                    Err(unexpected_token(expected, token))
                }
            },
        }
    }

    /// Drops tokens up to the next one that starts a statement.
    #[verifier::loop_isolation(false)]
    fn resync(&mut self)
        requires
            old(self).wf(),
        ensures
            Self::stepped(
                *old(self),
                *final(self),
                syntax::resync(old(self).lexer.remaining()),
            ),
            final(self).ast == old(self).ast,
    {
        let mut searching = true;
        while searching
            invariant
                Self::stepped(*old(self), *self, self.lexer.remaining()),
                self.ast == old(self).ast,
                syntax::resync(self.lexer.remaining())
                    == syntax::resync(old(self).lexer.remaining()),
                !searching ==> syntax::resync(self.lexer.remaining())
                    == self.lexer.remaining(),
            decreases self.lexer.remaining().len() + (if searching { 1int } else { 0int }),
        {
            match self.lexer.peek(0) {
                None => {
                    searching = false;
                },
                Some(token) => {
                    if binding_keyword(token.data).is_some() {
                        searching = false;
                    } else {
                        let _ = self.lexer.seek(0);
                    }
                },
            }
        }
    }

    /// Whether the last diagnostic says that the tokens ran out.
    fn ended(&self) -> (ended: bool)
        ensures
            ended == ends_at_end(errors_view(self.errors@)),
    {
        let n = self.errors.len();
        if n == 0 {
            false
        } else {
            match &self.errors[n - 1].kind {
                ErrorKind::UnexpectedEndOfTokenStream => true,
                _ => false,
            }
        }
    }

    /// Parses the tokens of `lexer` as a module. Gives the module's tree, or,
    /// where anything is wrong with the source, every diagnostic met, in
    /// source order. Parsing does not stop at the first diagnostic: behind
    /// each one it goes on at the next token that starts a statement.
    pub fn parse(lexer: &'a mut Lexer<'a>) -> (result: ParseResult<'a>)
        requires
            old(lexer).wf(),
        ensures
            match result {
                Ok(ast) => {
                    &&& parse_spec(old(lexer).remaining(), old(lexer).tail()) == Ok::<
                        Tree,
                        Seq<SpecError>,
                    >(ast.tree())
                    &&& ast.wf()
                    &&& attached(ast@)
                },
                Err(errors) => {
                    &&& parse_spec(old(lexer).remaining(), old(lexer).tail()) == Err::<
                        Tree,
                        Seq<SpecError>,
                    >(errors_view(errors@))
                    &&& errors@.len() > 0
                },
            },
    {
        let mut parser = Self::new(lexer);
        parser.parse_module();
        let tail = parser.lexer.end_of_stream();
        if !tail.view.is_empty() && !parser.ended() {
            let ghost before = errors_view(parser.errors@);
            let error = Error { kind: ErrorKind::UnexpectedEndOfTokenStream, view: tail };
            parser.error(error);
            assert(errors_view(parser.errors@) =~= before.push(error@));
        }
        let Parser { lexer: _, ast, errors } = parser;
        if errors.len() == 0 {
            Ok(ast)
        } else {
            Err(errors)
        }
    }

    /// Reads statements until the tokens run out. Statements that were read
    /// before any diagnostic become children of the root.
    #[verifier::loop_isolation(false)]
    fn parse_module(&mut self)
        requires
            old(self).wf(),
            old(self).errors@.len() == 0,
            attached(old(self).ast@),
            old(self).ast.tree().children.len() == 0,
        ensures
            final(self).wf(),
            final(self).lexer.source() == old(self).lexer.source(),
            final(self).lexer.tail() == old(self).lexer.tail(),
            final(self).lexer.remaining().len() == 0,
            ({
                let read = module(
                    old(self).lexer.remaining(),
                    old(self).lexer.tail(),
                    Outcome { trees: Seq::empty(), errors: Seq::empty() },
                );
                &&& errors_view(final(self).errors@) == read.errors
                &&& final(self).errors@.len() == 0 ==> attached(final(self).ast@)
                    && final(self).ast.tree().children == read.trees
            }),
    {
        let ghost tail = self.lexer.tail();
        let ghost mut trees: Seq<Tree> = Seq::empty();
        assert(errors_view(self.errors@) =~= Seq::empty());
        assert(self.ast.tree().children =~= trees);
        let mut more = true;
        while more
            invariant
                self.wf(),
                self.lexer.source() == old(self).lexer.source(),
                self.lexer.tail() == tail,
                tail == old(self).lexer.tail(),
                module(
                    old(self).lexer.remaining(),
                    tail,
                    Outcome { trees: Seq::empty(), errors: Seq::empty() },
                ) == module(
                    self.lexer.remaining(),
                    tail,
                    Outcome { trees, errors: errors_view(self.errors@) },
                ),
                self.errors@.len() == 0 ==> attached(self.ast@) && self.ast.tree().children
                    == trees,
                !more ==> self.lexer.remaining().len() == 0,
            decreases self.lexer.remaining().len() + (if more { 1int } else { 0int }),
        {
            if self.lexer.peek(0).is_none() {
                more = false;
            } else {
                let ghost before = *self;
                let ghost seen = errors_view(self.errors@);
                match self.parse_statement() {
                    Ok(id) => {
                        proof {
                            lemma_forest_frame(before.ast@, self.ast@, before.ast@[0].children);
                            trees = trees.push(subtree(self.ast@, id as int));
                        }
                        if self.errors.len() == 0 {
                            let ghost mid = self.ast@;
                            self.ast.attach(id);
                            assert forall|c: int| 0 < c < self.ast@.len() implies (
                            #[trigger] self.ast@[c]).parent is Some by {
                                if c < before.ast@.len() {
                                    assert(mid[c] == before.ast@[c]);
                                }
                            }
                        }
                    },
                    Err(e) => {
                        self.error(e);
                        proof {
                            assert(errors_view(self.errors@) =~= seen.push(e@));
                            lemma_resync_shorter(self.lexer.remaining());
                        }
                        self.resync();
                    },
                }
            }
        }
    }

    /// Reads a statement of the module, which a binding keyword starts.
    fn parse_statement(&mut self) -> (r: Result<NodeId, Error<'a>>)
        requires
            old(self).wf(),
        ensures
            Self::built(
                *old(self),
                *final(self),
                r,
                statement(old(self).lexer.remaining(), old(self).lexer.tail()),
            ),
            old(self).lexer.remaining().len() > 0 ==> final(self).lexer.remaining().len()
                < old(self).lexer.remaining().len(),
            r is Err && (old(self).lexer.remaining().len() == 0 || bind_type(
                old(self).lexer.remaining()[0].kind,
            ) is None) ==> final(self).arena() == old(self).arena(),
            r is Err && old(self).lexer.remaining().len() > 0 && bind_type(
                old(self).lexer.remaining()[0].kind,
            ) is Some && Self::stops_early(
                old(self).lexer.remaining().skip(1),
                old(self).lexer.tail(),
            ) ==> final(self).arena() == old(self).arena(),
    {
        let cur_tok = match self.lexer.seek(0) {
            Some(token) => token,
            None => {
                return Err(self.end_error());
            },
        };
        match binding_keyword(cur_tok.data) {
            Some(bt) => self.parse_binding(bt),
            None => {
                let expected = vec![TokenKind::KwStatic, TokenKind::KwConst, TokenKind::KwLet];
                assert(kinds_view(expected@) =~= statement_starts());
                Err(unexpected_token(expected, cur_tok))
            },
        }
    }

    /// Reads a binding behind its keyword: a name, an optional type
    /// annotation, `=` and the value.
    fn parse_binding(&mut self, bt: BindType) -> (r: Result<NodeId, Error<'a>>)
        requires
            old(self).wf(),
        ensures
            Self::built(
                *old(self),
                *final(self),
                r,
                binding(old(self).lexer.remaining(), old(self).lexer.tail(), bt),
            ),
            expect(
                old(self).lexer.remaining(),
                old(self).lexer.tail(),
                SpecTokenKind::Ident(Seq::empty()),
            ).result is Err ==> final(self).arena() == old(self).arena(),
            Self::stops_early(old(self).lexer.remaining(), old(self).lexer.tail()) ==> r is Err
                && final(self).arena() == old(self).arena(),
        decreases old(self).lexer.remaining().len(), 7int,
    {
        let ghost before = *self;
        let ghost tail = self.lexer.tail();
        proof {
            reveal_strlit("");
        }
        assert(TokenKind::Ident("")@ == SpecTokenKind::Ident(Seq::empty())) by {
            assert(""@ =~= Seq::<char>::empty());
        }
        // Get the ident
        let ident = match self.expect_token(TokenKind::Ident("")) {
            Ok(token) => token,
            Err(e) => {
                return Err(e);
            },
        };
        let ghost named = *self;
        let mut kids: Vec<NodeId> = Vec::new();
        let ghost mut trees: Seq<Tree> = Seq::empty();
        // Type annotation
        let annotated = match self.lexer.peek(0) {
            Some(token) => match token.data {
                TokenKind::Column => true,
                _ => false,
            },
            None => false,
        };
        if annotated {
            let _ = self.lexer.seek(0);
            match self.parse_explicit_type() {
                Ok(ty) => {
                    proof {
                        trees = trees.push(subtree(self.ast@, ty as int));
                    }
                    kids.push(ty);
                },
                Err(e) => {
                    return Err(e);
                },
            }
        }
        assert(annotation(named.lexer.remaining(), tail) == done::<Seq<Tree>>(
            trees,
            self.lexer.remaining(),
        ));
        proof {
            Self::lemma_collected_none(before, *self);
        }
        let ghost typed = *self;
        match self.expect_token(TokenKind::Assign) {
            Ok(_) => {},
            Err(e) => {
                return Err(e);
            },
        }
        let ghost assigned = *self;
        proof {
            Self::lemma_collect_moved(before, typed, assigned, kids@, trees);
        }
        let value = match self.parse_expression(1) {
            Ok(id) => id,
            Err(e) => {
                return Err(e);
            },
        };
        proof {
            let spec = syntax::expression(assigned.lexer.remaining(), tail, 1);
            let tree = subtree(self.ast@, value as int);
            Self::lemma_collect(before, assigned, *self, kids@, trees, value, spec, tree);
            trees = trees.push(tree);
        }
        kids.push(value);
        Ok(self.build(NodeKind::Binding(bt), ident, kids, Ghost(before), Ghost(trees)))
    }
}

} // verus!
