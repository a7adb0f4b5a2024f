use super::error::{kinds_view, Error, SpecError};
use super::syntax::{
    argument_ends, arguments, bind_type, binding, block, branch, climb, done, expect, expression,
    expression_starts, function, leaf, postfix, postfix_tail, primary, starts_expression,
    starts_primary, unary,
};
use super::{binary_operator, binding_keyword, prefix_operator, unexpected_token, Parser};
use crate::ast::token::{SpecTokenKind, TokenKind};
use crate::ast::{subtree, NodeId, NodeKind, Tree};
use vstd::prelude::*;
use vstd::string::*;

verus! {

impl<'a> Parser<'a> {
    /// Reads an expression whose binary operators bind at least as tightly as
    /// `min_precedence`.
    #[verifier::loop_isolation(false)]
    pub(super) fn parse_expression(&mut self, min_precedence: u8) -> (r: Result<NodeId, Error<'a>>)
        requires
            old(self).wf(),
            min_precedence <= 6,
        ensures
            Self::built(
                *old(self),
                *final(self),
                r,
                expression(old(self).remaining(), old(self).tail(), min_precedence as int),
            ),
            !starts_expression(old(self).remaining()) ==> r is Err && final(self).arena()
                == old(self).arena(),
        decreases old(self).remaining().len(), 6int,
    {
        let ghost before = *self;
        let ghost tail = self.tail();
        let mut left = match self.parse_unary() {
            Ok(id) => id,
            Err(e) => {
                return Err(e);
            },
        };
        let ghost first = *self;
        let ghost first_tree = subtree(self.ast@, left as int);
        let ghost mut tree = first_tree;
        loop
            invariant
                self.wf(),
                self.tail() == tail,
                tail == before.tail(),
                min_precedence <= 6,
                before == *old(self),
                Self::built(before, *self, Ok(left), done(tree, self.remaining())),
                climb(first.remaining(), tail, min_precedence as int, first_tree) == climb(
                    self.remaining(),
                    tail,
                    min_precedence as int,
                    tree,
                ),
            decreases self.remaining().len(),
        {
            let token = match self.lexer.peek(0) {
                Some(token) => token,
                None => {
                    return Ok(left);
                },
            };
            let op = match binary_operator(token.data) {
                Some(op) => op,
                None => {
                    return Ok(left);
                },
            };
            if op.precedence < min_precedence {
                return Ok(left);
            }
            let ghost at_op = *self;
            let _ = self.lexer.seek(0);
            let ghost mid = *self;
            proof {
                Self::lemma_built_collected(
                    before,
                    at_op,
                    left,
                    done(tree, at_op.remaining()),
                    tree,
                );
                Self::lemma_collect_moved(before, at_op, mid, seq![left], seq![tree]);
            }
            let next = if op.right {
                op.precedence
            } else {
                op.precedence + 1
            };
            let right = match self.parse_expression(next) {
                Ok(id) => id,
                Err(e) => {
                    return Err(e);
                },
            };
            let ghost right_tree = subtree(self.ast@, right as int);
            proof {
                Self::lemma_collect(
                    before,
                    mid,
                    *self,
                    seq![left],
                    seq![tree],
                    right,
                    expression(mid.remaining(), tail, next as int),
                    right_tree,
                );
            }
            let mut kids: Vec<NodeId> = Vec::new();
            kids.push(left);
            kids.push(right);
            assert(kids@ =~= seq![left].push(right));
            assert(seq![tree].push(right_tree) =~= seq![tree, right_tree]);
            let ghost operands = seq![tree, right_tree];
            left = self.build(NodeKind::Binary, token, kids, Ghost(before), Ghost(operands));
            proof {
                tree = branch(NodeKind::Binary, token@, seq![tree, right_tree]);
            }
        }
    }

    /// Reads an operand with its prefix operators.
    pub(super) fn parse_unary(&mut self) -> (r: Result<NodeId, Error<'a>>)
        requires
            old(self).wf(),
        ensures
            Self::built(*old(self), *final(self), r, unary(old(self).remaining(), old(self).tail())),
            !starts_expression(old(self).remaining()) ==> r is Err && final(self).arena()
                == old(self).arena(),
        decreases old(self).remaining().len(), 5int,
    {
        let ghost before = *self;
        let prefix = match self.lexer.peek(0) {
            Some(token) => if prefix_operator(token.data) {
                Some(token)
            } else {
                None
            },
            None => None,
        };
        match prefix {
            None => self.parse_postfix(),
            Some(token) => {
                let _ = self.lexer.seek(0);
                let ghost mid = *self;
                let operand = match self.parse_unary() {
                    Ok(id) => id,
                    Err(e) => {
                        return Err(e);
                    },
                };
                let ghost tree = subtree(self.ast@, operand as int);
                proof {
                    Self::lemma_built_collected(
                        mid,
                        *self,
                        operand,
                        unary(mid.remaining(), mid.tail()),
                        tree,
                    );
                    Self::lemma_collect_rebased(before, mid, *self, seq![operand], seq![tree]);
                }
                let mut kids: Vec<NodeId> = Vec::new();
                kids.push(operand);
                assert(kids@ =~= seq![operand]);
                let ghost operands = seq![tree];
                Ok(self.build(NodeKind::Unary, token, kids, Ghost(before), Ghost(operands)))
            },
        }
    }

    /// Reads a primary expression with the scope accesses and calls that
    /// follow it.
    #[verifier::loop_isolation(false)]
    pub(super) fn parse_postfix(&mut self) -> (r: Result<NodeId, Error<'a>>)
        requires
            old(self).wf(),
        ensures
            Self::built(
                *old(self),
                *final(self),
                r,
                postfix(old(self).remaining(), old(self).tail()),
            ),
            !starts_primary(old(self).remaining()) ==> r is Err && final(self).arena()
                == old(self).arena(),
        decreases old(self).remaining().len(), 4int,
    {
        let ghost before = *self;
        let ghost tail = self.tail();
        let mut head = match self.parse_primary() {
            Ok(id) => id,
            Err(e) => {
                return Err(e);
            },
        };
        let ghost first = *self;
        let ghost first_tree = subtree(self.ast@, head as int);
        let ghost mut tree = first_tree;
        proof {
            reveal_strlit("");
            assert(""@ =~= Seq::<char>::empty());
        }
        loop
            invariant
                self.wf(),
                self.tail() == tail,
                tail == before.tail(),
                before == *old(self),
                TokenKind::Ident("")@ == SpecTokenKind::Ident(Seq::empty()),
                Self::built(before, *self, Ok(head), done(tree, self.remaining())),
                postfix_tail(first.remaining(), tail, first_tree) == postfix_tail(
                    self.remaining(),
                    tail,
                    tree,
                ),
            decreases self.remaining().len(),
        {
            let token = match self.lexer.peek(0) {
                Some(token) => token,
                None => {
                    return Ok(head);
                },
            };
            let ghost at_op = *self;
            proof {
                Self::lemma_built_collected(
                    before,
                    at_op,
                    head,
                    done(tree, at_op.remaining()),
                    tree,
                );
            }
            match token.data {
                TokenKind::ScopeAccess => {
                    let _ = self.lexer.seek(0);
                    let name = match self.expect_token(TokenKind::Ident("")) {
                        Ok(token) => token,
                        Err(e) => {
                            return Err(e);
                        },
                    };
                    let ghost named = *self;
                    proof {
                        Self::lemma_collected_none(at_op, named);
                    }
                    let member = self.build(
                        NodeKind::Ident,
                        name,
                        Vec::new(),
                        Ghost(at_op),
                        Ghost(Seq::empty()),
                    );
                    let ghost member_tree = leaf(NodeKind::Ident, name@);
                    proof {
                        Self::lemma_collect(
                            before,
                            at_op,
                            *self,
                            seq![head],
                            seq![tree],
                            member,
                            done(member_tree, named.remaining()),
                            member_tree,
                        );
                    }
                    let mut kids: Vec<NodeId> = Vec::new();
                    kids.push(head);
                    kids.push(member);
                    assert(kids@ =~= seq![head].push(member));
                    assert(seq![tree].push(member_tree) =~= seq![tree, member_tree]);
                    let ghost parts = seq![tree, member_tree];
                    head = self.build(NodeKind::Scope, token, kids, Ghost(before), Ghost(parts));
                    proof {
                        tree = branch(NodeKind::Scope, token@, seq![tree, member_tree]);
                    }
                },
                TokenKind::LParen => {
                    let _ = self.lexer.seek(0);
                    let ghost opened = *self;
                    proof {
                        Self::lemma_collect_moved(before, at_op, opened, seq![head], seq![tree]);
                    }
                    let mut kids: Vec<NodeId> = Vec::new();
                    kids.push(head);
                    assert(kids@ =~= seq![head]);
                    let ghost callee = seq![tree];
                    let kids = match self.parse_arguments(kids, Ghost(before), Ghost(callee)) {
                        Ok(kids) => kids,
                        Err(e) => {
                            return Err(e);
                        },
                    };
                    let ghost items = arguments(opened.remaining(), tail, seq![tree]).result->Ok_0;
                    head = self.build(NodeKind::Call, token, kids, Ghost(before), Ghost(items));
                    proof {
                        tree = branch(NodeKind::Call, token@, items);
                    }
                },
                _ => {
                    return Ok(head);
                },
            }
        }
    }

    /// Reads the arguments of a call behind its opening parenthesis, up to
    /// and with the closing one, and adds them to `kids`.
    #[verifier::loop_isolation(false)]
    pub(super) fn parse_arguments(
        &mut self,
        kids: Vec<NodeId>,
        Ghost(before): Ghost<Self>,
        Ghost(given): Ghost<Seq<Tree>>,
    ) -> (r: Result<Vec<NodeId>, Error<'a>>)
        requires
            old(self).wf(),
            Self::collected(before, *old(self), kids@, given),
        ensures
            Self::stepped(
                *old(self),
                *final(self),
                arguments(old(self).remaining(), old(self).tail(), given).rest,
            ),
            match r {
                Ok(all) => {
                    &&& arguments(old(self).remaining(), old(self).tail(), given).result matches Ok(
                        items,
                    )
                    &&& Self::collected(before, *final(self), all@, items)
                    &&& final(self).remaining().len() < old(self).remaining().len()
                },
                Err(e) => arguments(old(self).remaining(), old(self).tail(), given).result == Err::<
                    Seq<Tree>,
                    SpecError,
                >(e@),
            },
            old(self).remaining().len() == 0 ==> r is Err && final(self).arena()
                == old(self).arena(),
        decreases old(self).remaining().len(), 9int,
    {
        let ghost tail = self.tail();
        let mut kids = kids;
        let ghost mut trees = given;
        loop
            invariant
                self.wf(),
                self.tail() == tail,
                tail == old(self).tail(),
                Self::stepped(*old(self), *self, self.remaining()),
                Self::collected(before, *self, kids@, trees),
                self.remaining().len() == old(self).remaining().len() ==> self.arena()
                    == old(self).arena(),
                arguments(old(self).remaining(), tail, given) == arguments(
                    self.remaining(),
                    tail,
                    trees,
                ),
            decreases self.remaining().len(),
        {
            let token = match self.lexer.peek(0) {
                Some(token) => token,
                None => {
                    return Err(self.end_error());
                },
            };
            let ghost at_arg = *self;
            if let TokenKind::RParen = token.data {
                let _ = self.lexer.seek(0);
                proof {
                    Self::lemma_collect_moved(before, at_arg, *self, kids@, trees);
                }
                return Ok(kids);
            }
            let arg = match self.parse_expression(1) {
                Ok(id) => id,
                Err(e) => {
                    return Err(e);
                },
            };
            let ghost tree = subtree(self.ast@, arg as int);
            proof {
                Self::lemma_collect(
                    before,
                    at_arg,
                    *self,
                    kids@,
                    trees,
                    arg,
                    expression(at_arg.remaining(), tail, 1),
                    tree,
                );
                trees = trees.push(tree);
            }
            kids.push(arg);
            let ghost parsed = *self;
            let next = match self.lexer.peek(0) {
                Some(token) => token,
                None => {
                    return Err(self.end_error());
                },
            };
            match next.data {
                TokenKind::RParen => {
                    let _ = self.lexer.seek(0);
                    proof {
                        Self::lemma_collect_moved(before, parsed, *self, kids@, trees);
                    }
                    return Ok(kids);
                },
                TokenKind::Comma => {
                    let _ = self.lexer.seek(0);
                    proof {
                        Self::lemma_collect_moved(before, parsed, *self, kids@, trees);
                    }
                },
                _ => {
                    let expected = vec![TokenKind::Comma, TokenKind::RParen];
                    assert(kinds_view(expected@) =~= argument_ends());
                    return Err(unexpected_token(expected, next));
                },
            }
        }
    }

    /// Reads a primary expression: a string, an identifier, an expression in
    /// parentheses or a function literal.
    pub(super) fn parse_primary(&mut self) -> (r: Result<NodeId, Error<'a>>)
        requires
            old(self).wf(),
        ensures
            Self::built(
                *old(self),
                *final(self),
                r,
                primary(old(self).remaining(), old(self).tail()),
            ),
            !starts_primary(old(self).remaining()) ==> r is Err && final(self).arena()
                == old(self).arena(),
        decreases old(self).remaining().len(), 3int,
    {
        let ghost before = *self;
        let token = match self.lexer.peek(0) {
            Some(token) => token,
            None => {
                return Err(self.end_error());
            },
        };
        match token.data {
            TokenKind::Str(_) => {
                let _ = self.lexer.seek(0);
                proof {
                    Self::lemma_collected_none(before, *self);
                }
                Ok(self.build(NodeKind::Str, token, Vec::new(), Ghost(before), Ghost(Seq::empty())))
            },
            TokenKind::Ident(_) => {
                let _ = self.lexer.seek(0);
                proof {
                    Self::lemma_collected_none(before, *self);
                }
                Ok(
                    self.build(
                        NodeKind::Ident,
                        token,
                        Vec::new(),
                        Ghost(before),
                        Ghost(Seq::empty()),
                    ),
                )
            },
            TokenKind::LParen => {
                let _ = self.lexer.seek(0);
                let inner = match self.parse_expression(1) {
                    Ok(id) => id,
                    Err(e) => {
                        return Err(e);
                    },
                };
                match self.expect_token(TokenKind::RParen) {
                    Ok(_) => Ok(inner),
                    Err(e) => Err(e),
                }
            },
            TokenKind::KwFn => self.parse_function(),
            _ => {
                let expected = vec![
                    TokenKind::Ident(""),
                    TokenKind::Str(""),
                    TokenKind::LParen,
                    TokenKind::KwFn,
                    TokenKind::Not,
                    TokenKind::Minus,
                ];
                proof {
                    reveal_strlit("");
                    assert(""@ =~= Seq::<char>::empty());
                    assert(kinds_view(expected@) =~= expression_starts());
                }
                Err(unexpected_token(expected, token))
            },
        }
    }

    /// Reads a function literal: `fn`, `do`, the statements of the body and
    /// `end`.
    pub(super) fn parse_function(&mut self) -> (r: Result<NodeId, Error<'a>>)
        requires
            old(self).wf(),
        ensures
            Self::built(
                *old(self),
                *final(self),
                r,
                function(old(self).remaining(), old(self).tail()),
            ),
            old(self).remaining().len() == 0 || expect(
                old(self).remaining().skip(1),
                old(self).tail(),
                SpecTokenKind::KwDo,
            ).result is Err ==> r is Err && final(self).arena() == old(self).arena(),
        decreases old(self).remaining().len(), 2int,
    {
        let ghost before = *self;
        let ghost tail = self.tail();
        let keyword = match self.lexer.seek(0) {
            Some(token) => token,
            None => {
                return Err(self.end_error());
            },
        };
        match self.expect_token(TokenKind::KwDo) {
            Ok(_) => {},
            Err(e) => {
                return Err(e);
            },
        }
        let ghost opened = *self;
        let kids = match self.parse_block() {
            Ok(kids) => kids,
            Err(e) => {
                return Err(e);
            },
        };
        let ghost items = block(opened.remaining(), tail, Seq::empty()).result->Ok_0;
        proof {
            Self::lemma_collect_rebased(before, opened, *self, kids@, items);
        }
        Ok(self.build(NodeKind::Function, keyword, kids, Ghost(before), Ghost(items)))
    }

    /// Reads the statements of a function body, up to and with its `end`.
    #[verifier::loop_isolation(false)]
    pub(super) fn parse_block(&mut self) -> (r: Result<Vec<NodeId>, Error<'a>>)
        requires
            old(self).wf(),
        ensures
            Self::stepped(
                *old(self),
                *final(self),
                block(old(self).remaining(), old(self).tail(), Seq::empty()).rest,
            ),
            match r {
                Ok(all) => {
                    &&& block(old(self).remaining(), old(self).tail(), Seq::empty()).result matches Ok(
                        items,
                    )
                    &&& Self::collected(*old(self), *final(self), all@, items)
                    &&& final(self).remaining().len() < old(self).remaining().len()
                },
                Err(e) => block(old(self).remaining(), old(self).tail(), Seq::empty()).result
                    == Err::<Seq<Tree>, SpecError>(e@),
            },
            old(self).remaining().len() == 0 ==> r is Err && final(self).arena()
                == old(self).arena(),
        decreases old(self).remaining().len(), 8int,
    {
        let ghost before = *self;
        let ghost tail = self.tail();
        let mut kids: Vec<NodeId> = Vec::new();
        let ghost mut trees: Seq<Tree> = Seq::empty();
        proof {
            Self::lemma_collected_none(before, *self);
        }
        loop
            invariant
                self.wf(),
                self.tail() == tail,
                tail == old(self).tail(),
                before == *old(self),
                Self::collected(before, *self, kids@, trees),
                self.remaining().len() == old(self).remaining().len() ==> self.arena()
                    == old(self).arena(),
                block(before.remaining(), tail, Seq::empty()) == block(
                    self.remaining(),
                    tail,
                    trees,
                ),
            decreases self.remaining().len(),
        {
            let token = match self.lexer.peek(0) {
                Some(token) => token,
                None => {
                    return Err(self.end_error());
                },
            };
            let ghost at_item = *self;
            if let TokenKind::KwEnd = token.data {
                let _ = self.lexer.seek(0);
                proof {
                    Self::lemma_collect_moved(before, at_item, *self, kids@, trees);
                }
                return Ok(kids);
            }
            let id = match binding_keyword(token.data) {
                Some(bt) => {
                    let _ = self.lexer.seek(0);
                    let ghost started = *self;
                    proof {
                        Self::lemma_collect_moved(before, at_item, started, kids@, trees);
                    }
                    match self.parse_binding(bt) {
                        Ok(id) => {
                            proof {
                                Self::lemma_collect(
                                    before,
                                    started,
                                    *self,
                                    kids@,
                                    trees,
                                    id,
                                    binding(started.remaining(), tail, bt),
                                    subtree(self.ast@, id as int),
                                );
                            }
                            id
                        },
                        Err(e) => {
                            return Err(e);
                        },
                    }
                },
                None => match self.parse_expression(1) {
                    Ok(id) => {
                        proof {
                            Self::lemma_collect(
                                before,
                                at_item,
                                *self,
                                kids@,
                                trees,
                                id,
                                expression(at_item.remaining(), tail, 1),
                                subtree(self.ast@, id as int),
                            );
                        }
                        id
                    },
                    Err(e) => {
                        return Err(e);
                    },
                },
            };
            proof {
                trees = trees.push(subtree(self.ast@, id as int));
            }
            kids.push(id);
        }
    }
}

} // verus!
