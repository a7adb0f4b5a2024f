use crate::ast::token::{token_view, SpecToken, Token, TokenKind};
use crate::ast::{
    lemma_position_bounds, position_of, span_of, SourcePos, SourceRange, SourceView,
    SpecSourceView,
};
use crate::parser::lexical::{
    all_but, blanks, block_end, comment_at, comment_end, dashes_at, is_blank, is_letter_spec,
    lemma_block_end_broken_run, lemma_comment_end_bounds, lemma_lex_after_trivia, lemma_run_end_bounds,
    lemma_scan_bounds, lemma_trivia_end_bounds, lemma_trivia_end_over_blanks, letters, lex,
    operator_spec, peeked, punctuation_spec, run_end, scan, sought, trivia_end,
    word_spec, Scan, SpecOperator,
};
use std::collections::VecDeque;
use vstd::prelude::*;
use vstd::string::*;

verus! {

/// Turns a source text into tokens on demand, with any amount of lookahead.
pub struct Lexer<'i> {
    input: &'i str,
    length: usize,
    cursor: usize,
    position: SourcePos,
    lookahead: VecDeque<Token<'i>>,
}

/// An operator character's entry: the token it makes alone, the character that
/// may extend it, and the token the two make together.
struct Operator<'i> {
    single: TokenKind<'i>,
    extension: char,
    pair: TokenKind<'i>,
}

/// Whether `ch` is a character of identifiers.
pub fn is_letter(ch: char) -> (b: bool)
    ensures
        b == is_letter_spec(ch),
{
    ('A' <= ch && ch <= 'Z') || ('a' <= ch && ch <= 'z') || ch == '_'
}

/// Whether `ch` is skipped as white space.
fn is_space(ch: char) -> (b: bool)
    ensures
        b == is_blank(ch),
{
    ch == ' ' || ch == '\t' || ch == '\n' || ch == '\r'
}

/// Whether `ch` goes on with a line.
fn not_newline(ch: char) -> (b: bool)
    ensures
        b == (ch != '\n'),
{
    ch != '\n'
}

/// Whether `ch` goes on with a string literal.
fn not_quote(ch: char) -> (b: bool)
    ensures
        b == (ch != '\''),
{
    ch != '\''
}

/// Whether a character was found, and is `wanted`.
fn is_char(found: Option<char>, wanted: char) -> (b: bool)
    ensures
        b == (found == Some(wanted)),
{
    match found {
        Some(ch) => ch == wanted,
        None => false,
    }
}

/// The token that a single punctuation character makes.
fn punctuation<'i>(ch: char) -> (kind: Option<TokenKind<'i>>)
    ensures
        match kind {
            Some(k) => punctuation_spec(ch) == Some(k@),
            None => punctuation_spec(ch) is None,
        },
{
    if ch == '.' {
        Some(TokenKind::Dot)
    } else if ch == ',' {
        Some(TokenKind::Comma)
    } else if ch == '(' {
        Some(TokenKind::LParen)
    } else if ch == ')' {
        Some(TokenKind::RParen)
    } else {
        None
    }
}

/// The entry of an operator character in the table of operators.
fn operator<'i>(ch: char) -> (op: Option<Operator<'i>>)
    ensures
        match op {
            Some(o) => operator_spec(ch) == Some(
                SpecOperator { single: o.single@, extension: o.extension, pair: o.pair@ },
            ),
            None => operator_spec(ch) is None,
        },
{
    if ch == '-' {
        Some(Operator { single: TokenKind::Minus, extension: '=', pair: TokenKind::AssignMinus })
    } else if ch == '+' {
        Some(Operator { single: TokenKind::Plus, extension: '=', pair: TokenKind::AssignPlus })
    } else if ch == '*' {
        Some(Operator { single: TokenKind::Mul, extension: '=', pair: TokenKind::AssignMul })
    } else if ch == '/' {
        Some(Operator { single: TokenKind::Div, extension: '=', pair: TokenKind::AssignDiv })
    } else if ch == '!' {
        Some(Operator { single: TokenKind::Not, extension: '=', pair: TokenKind::NotEq })
    } else if ch == '=' {
        Some(Operator { single: TokenKind::Assign, extension: '=', pair: TokenKind::Equal })
    } else if ch == '>' {
        Some(
            Operator { single: TokenKind::Greater, extension: '=', pair: TokenKind::GreaterEq },
        )
    } else if ch == '<' {
        Some(Operator { single: TokenKind::Less, extension: '=', pair: TokenKind::LessEq })
    } else if ch == ':' {
        Some(
            Operator { single: TokenKind::Column, extension: ':', pair: TokenKind::ScopeAccess },
        )
    } else {
        None
    }
}

impl<'i> Lexer<'i> {
    /// The lexer's bookkeeping agrees with its source text.
    pub closed spec fn wf(&self) -> bool {
        &&& self.length == self.input@.len()
        &&& self.cursor <= self.length
        &&& self.position == position_of(self.input@, self.cursor as int)
    }

    /// The source text.
    pub closed spec fn source(&self) -> Seq<char> {
        self.input@
    }

    /// The tokens already scanned and not yet consumed.
    pub closed spec fn buffered(&self) -> Seq<SpecToken> {
        self.lookahead@.map_values(|t: Token<'i>| t@)
    }

    /// All tokens not yet consumed, the next one first.
    pub closed spec fn remaining(&self) -> Seq<SpecToken> {
        self.buffered() + lex(self.input@, self.cursor as int).tokens
    }

    /// The place where the token stream stops.
    pub closed spec fn tail(&self) -> SpecSourceView {
        lex(self.input@, self.cursor as int).tail
    }

    /// A lexer at the start of `input`.
    pub fn from_str(input: &'i str) -> (lexer: Self)
        ensures
            lexer.wf(),
            lexer.source() == input@,
            lexer.remaining() == lex(input@, 0).tokens,
            lexer.tail() == lex(input@, 0).tail,
    {
        let length = input.unicode_len();
        let lexer = Lexer {
            input,
            length,
            cursor: 0,
            position: SourcePos { line: 0, column: 0 },
            lookahead: VecDeque::new(),
        };
        assert(lexer.buffered() =~= Seq::empty());
        assert(lexer.remaining() =~= lex(input@, 0).tokens);
        lexer
    }

    /// The token at lookahead distance `offset`, which stays in the stream.
    pub fn peek(&mut self, offset: usize) -> (token: Option<Token<'i>>)
        requires
            old(self).wf(),
        ensures
            final(self).wf(),
            final(self).source() == old(self).source(),
            final(self).remaining() == peeked(old(self).remaining(), offset as int).rest,
            final(self).tail() == old(self).tail(),
            token_view(token) == peeked(old(self).remaining(), offset as int).token,
    {
        if let Err(_) = self.populate_lookahead(offset) {
            return None;
        }
        Some(self.lookahead[offset])
    }

    /// The token at lookahead distance `offset`, which leaves the stream
    /// together with all tokens before it.
    pub fn seek(&mut self, offset: usize) -> (token: Option<Token<'i>>)
        requires
            old(self).wf(),
        ensures
            final(self).wf(),
            final(self).source() == old(self).source(),
            final(self).remaining() == sought(old(self).remaining(), offset as int).rest,
            final(self).tail() == old(self).tail(),
            token_view(token) == sought(old(self).remaining(), offset as int).token,
    {
        if let Err(_) = self.populate_lookahead(offset) {
            return None;
        }
        let last = self.lookahead[offset];
        let ghost before = self.buffered();
        let _ = self.discard_lookahead(offset);
        assert(self.buffered() =~= before.skip(offset + 1));
        assert(self.remaining() =~= old(self).remaining().skip(offset + 1));
        Some(last)
    }

    /// The view of the place where the token stream stops: empty at the end
    /// of the source text, and otherwise what stops the stream short, the
    /// character that starts no lexeme or the string literal left open.
    pub fn end_of_stream(&mut self) -> (view: SourceView<'i>)
        requires
            old(self).wf(),
        ensures
            final(self).wf(),
            final(self).source() == old(self).source(),
            final(self).remaining() == old(self).remaining(),
            final(self).tail() == old(self).tail(),
            view@ == old(self).tail(),
    {
        let mut more = true;
        while more
            invariant
                self.wf(),
                self.input == old(self).input,
                self.remaining() == old(self).remaining(),
                self.tail() == old(self).tail(),
                !more ==> trivia_end(self.input@, self.cursor as int) == self.cursor && !(scan(
                    self.input@,
                    self.cursor as int,
                ) is Token),
            decreases self.length - self.cursor + (if more { 1int } else { 0int }),
        {
            let ghost was = *self;
            match self.next_token() {
                Some(token) => {
                    self.lookahead.push_back(token);
                    proof {
                        was.lemma_scanned(*self, token);
                    }
                },
                None => {
                    more = false;
                    proof {
                        lemma_lex_after_trivia(self.input@, was.cursor as int);
                        lemma_trivia_end_bounds(self.input@, was.cursor as int);
                    }
                },
            }
        }
        let start_cur = self.cursor;
        let start_pos = self.position;
        if is_char(self.peek_ch(0), '\'') {
            self.advance(self.length - self.cursor);
            let view = self.view_from(start_cur, start_pos);
            self.cursor = start_cur;
            self.position = start_pos;
            view
        } else if self.cursor < self.length {
            self.advance(1);
            let view = self.view_from(start_cur, start_pos);
            self.cursor = start_cur;
            self.position = start_pos;
            view
        } else {
            self.view_from(start_cur, start_pos)
        }
    }

    /// Scanning one token off the input and buffering it keeps the stream.
    proof fn lemma_scanned(self, after: Self, token: Token<'i>)
        requires
            self.wf(),
            after.input == self.input,
            after.lookahead@ == self.lookahead@.push(token),
            scan(self.input@, trivia_end(self.input@, self.cursor as int)) matches Scan::Token {
                kind,
                end,
            } && after.cursor == end && token@ == (SpecToken {
                kind,
                span: span_of(self.input@, trivia_end(self.input@, self.cursor as int), end),
            }),
        ensures
            after.remaining() == self.remaining(),
            after.tail() == self.tail(),
            after.buffered() == self.buffered().push(token@),
    {
        assert(after.buffered() =~= self.buffered().push(token@));
        assert(after.remaining() =~= self.remaining());
    }

    /// Scans until the buffer reaches lookahead distance `up_to`, or fails
    /// where the tokens run out before.
    fn populate_lookahead(&mut self, up_to: usize) -> (filled: Result<(), ()>)
        requires
            old(self).wf(),
        ensures
            final(self).wf(),
            final(self).input == old(self).input,
            final(self).remaining() == old(self).remaining(),
            final(self).tail() == old(self).tail(),
            filled is Ok <==> up_to < final(self).lookahead@.len(),
            filled is Err ==> final(self).remaining().len() <= up_to && final(self).remaining()
                == final(self).buffered(),
            old(self).lookahead@.is_prefix_of(final(self).lookahead@),
            old(self).cursor <= final(self).cursor,
            up_to < old(self).lookahead@.len() ==> final(self).lookahead@ == old(self).lookahead@
                && final(self).cursor == old(self).cursor
                && final(self).position == old(self).position,
            filled is Ok && old(self).lookahead@.len() <= up_to ==> final(self).lookahead@.len()
                == up_to + 1,
    {
        while self.lookahead.len() <= up_to
            invariant
                self.wf(),
                self.input == old(self).input,
                self.remaining() == old(self).remaining(),
                self.tail() == old(self).tail(),
                old(self).lookahead@.is_prefix_of(self.lookahead@),
                old(self).cursor <= self.cursor,
                up_to < old(self).lookahead@.len() ==> self.lookahead@ == old(self).lookahead@
                    && self.cursor == old(self).cursor && self.position == old(self).position,
                old(self).lookahead@.len() <= up_to ==> self.lookahead@.len() <= up_to + 1,
            decreases self.length - self.cursor,
        {
            let ghost was = *self;
            match self.next_token() {
                Some(token) => {
                    self.lookahead.push_back(token);
                    proof {
                        was.lemma_scanned(*self, token);
                        lemma_trivia_end_bounds(self.input@, was.cursor as int);
                    }
                },
                None => {
                    proof {
                        lemma_lex_after_trivia(self.input@, was.cursor as int);
                        lemma_trivia_end_bounds(self.input@, was.cursor as int);
                        assert(self.remaining() =~= self.buffered());
                    }
                    return Err(());
                },
            }
        }
        Ok(())
    }

    /// Drops the buffered tokens up to lookahead distance `up_to`, or all of
    /// them and fails where the buffer is shorter.
    fn discard_lookahead(&mut self, up_to: usize) -> (dropped: Result<(), ()>)
        ensures
            final(self).input == old(self).input,
            final(self).length == old(self).length,
            final(self).cursor == old(self).cursor,
            final(self).position == old(self).position,
            dropped is Ok ==> up_to < old(self).lookahead@.len() && final(self).lookahead@
                == old(self).lookahead@.skip(up_to + 1),
            dropped is Err ==> old(self).lookahead@.len() <= up_to && final(self).lookahead@.len()
                == 0,
    {
        let mut done: usize = 0;
        loop
            invariant
                self.input == old(self).input,
                self.length == old(self).length,
                self.cursor == old(self).cursor,
                self.position == old(self).position,
                done <= up_to,
                done <= old(self).lookahead@.len(),
                self.lookahead@ == old(self).lookahead@.skip(done as int),
            decreases up_to - done,
        {
            if self.lookahead.pop_front().is_none() {
                return Err(());
            }
            assert(self.lookahead@ =~= old(self).lookahead@.skip(done + 1));
            if done == up_to {
                return Ok(());
            }
            done = done + 1;
        }
    }

    /// The character `offset` places behind the cursor.
    #[inline(always)]
    fn peek_ch(&self, offset: usize) -> (ch: Option<char>)
        requires
            self.wf(),
        ensures
            ch == (if self.cursor + offset < self.length {
                Some(self.input@[self.cursor + offset])
            } else {
                None
            }),
    {
        if offset < self.length - self.cursor {
            Some(self.input.get_char(self.cursor + offset))
        } else {
            None
        }
    }

    /// Moves the cursor over `times` characters and keeps the position.
    fn advance(&mut self, times: usize)
        requires
            old(self).wf(),
            old(self).cursor + times <= old(self).length,
        ensures
            final(self).wf(),
            final(self).input == old(self).input,
            final(self).length == old(self).length,
            final(self).lookahead == old(self).lookahead,
            final(self).cursor == old(self).cursor + times,
    {
        let mut done: usize = 0;
        while done < times
            invariant
                self.wf(),
                self.input == old(self).input,
                self.length == old(self).length,
                self.lookahead == old(self).lookahead,
                done <= times,
                self.cursor == old(self).cursor + done,
                old(self).cursor + times <= self.length,
            decreases times - done,
        {
            proof {
                lemma_position_bounds(self.input@, self.cursor as int);
                lemma_position_bounds(self.input@, self.cursor + 1);
            }
            if is_char(self.peek_ch(0), '\n') {
                self.position = SourcePos { line: self.position.line + 1, column: 0 };
            } else {
                self.position = SourcePos {
                    line: self.position.line,
                    column: self.position.column + 1,
                };
            }
            self.cursor = self.cursor + 1;
            done = done + 1;
        }
    }

    /// Moves the cursor over a comment, if one starts at it.
    #[inline(always)]
    fn skip_comments(&mut self)
        requires
            old(self).wf(),
        ensures
            final(self).wf(),
            final(self).input == old(self).input,
            final(self).length == old(self).length,
            final(self).lookahead == old(self).lookahead,
            final(self).cursor == (if comment_at(old(self).input@, old(self).cursor as int) {
                comment_end(old(self).input@, old(self).cursor as int)
            } else {
                old(self).cursor as int
            }),
    {
        if !is_char(self.peek_ch(0), '-') || !is_char(self.peek_ch(1), '-') {
            return ;
        }
        if is_char(self.peek_ch(2), '-') {
            // Multiline comment
            self.advance(3);
            let ghost body = self.cursor as int;
            let mut consequent_count: u8 = 0;
            while consequent_count < 3
                invariant
                    self.wf(),
                    self.input == old(self).input,
                    self.length == old(self).length,
                    self.lookahead == old(self).lookahead,
                    consequent_count <= 3,
                    body == old(self).cursor + 3,
                    dashes_at(self.input@, old(self).cursor as int),
                    body <= self.cursor - consequent_count,
                    forall|i: int|
                        self.cursor - consequent_count <= i < self.cursor ==> self.input@[i]
                            == '-',
                    consequent_count < 3 ==> block_end(self.input@, body) == block_end(
                        self.input@,
                        self.cursor - consequent_count,
                    ),
                    consequent_count == 3 ==> block_end(self.input@, body) == self.cursor,
                decreases self.length - self.cursor,
            {
                let ch = match self.peek_ch(0) {
                    Some(ch) => ch,
                    None => {
                        return ;
                    },
                };
                if ch == '-' {
                    consequent_count = consequent_count + 1;
                } else {
                    proof {
                        lemma_block_end_broken_run(
                            self.input@,
                            self.cursor - consequent_count,
                            self.cursor as int,
                        );
                    }
                    consequent_count = 0;
                }
                self.advance(1);
            }
        } else {
            // Single-line comment
            self.advance_while(not_newline, Ghost(all_but('\n')));
        }
    }

    /// Moves the cursor over a comment, if one starts at it, and over the
    /// white space behind.
    #[inline(always)]
    fn skip_whitespace(&mut self)
        requires
            old(self).wf(),
        ensures
            final(self).wf(),
            final(self).input == old(self).input,
            final(self).length == old(self).length,
            final(self).lookahead == old(self).lookahead,
            final(self).cursor == run_end(
                old(self).input@,
                if comment_at(old(self).input@, old(self).cursor as int) {
                    comment_end(old(self).input@, old(self).cursor as int)
                } else {
                    old(self).cursor as int
                },
                blanks(),
            ),
            old(self).cursor <= final(self).cursor,
            trivia_end(final(self).input@, final(self).cursor as int) == trivia_end(
                old(self).input@,
                old(self).cursor as int,
            ),
            final(self).cursor == old(self).cursor ==> trivia_end(
                old(self).input@,
                old(self).cursor as int,
            ) == old(self).cursor,
    {
        self.skip_comments();
        let ghost from = self.cursor as int;
        self.advance_while(is_space, Ghost(blanks()));
        proof {
            let s = self.input@;
            if comment_at(s, old(self).cursor as int) {
                lemma_comment_end_bounds(s, old(self).cursor as int);
                assert(trivia_end(s, old(self).cursor as int) == trivia_end(s, from));
            }
            lemma_run_end_bounds(s, from, blanks());
            lemma_trivia_end_over_blanks(s, from, self.cursor as int);
        }
    }

    /// Moves the cursor over the characters that `f` accepts.
    fn advance_while<F: Fn(char) -> bool>(
        &mut self,
        f: F,
        Ghost(member): Ghost<spec_fn(char) -> bool>,
    )
        requires
            old(self).wf(),
            forall|ch: char| call_requires(f, (ch,)),
            forall|ch: char, b: bool| call_ensures(f, (ch,), b) ==> b == member(ch),
        ensures
            final(self).wf(),
            final(self).input == old(self).input,
            final(self).length == old(self).length,
            final(self).lookahead == old(self).lookahead,
            final(self).cursor == run_end(old(self).input@, old(self).cursor as int, member),
    {
        let mut going = true;
        while going
            invariant
                self.wf(),
                self.input == old(self).input,
                self.length == old(self).length,
                self.lookahead == old(self).lookahead,
                forall|ch: char| call_requires(f, (ch,)),
                forall|ch: char, b: bool| call_ensures(f, (ch,), b) ==> b == member(ch),
                run_end(self.input@, self.cursor as int, member) == run_end(
                    old(self).input@,
                    old(self).cursor as int,
                    member,
                ),
                !going ==> run_end(self.input@, self.cursor as int, member) == self.cursor,
            decreases self.length - self.cursor + (if going { 1int } else { 0int }),
        {
            match self.peek_ch(0) {
                Some(ch) => {
                    if f(ch) {
                        self.advance(1);
                    } else {
                        going = false;
                    }
                },
                None => {
                    going = false;
                },
            }
        }
    }

    /// The view of the input from offset `start_cur`, which lies at position
    /// `start_pos`, up to the cursor.
    fn view_from(&self, start_cur: usize, start_pos: SourcePos) -> (view: SourceView<'i>)
        requires
            self.wf(),
            start_cur <= self.cursor,
        ensures
            view@ == (SpecSourceView {
                range: SourceRange { start: start_pos, end: self.position },
                text: self.input@.subrange(start_cur as int, self.cursor as int),
            }),
    {
        SourceView {
            range: SourceRange { start: start_pos, end: self.position },
            view: self.input.substring_char(start_cur, self.cursor),
        }
    }

    /// Whether the input from offset `start` up to `end` spells `word`.
    fn spells(&self, start: usize, end: usize, word: &str) -> (b: bool)
        requires
            self.wf(),
            start <= end <= self.length,
        ensures
            b == (self.input@.subrange(start as int, end as int) == word@),
    {
        let n = word.unicode_len();
        if n != end - start {
            return false;
        }
        let mut i: usize = 0;
        while i < n
            invariant
                self.wf(),
                start <= end <= self.length,
                n == end - start,
                n == word@.len(),
                i <= n,
                forall|j: int| 0 <= j < i ==> self.input@[start + j] == word@[j],
            decreases n - i,
        {
            if self.input.get_char(start + i) != word.get_char(i) {
                assert(self.input@.subrange(start as int, end as int)[i as int] != word@[i as int]);
                return false;
            }
            i = i + 1;
        }
        assert(self.input@.subrange(start as int, end as int) =~= word@);
        true
    }

    /// The token that the letters from offset `start` up to `end` make.
    fn word(&self, start: usize, end: usize) -> (kind: TokenKind<'i>)
        requires
            self.wf(),
            start <= end <= self.length,
        ensures
            kind@ == word_spec(self.input@.subrange(start as int, end as int)),
    {
        if self.spells(start, end, "do") {
            TokenKind::KwDo
        } else if self.spells(start, end, "end") {
            TokenKind::KwEnd
        } else if self.spells(start, end, "static") {
            TokenKind::KwStatic
        } else if self.spells(start, end, "const") {
            TokenKind::KwConst
        } else if self.spells(start, end, "let") {
            TokenKind::KwLet
        } else if self.spells(start, end, "fn") {
            TokenKind::KwFn
        } else {
            TokenKind::Ident(self.input.substring_char(start, end))
        }
    }

    /// Scans the next token off the input. Where none starts, the cursor
    /// stays behind the comments and white space.
    fn next_token(&mut self) -> (token: Option<Token<'i>>)
        requires
            old(self).wf(),
        ensures
            final(self).wf(),
            final(self).input == old(self).input,
            final(self).length == old(self).length,
            final(self).lookahead == old(self).lookahead,
            match token {
                Some(t) => scan(
                    old(self).input@,
                    trivia_end(old(self).input@, old(self).cursor as int),
                ) matches Scan::Token { kind, end } && final(self).cursor == end && t@ == (
                SpecToken {
                    kind,
                    span: span_of(
                        old(self).input@,
                        trivia_end(old(self).input@, old(self).cursor as int),
                        end,
                    ),
                }) && old(self).cursor < final(self).cursor,
                None => !(scan(
                    old(self).input@,
                    trivia_end(old(self).input@, old(self).cursor as int),
                ) is Token) && final(self).cursor == trivia_end(
                    old(self).input@,
                    old(self).cursor as int,
                ),
            },
    {
        let ghost s = self.input@;
        let mut settled = false;
        while !settled
            invariant
                self.wf(),
                self.input == old(self).input,
                self.length == old(self).length,
                self.lookahead == old(self).lookahead,
                s == self.input@,
                old(self).cursor <= self.cursor,
                trivia_end(s, self.cursor as int) == trivia_end(s, old(self).cursor as int),
                settled ==> trivia_end(s, self.cursor as int) == self.cursor,
            decreases self.length - self.cursor + (if settled { 0int } else { 1int }),
        {
            let cur = self.cursor;
            self.skip_comments();
            proof {
                if comment_at(s, cur as int) {
                    lemma_comment_end_bounds(s, cur as int);
                    assert(trivia_end(s, cur as int) == trivia_end(s, self.cursor as int));
                }
            }
            self.skip_whitespace();
            if cur == self.cursor {
                settled = true;
            }
        }

        let start_pos = self.position;
        let start_cur = self.cursor;
        proof {
            lemma_scan_bounds(s, start_cur as int);
            if start_cur < self.length {
                lemma_run_end_bounds(s, start_cur + 1, all_but('\''));
            }
            lemma_run_end_bounds(s, start_cur as int, letters());
        }

        let start_ch = match self.peek_ch(0) {
            Some(ch) => ch,
            None => {
                return None;
            },
        };

        if let Some(kind) = punctuation(start_ch) {
            self.advance(1);
            return Some(Token { data: kind, view: self.view_from(start_cur, start_pos) });
        }
        if let Some(op) = operator(start_ch) {
            if is_char(self.peek_ch(1), op.extension) {
                self.advance(2);
                return Some(Token { data: op.pair, view: self.view_from(start_cur, start_pos) });
            }
            self.advance(1);
            return Some(Token { data: op.single, view: self.view_from(start_cur, start_pos) });
        }
        if start_ch == '\'' {
            self.advance(1);
            self.advance_while(not_quote, Ghost(all_but('\'')));
            if self.cursor >= self.length {
                self.cursor = start_cur;
                self.position = start_pos;
                return None;
            }
            let contents = self.input.substring_char(start_cur + 1, self.cursor);
            self.advance(1);
            return Some(
                Token {
                    data: TokenKind::Str(contents),
                    view: self.view_from(start_cur, start_pos),
                },
            );
        }
        self.advance_while(is_letter, Ghost(letters()));
        if self.cursor == start_cur {
            return None;
        }
        let kind = self.word(start_cur, self.cursor);
        Some(Token { data: kind, view: self.view_from(start_cur, start_pos) })
    }
}

} // verus!
