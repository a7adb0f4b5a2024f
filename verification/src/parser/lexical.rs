use crate::ast::token::{SpecToken, SpecTokenKind};
use crate::ast::{
    lemma_span_runs_forward, not_behind, position_of, runs_forward, span_of, SpecSourceView,
};
use vstd::prelude::*;

verus! {

/// The characters an identifier is made of: ASCII letters and the underscore.
pub open spec fn is_letter_spec(c: char) -> bool {
    ('A' <= c && c <= 'Z') || ('a' <= c && c <= 'z') || c == '_'
}

/// The characters skipped as white space.
pub open spec fn is_blank(c: char) -> bool {
    c == ' ' || c == '\t' || c == '\n' || c == '\r'
}

/// The class of identifier characters.
pub open spec fn letters() -> spec_fn(char) -> bool {
    |c: char| is_letter_spec(c)
}

/// The class of white space characters.
pub open spec fn blanks() -> spec_fn(char) -> bool {
    |c: char| is_blank(c)
}

/// The class of all characters but `stop`.
pub open spec fn all_but(stop: char) -> spec_fn(char) -> bool {
    |c: char| c != stop
}

/// Where the longest run of characters of class `member` that starts at
/// offset `from` ends: the offset of the first character outside the class,
/// or the length of `s`.
pub open spec fn run_end(s: Seq<char>, from: int, member: spec_fn(char) -> bool) -> int
    decreases s.len() - from,
{
    if 0 <= from < s.len() && member(s[from]) {
        run_end(s, from + 1, member)
    } else {
        from
    }
}

/// Three dashes stand at offset `i`.
pub open spec fn dashes_at(s: Seq<char>, i: int) -> bool {
    0 <= i && i + 3 <= s.len() && s[i] == '-' && s[i + 1] == '-' && s[i + 2] == '-'
}

/// Where a block comment whose body starts at offset `from` ends: behind the
/// first three dashes in a row at or after `from`, or at the end of `s`.
pub open spec fn block_end(s: Seq<char>, from: int) -> int
    decreases s.len() - from,
{
    if from < 0 || from + 3 > s.len() {
        s.len() as int
    } else if dashes_at(s, from) {
        from + 3
    } else {
        block_end(s, from + 1)
    }
}

/// A comment starts at offset `i`: two dashes.
pub open spec fn comment_at(s: Seq<char>, i: int) -> bool {
    0 <= i && i + 2 <= s.len() && s[i] == '-' && s[i + 1] == '-'
}

/// Where the comment that starts at offset `i` ends. Three dashes open a block
/// comment, which runs through the next three dashes in a row; two dashes open
/// a comment that runs up to the end of the line.
pub open spec fn comment_end(s: Seq<char>, i: int) -> int {
    if dashes_at(s, i) {
        block_end(s, i + 3)
    } else {
        run_end(s, i, all_but('\n'))
    }
}

/// The offset of the first character at or after `from` that is neither white
/// space nor part of a comment.
pub open spec fn trivia_end(s: Seq<char>, from: int) -> int
    decreases s.len() - from,
    via trivia_end_decreases
{
    if from < 0 || from >= s.len() {
        from
    } else if is_blank(s[from]) {
        trivia_end(s, from + 1)
    } else if comment_at(s, from) {
        trivia_end(s, comment_end(s, from))
    } else {
        from
    }
}

#[via_fn]
proof fn trivia_end_decreases(s: Seq<char>, from: int) {
    if 0 <= from < s.len() && comment_at(s, from) {
        lemma_comment_end_bounds(s, from);
    }
}

/// What the scanner finds at an offset where no comment or white space starts.
pub enum Scan {
    /// A token of this kind, which ends before offset `end`.
    Token { kind: SpecTokenKind, end: int },
    /// A string literal that is still open where the text ends.
    Unterminated,
    /// Nothing that starts a token: the end of the text, or a character of no
    /// lexeme.
    End,
}

/// The token that a single punctuation character makes.
pub open spec fn punctuation_spec(c: char) -> Option<SpecTokenKind> {
    if c == '.' {
        Some(SpecTokenKind::Dot)
    } else if c == ',' {
        Some(SpecTokenKind::Comma)
    } else if c == '(' {
        Some(SpecTokenKind::LParen)
    } else if c == ')' {
        Some(SpecTokenKind::RParen)
    } else {
        None
    }
}

/// An operator character's entry: the token it makes alone, the one character
/// that may extend it, and the token the two make together.
pub struct SpecOperator {
    pub single: SpecTokenKind,
    pub extension: char,
    pub pair: SpecTokenKind,
}

/// The table of operator characters.
pub open spec fn operator_spec(c: char) -> Option<SpecOperator> {
    if c == '-' {
        Some(
            SpecOperator {
                single: SpecTokenKind::Minus,
                extension: '=',
                pair: SpecTokenKind::AssignMinus,
            },
        )
    } else if c == '+' {
        Some(
            SpecOperator {
                single: SpecTokenKind::Plus,
                extension: '=',
                pair: SpecTokenKind::AssignPlus,
            },
        )
    } else if c == '*' {
        Some(
            SpecOperator {
                single: SpecTokenKind::Mul,
                extension: '=',
                pair: SpecTokenKind::AssignMul,
            },
        )
    } else if c == '/' {
        Some(
            SpecOperator {
                single: SpecTokenKind::Div,
                extension: '=',
                pair: SpecTokenKind::AssignDiv,
            },
        )
    } else if c == '!' {
        Some(
            SpecOperator {
                single: SpecTokenKind::Not,
                extension: '=',
                pair: SpecTokenKind::NotEq,
            },
        )
    } else if c == '=' {
        Some(
            SpecOperator {
                single: SpecTokenKind::Assign,
                extension: '=',
                pair: SpecTokenKind::Equal,
            },
        )
    } else if c == '>' {
        Some(
            SpecOperator {
                single: SpecTokenKind::Greater,
                extension: '=',
                pair: SpecTokenKind::GreaterEq,
            },
        )
    } else if c == '<' {
        Some(
            SpecOperator {
                single: SpecTokenKind::Less,
                extension: '=',
                pair: SpecTokenKind::LessEq,
            },
        )
    } else if c == ':' {
        Some(
            SpecOperator {
                single: SpecTokenKind::Column,
                extension: ':',
                pair: SpecTokenKind::ScopeAccess,
            },
        )
    } else {
        None
    }
}

/// The token that a run of identifier characters makes: a keyword where the
/// run spells one, an identifier otherwise.
pub open spec fn word_spec(w: Seq<char>) -> SpecTokenKind {
    if w == "do"@ {
        SpecTokenKind::KwDo
    } else if w == "end"@ {
        SpecTokenKind::KwEnd
    } else if w == "static"@ {
        SpecTokenKind::KwStatic
    } else if w == "const"@ {
        SpecTokenKind::KwConst
    } else if w == "let"@ {
        SpecTokenKind::KwLet
    } else if w == "fn"@ {
        SpecTokenKind::KwFn
    } else {
        SpecTokenKind::Ident(w)
    }
}

/// What starts at offset `p` of `s`, where no comment or white space starts.
pub open spec fn scan(s: Seq<char>, p: int) -> Scan {
    if p < 0 || p >= s.len() {
        Scan::End
    } else if punctuation_spec(s[p]) is Some {
        Scan::Token { kind: punctuation_spec(s[p])->0, end: p + 1 }
    } else if operator_spec(s[p]) is Some {
        let op = operator_spec(s[p])->0;
        if p + 1 < s.len() && s[p + 1] == op.extension {
            Scan::Token { kind: op.pair, end: p + 2 }
        } else {
            Scan::Token { kind: op.single, end: p + 1 }
        }
    } else if s[p] == '\'' {
        let close = run_end(s, p + 1, all_but('\''));
        if close < s.len() {
            Scan::Token { kind: SpecTokenKind::Str(s.subrange(p + 1, close)), end: close + 1 }
        } else {
            Scan::Unterminated
        }
    } else {
        let end = run_end(s, p, letters());
        if end > p {
            Scan::Token { kind: word_spec(s.subrange(p, end)), end }
        } else {
            Scan::End
        }
    }
}

/// The outcome of lexing: the tokens in order, and the place where the
/// stream stopped. The tail is empty where the stream stopped at the end of
/// the text. Where it stopped short, the tail spans what stopped it: the
/// character that starts no lexeme, or the string literal left open.
pub struct Lexed {
    pub tokens: Seq<SpecToken>,
    pub tail: SpecSourceView,
}

/// The tokens of `s` from offset `from` on.
pub open spec fn lex(s: Seq<char>, from: int) -> Lexed
    decreases s.len() - from,
    via lex_decreases
{
    let p = trivia_end(s, from);
    match scan(s, p) {
        Scan::Token { kind, end } => {
            let rest = lex(s, end);
            Lexed {
                tokens: seq![SpecToken { kind, span: span_of(s, p, end) }] + rest.tokens,
                tail: rest.tail,
            }
        },
        Scan::Unterminated => Lexed {
            tokens: Seq::empty(),
            tail: span_of(s, p, s.len() as int),
        },
        Scan::End => Lexed {
            tokens: Seq::empty(),
            tail: if p < s.len() {
                span_of(s, p, p + 1)
            } else {
                span_of(s, p, p)
            },
        },
    }
}

#[via_fn]
proof fn lex_decreases(s: Seq<char>, from: int) {
    if 0 <= from <= s.len() {
        lemma_trivia_end_bounds(s, from);
        lemma_scan_bounds(s, trivia_end(s, from));
    }
}

/// The text from offset `from` on ends in a string literal that is left
/// open.
pub open spec fn ends_open(s: Seq<char>, from: int) -> bool
    decreases s.len() - from,
    via ends_open_decreases
{
    match scan(s, trivia_end(s, from)) {
        Scan::Token { kind, end } => ends_open(s, end),
        Scan::Unterminated => true,
        Scan::End => false,
    }
}

#[via_fn]
proof fn ends_open_decreases(s: Seq<char>, from: int) {
    if 0 <= from <= s.len() {
        lemma_trivia_end_bounds(s, from);
        lemma_scan_bounds(s, trivia_end(s, from));
    }
}

/// The tokens of a whole source text.
pub open spec fn tokenize(s: Seq<char>) -> Seq<SpecToken> {
    lex(s, 0).tokens
}

/// What looking into a stream gives: a token, if there is one, and the stream
/// that is left.
pub struct Looked {
    pub token: Option<SpecToken>,
    pub rest: Seq<SpecToken>,
}

/// Peeking at lookahead distance `n`: the token there, and the stream as it
/// was.
pub open spec fn peeked(stream: Seq<SpecToken>, n: int) -> Looked {
    Looked { token: token_at(stream, n), rest: stream }
}

/// Seeking to lookahead distance `n`: the token there, and the stream behind
/// it.
pub open spec fn sought(stream: Seq<SpecToken>, n: int) -> Looked {
    Looked { token: token_at(stream, n), rest: tokens_after(stream, n) }
}

/// The token at lookahead distance `n` in a stream, if the stream is that long.
pub open spec fn token_at(stream: Seq<SpecToken>, n: int) -> Option<SpecToken> {
    if 0 <= n < stream.len() {
        Some(stream[n])
    } else {
        None
    }
}

/// The stream left when the tokens up to lookahead distance `n` are consumed.
/// A stream that is not that long is left as it is.
pub open spec fn tokens_after(stream: Seq<SpecToken>, n: int) -> Seq<SpecToken> {
    if 0 <= n < stream.len() {
        stream.skip(n + 1)
    } else {
        stream
    }
}

/// Peeking twice at the same distance gives the same token twice, and leaves
/// the stream as it was.
pub proof fn lemma_peek_is_idempotent(stream: Seq<SpecToken>, n: int)
    ensures
        peeked(peeked(stream, n).rest, n).token == peeked(stream, n).token,
        peeked(peeked(stream, n).rest, n).rest == stream,
{
}

/// After seeking to distance `n`, the next token is the one that stood at
/// distance `n + 1` before. This holds where the stream reaches distance `n`,
/// and of the empty stream; from a shorter stream a seek takes nothing.
pub proof fn lemma_seek_then_peek(stream: Seq<SpecToken>, n: int)
    requires
        0 <= n,
        n < stream.len() || stream.len() == 0,
    ensures
        peeked(sought(stream, n).rest, 0).token == peeked(stream, n + 1).token,
{
}

/// Peeking at what a seek left finds what stood further behind: distance `m`
/// after a seek to `n` is distance `n + 1 + m` before it.
pub proof fn lemma_seek_shifts(stream: Seq<SpecToken>, n: int, m: int)
    requires
        0 <= n < stream.len(),
        0 <= m,
    ensures
        peeked(sought(stream, n).rest, m).token == peeked(stream, n + 1 + m).token,
{
}

/// A text of nothing but comments and white space has no tokens, and its
/// stream stops at the end of the text.
pub proof fn lemma_trivia_has_no_tokens(s: Seq<char>)
    requires
        trivia_end(s, 0) == s.len(),
    ensures
        lex(s, 0).tokens == Seq::<SpecToken>::empty(),
        lex(s, 0).tail.text == Seq::<char>::empty(),
{
    assert(lex(s, 0).tail.text =~= Seq::<char>::empty());
}

/// Every token of a text holds at least one character of it, and its range
/// runs forward.
pub proof fn lemma_tokens_span_text(s: Seq<char>, from: int)
    requires
        0 <= from <= s.len() <= usize::MAX,
    ensures
        forall|k: int|
            0 <= k < lex(s, from).tokens.len() ==> (#[trigger] lex(s, from).tokens[k]).span.text.len()
                > 0 && runs_forward(lex(s, from).tokens[k].span.range),
    decreases s.len() - from,
{
    let p = trivia_end(s, from);
    lemma_trivia_end_bounds(s, from);
    lemma_scan_bounds(s, p);
    match scan(s, p) {
        Scan::Token { kind, end } => {
            lemma_tokens_span_text(s, end);
            lemma_span_runs_forward(s, p, end);
            let first = SpecToken { kind, span: span_of(s, p, end) };
            let rest = lex(s, end).tokens;
            assert forall|k: int| 0 <= k < lex(s, from).tokens.len() implies (
            #[trigger] lex(s, from).tokens[k]).span.text.len() > 0 && runs_forward(
                lex(s, from).tokens[k].span.range,
            ) by {
                if k > 0 {
                    assert((seq![first] + rest)[k] == rest[k - 1]);
                }
            }
        },
        _ => {},
    }
}

/// A text that ends in a string literal left open is cut short there: its
/// tail is not empty, and starts with the quote that opens the literal.
pub proof fn lemma_open_string_cuts_short(s: Seq<char>, from: int)
    requires
        0 <= from <= s.len(),
        ends_open(s, from),
    ensures
        lex(s, from).tail.text.len() > 0,
        lex(s, from).tail.text[0] == '\'',
    decreases s.len() - from,
{
    let p = trivia_end(s, from);
    lemma_trivia_end_bounds(s, from);
    lemma_scan_bounds(s, p);
    match scan(s, p) {
        Scan::Token { kind, end } => {
            lemma_open_string_cuts_short(s, end);
        },
        _ => {},
    }
}

/// A string token is a whole literal: its text is its contents between two
/// quotes, and its contents hold no quote.
pub proof fn lemma_strings_are_whole(s: Seq<char>, from: int)
    requires
        0 <= from <= s.len(),
    ensures
        forall|k: int|
            0 <= k < lex(s, from).tokens.len() ==> ((#[trigger] lex(s, from).tokens[k]).kind matches SpecTokenKind::Str(
                contents,
            ) ==> lex(s, from).tokens[k].span.text == seq!['\''] + contents + seq!['\'']
                && !contents.contains('\'')),
    decreases s.len() - from,
{
    let p = trivia_end(s, from);
    lemma_trivia_end_bounds(s, from);
    lemma_scan_bounds(s, p);
    match scan(s, p) {
        Scan::Token { kind, end } => {
            lemma_strings_are_whole(s, end);
            let first = SpecToken { kind, span: span_of(s, p, end) };
            let rest = lex(s, end).tokens;
            let all = lex(s, from).tokens;
            assert(all == seq![first] + rest);
            assert forall|k: int| 0 <= k < all.len() implies ((#[trigger] all[k]).kind matches SpecTokenKind::Str(
                contents,
            ) ==> all[k].span.text == seq!['\''] + contents + seq!['\''] && !contents.contains(
                '\'',
            )) by {
                if k > 0 {
                    assert(all[k] == rest[k - 1]);
                } else if kind is Str {
                    let contents = kind->Str_0;
                    lemma_run_end_bounds(s, p + 1, all_but('\''));
                    let close = run_end(s, p + 1, all_but('\''));
                    assert(s[p] == '\'');
                    assert(contents == s.subrange(p + 1, close));
                    assert(end == close + 1);
                    assert(s.subrange(p, end) =~= seq!['\''] + contents + seq!['\'']);
                    assert forall|i: int| 0 <= i < contents.len() implies contents[i] != '\'' by {
                        assert(all_but('\'')(s[p + 1 + i]));
                    }
                }
            }
        },
        _ => {},
    }
}

/// The tokens of a text stand in source order: none starts before the offset
/// that lexing started from, and each starts where the one before it ended,
/// or behind.
pub proof fn lemma_tokens_in_source_order(s: Seq<char>, from: int)
    requires
        0 <= from <= s.len() <= usize::MAX,
    ensures
        forall|k: int|
            0 <= k < lex(s, from).tokens.len() ==> not_behind(
                position_of(s, from),
                (#[trigger] lex(s, from).tokens[k]).span.range.start,
            ),
        forall|k: int|
            0 <= k < lex(s, from).tokens.len() - 1 ==> not_behind(
                (#[trigger] lex(s, from).tokens[k]).span.range.end,
                lex(s, from).tokens[k + 1].span.range.start,
            ),
    decreases s.len() - from,
{
    let p = trivia_end(s, from);
    lemma_trivia_end_bounds(s, from);
    lemma_scan_bounds(s, p);
    match scan(s, p) {
        Scan::Token { kind, end } => {
            lemma_tokens_in_source_order(s, end);
            lemma_span_runs_forward(s, from, p);
            lemma_span_runs_forward(s, p, end);
            let first = SpecToken { kind, span: span_of(s, p, end) };
            let rest = lex(s, end).tokens;
            let all = lex(s, from).tokens;
            assert(all == seq![first] + rest);
            assert(all[0] == first);
            assert forall|k: int| 0 <= k < all.len() implies not_behind(
                position_of(s, from),
                (#[trigger] all[k]).span.range.start,
            ) by {
                if k > 0 {
                    assert(all[k] == rest[k - 1]);
                }
            }
            assert forall|k: int| 0 <= k < all.len() - 1 implies not_behind(
                (#[trigger] all[k]).span.range.end,
                all[k + 1].span.range.start,
            ) by {
                assert(all[k + 1] == rest[k]);
                if k > 0 {
                    assert(all[k] == rest[k - 1]);
                }
            }
        },
        _ => {},
    }
}

/// A run ends within the text, holds only characters of its class, and stops
/// at the first character outside it.
pub proof fn lemma_run_end_bounds(s: Seq<char>, from: int, member: spec_fn(char) -> bool)
    requires
        0 <= from <= s.len(),
    ensures
        from <= run_end(s, from, member) <= s.len(),
        forall|i: int| from <= i < run_end(s, from, member) ==> member(#[trigger] s[i]),
        run_end(s, from, member) < s.len() ==> !member(s[run_end(s, from, member)]),
    decreases s.len() - from,
{
    if from < s.len() && member(s[from]) {
        lemma_run_end_bounds(s, from + 1, member);
    }
}

/// A block comment ends within the text.
pub proof fn lemma_block_end_bounds(s: Seq<char>, from: int)
    requires
        0 <= from <= s.len(),
    ensures
        from <= block_end(s, from) <= s.len(),
    decreases s.len() - from,
{
    if from + 3 <= s.len() && !dashes_at(s, from) {
        lemma_block_end_bounds(s, from + 1);
    }
}

/// A comment is at least two characters long and ends within the text.
pub proof fn lemma_comment_end_bounds(s: Seq<char>, i: int)
    requires
        comment_at(s, i),
    ensures
        i + 2 <= comment_end(s, i) <= s.len(),
{
    if dashes_at(s, i) {
        lemma_block_end_bounds(s, i + 3);
    } else {
        lemma_run_end_bounds(s, i, all_but('\n'));
        assert(run_end(s, i, all_but('\n')) == run_end(s, i + 1, all_but('\n')));
        assert(run_end(s, i + 1, all_but('\n')) == run_end(s, i + 2, all_but('\n')));
        lemma_run_end_bounds(s, i + 2, all_but('\n'));
    }
}

/// Skipping comments and white space ends within the text, at a character
/// that is neither, and skipping again from there moves no further.
pub proof fn lemma_trivia_end_bounds(s: Seq<char>, from: int)
    requires
        0 <= from <= s.len(),
    ensures
        from <= trivia_end(s, from) <= s.len(),
        trivia_end(s, from) < s.len() ==> !is_blank(s[trivia_end(s, from)]) && !comment_at(
            s,
            trivia_end(s, from),
        ),
        trivia_end(s, trivia_end(s, from)) == trivia_end(s, from),
    decreases s.len() - from,
{
    if from < s.len() {
        if is_blank(s[from]) {
            lemma_trivia_end_bounds(s, from + 1);
        } else if comment_at(s, from) {
            lemma_comment_end_bounds(s, from);
            lemma_trivia_end_bounds(s, comment_end(s, from));
        }
    }
}

/// Skipping over a stretch of white space changes nothing about where the
/// comments and white space end.
pub proof fn lemma_trivia_end_over_blanks(s: Seq<char>, from: int, to: int)
    requires
        0 <= from <= to <= s.len(),
        forall|i: int| from <= i < to ==> is_blank(#[trigger] s[i]),
    ensures
        trivia_end(s, from) == trivia_end(s, to),
    decreases to - from,
{
    if from < to {
        lemma_trivia_end_over_blanks(s, from + 1, to);
    }
}

/// A token is at least one character long and ends within the text.
pub proof fn lemma_scan_bounds(s: Seq<char>, p: int)
    requires
        0 <= p <= s.len(),
    ensures
        scan(s, p) matches Scan::Token { end, .. } ==> p < end <= s.len(),
{
    if p < s.len() {
        lemma_run_end_bounds(s, p + 1, all_but('\''));
        lemma_run_end_bounds(s, p, letters());
    }
}

/// A block comment body that is entered up to two dashes before a character
/// that is no dash ends where the body behind that character ends.
pub proof fn lemma_block_end_broken_run(s: Seq<char>, base: int, at: int)
    requires
        0 <= base <= at < s.len(),
        at - base <= 2,
        s[at] != '-',
    ensures
        block_end(s, base) == block_end(s, at + 1),
    decreases at - base,
{
    if base + 3 <= s.len() {
        if base < at {
            lemma_block_end_broken_run(s, base + 1, at);
        }
    }
}

/// Lexing from an offset and lexing from behind the comments and white space
/// that start there give the same.
pub proof fn lemma_lex_after_trivia(s: Seq<char>, from: int)
    requires
        0 <= from <= s.len(),
    ensures
        lex(s, trivia_end(s, from)) == lex(s, from),
{
    lemma_trivia_end_bounds(s, from);
}

} // verus!
