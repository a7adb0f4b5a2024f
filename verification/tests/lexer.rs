use ulangc::ast::token::{Token, TokenData, TokenKind};
use ulangc::ast::{SourcePos, SourceRange, SourceView};
use ulangc::parser::lexer::{is_letter, Lexer};

fn kinds(input: &str) -> Vec<TokenKind<'_>> {
    let mut lexer = Lexer::from_str(input);
    let mut out = Vec::new();
    while let Some(token) = lexer.seek(0) {
        out.push(token.data);
    }
    out
}

fn tokens(input: &str) -> Vec<Token<'_>> {
    let mut lexer = Lexer::from_str(input);
    let mut out = Vec::new();
    while let Some(token) = lexer.seek(0) {
        out.push(token);
    }
    out
}

fn range(l0: usize, c0: usize, l1: usize, c1: usize) -> SourceRange {
    SourceRange {
        start: SourcePos { line: l0, column: c0 },
        end: SourcePos { line: l1, column: c1 },
    }
}

#[test]
fn empty_input_has_no_tokens() {
    let mut lexer = Lexer::from_str("");
    assert_eq!(lexer.peek(0), None);
    assert_eq!(lexer.seek(0), None);
    assert_eq!(
        lexer.end_of_stream(),
        SourceView { range: range(0, 0, 0, 0), view: "" }
    );
}

#[test]
fn comments_and_white_space_have_no_tokens() {
    assert_eq!(kinds("  \t\r\n -- a comment\n --- a block\n -- with dashes --- \n"), vec![]);
    assert_eq!(kinds("--- never closed"), vec![]);
    assert_eq!(kinds("-- no line break"), vec![]);
}

#[test]
fn line_comment_is_skipped() {
    assert_eq!(kinds("-- c\nstatic x = 1"), kinds("static x = 1"));
    assert_eq!(
        kinds("-- c\nstatic x = 1"),
        vec![TokenKind::KwStatic, TokenKind::Ident("x"), TokenKind::Assign]
    );
    let with_comment = tokens("-- c\nstatic x = 1");
    assert_eq!(with_comment[0].view, SourceView { range: range(1, 0, 1, 6), view: "static" });
    let without = tokens("static x = 1");
    assert_eq!(without[0].view, SourceView { range: range(0, 0, 0, 6), view: "static" });
}

#[test]
fn block_comment_is_skipped() {
    let all = tokens("---abc---static x = 1");
    assert_eq!(all[0].data, TokenKind::KwStatic);
    assert_eq!(all[0].view, SourceView { range: range(0, 9, 0, 15), view: "static" });
    assert_eq!(all.len(), 3);
}

#[test]
fn two_dashes_do_not_close_a_block_comment() {
    assert_eq!(kinds("--- a -- b - c --\n-- d ---let"), vec![TokenKind::KwLet]);
    assert_eq!(kinds("------let"), vec![TokenKind::KwLet]);
    assert_eq!(kinds("-------let"), vec![TokenKind::Minus, TokenKind::KwLet]);
    assert_eq!(kinds("---x----let"), vec![TokenKind::Minus, TokenKind::KwLet]);
}

#[test]
fn block_comment_spans_lines() {
    let all = tokens("--- first\nsecond\n---\n  fn");
    assert_eq!(all.len(), 1);
    assert_eq!(all[0].data, TokenKind::KwFn);
    assert_eq!(all[0].view.range, range(3, 2, 3, 4));
}

#[test]
fn illustrative_program_tokens() {
    let source = "static main = fn do\n    std::println ('Hello, World!')\nend";
    assert_eq!(
        kinds(source),
        vec![
            TokenKind::KwStatic,
            TokenKind::Ident("main"),
            TokenKind::Assign,
            TokenKind::KwFn,
            TokenKind::KwDo,
            TokenKind::Ident("std"),
            TokenKind::ScopeAccess,
            TokenKind::Ident("println"),
            TokenKind::LParen,
            TokenKind::Str("Hello, World!"),
            TokenKind::RParen,
            TokenKind::KwEnd,
        ]
    );
}

#[test]
fn illustrative_program_views() {
    let source = "static main = fn do\n    std::println ('Hello, World!')\nend";
    let all = tokens(source);
    assert_eq!(all[1].view, SourceView { range: range(0, 7, 0, 11), view: "main" });
    assert_eq!(all[5].view, SourceView { range: range(1, 4, 1, 7), view: "std" });
    assert_eq!(all[6].view, SourceView { range: range(1, 7, 1, 9), view: "::" });
    assert_eq!(
        all[9].view,
        SourceView { range: range(1, 18, 1, 33), view: "'Hello, World!'" }
    );
    assert_eq!(all[11].view, SourceView { range: range(2, 0, 2, 3), view: "end" });
}

#[test]
fn operators_alone_and_extended() {
    assert_eq!(kinds("+"), vec![TokenKind::Plus]);
    assert_eq!(kinds("+="), vec![TokenKind::AssignPlus]);
    assert_eq!(kinds(":"), vec![TokenKind::Column]);
    assert_eq!(kinds("::"), vec![TokenKind::ScopeAccess]);
    assert_eq!(kinds("-"), vec![TokenKind::Minus]);
    assert_eq!(kinds("-="), vec![TokenKind::AssignMinus]);
    assert_eq!(kinds("*"), vec![TokenKind::Mul]);
    assert_eq!(kinds("*="), vec![TokenKind::AssignMul]);
    assert_eq!(kinds("/"), vec![TokenKind::Div]);
    assert_eq!(kinds("/="), vec![TokenKind::AssignDiv]);
    assert_eq!(kinds("!"), vec![TokenKind::Not]);
    assert_eq!(kinds("!="), vec![TokenKind::NotEq]);
    assert_eq!(kinds("="), vec![TokenKind::Assign]);
    assert_eq!(kinds("=="), vec![TokenKind::Equal]);
    assert_eq!(kinds(">"), vec![TokenKind::Greater]);
    assert_eq!(kinds(">="), vec![TokenKind::GreaterEq]);
    assert_eq!(kinds("<"), vec![TokenKind::Less]);
    assert_eq!(kinds("<="), vec![TokenKind::LessEq]);
}

#[test]
fn only_one_extension_character_is_checked() {
    assert_eq!(kinds("==="), vec![TokenKind::Equal, TokenKind::Assign]);
    assert_eq!(kinds(":::"), vec![TokenKind::ScopeAccess, TokenKind::Column]);
    assert_eq!(kinds("+ ="), vec![TokenKind::Plus, TokenKind::Assign]);
    assert_eq!(kinds("+:"), vec![TokenKind::Plus, TokenKind::Column]);
    assert_eq!(kinds("<>"), vec![TokenKind::Less, TokenKind::Greater]);
    assert_eq!(kinds(":="), vec![TokenKind::Column, TokenKind::Assign]);
}

#[test]
fn punctuation() {
    assert_eq!(
        kinds(".,()"),
        vec![TokenKind::Dot, TokenKind::Comma, TokenKind::LParen, TokenKind::RParen]
    );
}

#[test]
fn keywords_and_identifiers() {
    assert_eq!(
        kinds("do end static const let fn"),
        vec![
            TokenKind::KwDo,
            TokenKind::KwEnd,
            TokenKind::KwStatic,
            TokenKind::KwConst,
            TokenKind::KwLet,
            TokenKind::KwFn,
        ]
    );
    assert_eq!(
        kinds("dot ends Static _let fn_ Zed azAZ"),
        vec![
            TokenKind::Ident("dot"),
            TokenKind::Ident("ends"),
            TokenKind::Ident("Static"),
            TokenKind::Ident("_let"),
            TokenKind::Ident("fn_"),
            TokenKind::Ident("Zed"),
            TokenKind::Ident("azAZ"),
        ]
    );
}

#[test]
fn keyword_view_spans_the_keyword() {
    let all = tokens("let x");
    assert_eq!(all[0].view, SourceView { range: range(0, 0, 0, 3), view: "let" });
    assert_eq!(all[1].view, SourceView { range: range(0, 4, 0, 5), view: "x" });
}

#[test]
fn letters_are_ascii_letters_and_underscore() {
    for ch in ['a', 'm', 'z', 'A', 'M', 'Z', '_'] {
        assert!(is_letter(ch));
    }
    for ch in ['@', '[', '`', '{', '0', '9', ' ', '-', '\'', '~', 'é', '\n'] {
        assert!(!is_letter(ch));
    }
}

#[test]
fn string_literal_carries_its_contents() {
    let all = tokens("'' 'a b' 'let -- x'");
    assert_eq!(all.len(), 3);
    assert_eq!(all[0].data, TokenKind::Str(""));
    assert_eq!(all[0].view, SourceView { range: range(0, 0, 0, 2), view: "''" });
    assert_eq!(all[1].data, TokenKind::Str("a b"));
    assert_eq!(all[1].view, SourceView { range: range(0, 3, 0, 8), view: "'a b'" });
    assert_eq!(all[2].data, TokenKind::Str("let -- x"));
}

#[test]
fn string_literal_may_span_lines() {
    let all = tokens("'a\nbc' x");
    assert_eq!(all[0].data, TokenKind::Str("a\nbc"));
    assert_eq!(all[0].view.range, range(0, 0, 1, 3));
    assert_eq!(all[1].view.range, range(1, 4, 1, 5));
}

#[test]
fn characters_beyond_ascii_are_counted_one_by_one() {
    let all = tokens("'héllo→' x");
    assert_eq!(all[0].data, TokenKind::Str("héllo→"));
    assert_eq!(all[0].view, SourceView { range: range(0, 0, 0, 8), view: "'héllo→'" });
    assert_eq!(all[1].view, SourceView { range: range(0, 9, 0, 10), view: "x" });
}

#[test]
fn unterminated_string_stops_the_stream() {
    let mut lexer = Lexer::from_str("static x = 'abc");
    assert_eq!(lexer.seek(2).map(|t| t.data), Some(TokenKind::Assign));
    assert_eq!(lexer.peek(0), None);
    assert_eq!(lexer.seek(0), None);
    assert_eq!(
        lexer.end_of_stream(),
        SourceView { range: range(0, 11, 0, 15), view: "'abc" }
    );
    assert_eq!(lexer.peek(0), None);
}

#[test]
fn stray_character_stops_the_stream() {
    assert_eq!(kinds("123 = 1"), vec![]);
    assert_eq!(kinds("a # b"), vec![TokenKind::Ident("a")]);
    let mut lexer = Lexer::from_str("a # b");
    assert_eq!(
        lexer.end_of_stream(),
        SourceView { range: range(0, 2, 0, 3), view: "#" }
    );
    assert_eq!(lexer.seek(0).map(|t| t.data), Some(TokenKind::Ident("a")));
    assert_eq!(lexer.seek(0), None);
}

#[test]
fn end_of_stream_is_empty_at_the_end_of_the_text() {
    let mut lexer = Lexer::from_str("let x \n ");
    assert_eq!(
        lexer.end_of_stream(),
        SourceView { range: range(1, 1, 1, 1), view: "" }
    );
    assert_eq!(lexer.peek(1).map(|t| t.data), Some(TokenKind::Ident("x")));
}

#[test]
fn peek_does_not_consume() {
    let mut lexer = Lexer::from_str("let x = y");
    for n in 0..6 {
        let first = lexer.peek(n);
        let second = lexer.peek(n);
        assert_eq!(first, second);
    }
    assert_eq!(lexer.peek(0).map(|t| t.data), Some(TokenKind::KwLet));
    assert_eq!(lexer.peek(3).map(|t| t.data), Some(TokenKind::Ident("y")));
    assert_eq!(lexer.peek(4), None);
    assert_eq!(lexer.peek(0).map(|t| t.data), Some(TokenKind::KwLet));
}

#[test]
fn peek_in_any_order() {
    let mut lexer = Lexer::from_str("a b c d");
    assert_eq!(lexer.peek(2).map(|t| t.data), Some(TokenKind::Ident("c")));
    assert_eq!(lexer.peek(0).map(|t| t.data), Some(TokenKind::Ident("a")));
    assert_eq!(lexer.peek(3).map(|t| t.data), Some(TokenKind::Ident("d")));
    assert_eq!(lexer.peek(1).map(|t| t.data), Some(TokenKind::Ident("b")));
}

#[test]
fn seek_consumes_through_the_offset() {
    for n in 0..4 {
        let mut before = Lexer::from_str("a b c d e");
        let expected = before.peek(n + 1);
        let mut lexer = Lexer::from_str("a b c d e");
        let sought = lexer.seek(n);
        assert_eq!(sought, before.peek(n));
        assert_eq!(lexer.peek(0), expected);
    }
    let mut lexer = Lexer::from_str("a b c d e");
    assert_eq!(lexer.seek(1).map(|t| t.data), Some(TokenKind::Ident("b")));
    assert_eq!(lexer.seek(1).map(|t| t.data), Some(TokenKind::Ident("d")));
    assert_eq!(lexer.seek(0).map(|t| t.data), Some(TokenKind::Ident("e")));
    assert_eq!(lexer.seek(0), None);
}

#[test]
fn seek_past_the_end_takes_nothing() {
    let mut lexer = Lexer::from_str("a b");
    assert_eq!(lexer.seek(2), None);
    assert_eq!(lexer.seek(usize::MAX), None);
    assert_eq!(lexer.peek(usize::MAX), None);
    assert_eq!(lexer.peek(0).map(|t| t.data), Some(TokenKind::Ident("a")));
    assert_eq!(lexer.seek(1).map(|t| t.data), Some(TokenKind::Ident("b")));
    assert_eq!(lexer.peek(0), None);
}

#[test]
fn positions_follow_line_breaks() {
    let all = tokens("a\n  b\r\n\tc\n\n d");
    assert_eq!(all[0].view.range, range(0, 0, 0, 1));
    assert_eq!(all[1].view.range, range(1, 2, 1, 3));
    assert_eq!(all[2].view.range, range(2, 1, 2, 2));
    assert_eq!(all[3].view.range, range(4, 1, 4, 2));
}

#[test]
fn ranges_never_run_backwards() {
    let all = tokens("static main = fn do\n  f ('x\ny', a::b)\nend -- done");
    let mut last = SourcePos { line: 0, column: 0 };
    for token in all {
        let SourceRange { start, end } = token.view.range;
        assert!((last.line, last.column) <= (start.line, start.column));
        assert!((start.line, start.column) < (end.line, end.column));
        last = end;
    }
}

#[test]
fn comment_after_minus_needs_two_dashes() {
    assert_eq!(
        kinds("a - b"),
        vec![TokenKind::Ident("a"), TokenKind::Minus, TokenKind::Ident("b")]
    );
    assert_eq!(kinds("a -- b"), vec![TokenKind::Ident("a")]);
    assert_eq!(
        kinds("a -= b"),
        vec![TokenKind::Ident("a"), TokenKind::AssignMinus, TokenKind::Ident("b")]
    );
}

#[test]
fn token_data_is_the_token_kind() {
    let all = tokens("let x");
    let data: TokenData<'_> = all[0].data;
    assert_eq!(data, TokenData::KwLet);
    assert_eq!(all[1].data, TokenData::Ident("x"));
    assert_eq!(TokenData::Str("a"), TokenKind::Str("a"));
}

#[test]
fn string_tokens_are_whole_literals() {
    for token in tokens("'a' x 'b c' ('') 'd\ne'") {
        if let TokenKind::Str(contents) = token.data {
            assert_eq!(token.view.view, format!("'{}'", contents));
            assert!(!contents.contains('\''));
        }
    }
    assert_eq!(kinds("'a''b'"), vec![TokenKind::Str("a"), TokenKind::Str("b")]);
    assert_eq!(kinds("'a' 'b"), vec![TokenKind::Str("a")]);
}
