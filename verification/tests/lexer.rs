use stacklang::mylexer::{Lexer, Loc, Token, TokenKind};

fn lex_all(src: &str) -> Vec<Token> {
    let mut lx = Lexer::new("test".to_string(), src.to_string());
    let mut out = Vec::new();
    loop {
        let t = lx.next_token();
        let done = t.kind == TokenKind::EOF;
        out.push(t);
        if done {
            return out;
        }
    }
}

#[test]
fn empty_input_is_one_eof() {
    let toks = lex_all("");
    assert_eq!(toks.len(), 1);
    assert_eq!(toks[0].kind, TokenKind::EOF);
    assert_eq!(toks[0].value, "\0");
    assert_eq!(toks[0].loc.line, 1);
    assert_eq!(toks[0].loc.col, 1);
}

#[test]
fn whitespace_and_comments_only_give_one_eof() {
    let toks = lex_all("  \t\r\n  // a comment\n\n// another\n   ");
    assert_eq!(toks.len(), 1);
    assert_eq!(toks[0].kind, TokenKind::EOF);
}

#[test]
fn comment_at_end_of_input_without_newline() {
    let toks = lex_all("foo // trailing comment");
    assert_eq!(toks.len(), 2);
    assert_eq!(toks[0].kind, TokenKind::Identfier);
    assert_eq!(toks[0].value, "foo");
    assert_eq!(toks[1].kind, TokenKind::EOF);
}

#[test]
fn comment_contributes_no_tokens() {
    let toks = lex_all("foo // bar baz 123 -- + @\nqux");
    assert_eq!(toks.len(), 3);
    assert_eq!(toks[0].value, "foo");
    assert_eq!(toks[0].loc.line, 1);
    assert_eq!(toks[0].loc.col, 1);
    assert_eq!(toks[1].value, "qux");
    assert_eq!(toks[1].loc.line, 2);
    assert_eq!(toks[1].loc.col, 1);
}

#[test]
fn comments_and_blank_lines_alternate() {
    let toks = lex_all("// one\n\n// two\n\nx // three\n// four\ny");
    assert_eq!(toks.len(), 3);
    assert_eq!(toks[0].value, "x");
    assert_eq!(toks[0].loc.line, 5);
    assert_eq!(toks[1].value, "y");
    assert_eq!(toks[1].loc.line, 7);
}

#[test]
fn identifier_runs_and_keywords() {
    let toks = lex_all("proc in end foo _bar Baz_Quux procs end_");
    let kinds: Vec<TokenKind> = toks.iter().map(|t| t.kind).collect();
    assert_eq!(
        kinds,
        vec![
            TokenKind::Keyword,
            TokenKind::Keyword,
            TokenKind::Keyword,
            TokenKind::Identfier,
            TokenKind::Identfier,
            TokenKind::Identfier,
            TokenKind::Identfier,
            TokenKind::Identfier,
            TokenKind::EOF,
        ]
    );
    assert_eq!(toks[0].value, "proc");
    assert_eq!(toks[3].value, "foo");
    assert_eq!(toks[4].value, "_bar");
    assert_eq!(toks[5].value, "Baz_Quux");
    assert_eq!(toks[6].value, "procs");
    assert_eq!(toks[7].value, "end_");
}

#[test]
fn identifiers_do_not_continue_with_digits() {
    // Digits do not continue an identifier run: `a1` scans as `a` then `1`.
    let toks = lex_all("a1");
    assert_eq!(toks.len(), 3);
    assert_eq!(toks[0].kind, TokenKind::Identfier);
    assert_eq!(toks[0].value, "a");
    assert_eq!(toks[1].kind, TokenKind::Integer);
    assert_eq!(toks[1].value, "1");
}

#[test]
fn integer_runs_are_maximal_and_kept_verbatim() {
    let toks = lex_all("12345 007 0");
    assert_eq!(toks[0].kind, TokenKind::Integer);
    assert_eq!(toks[0].value, "12345");
    assert_eq!(toks[1].kind, TokenKind::Integer);
    assert_eq!(toks[1].value, "007");
    assert_eq!(toks[2].kind, TokenKind::Integer);
    assert_eq!(toks[2].value, "0");
    assert_eq!(toks[3].kind, TokenKind::EOF);
}

#[test]
fn plus_is_an_operator() {
    let toks = lex_all("1+2");
    assert_eq!(toks[0].value, "1");
    assert_eq!(toks[1].kind, TokenKind::Operator);
    assert_eq!(toks[1].value, "+");
    assert_eq!(toks[2].value, "2");
}

#[test]
fn double_dash_is_punctuation() {
    let toks = lex_all("a -- b");
    assert_eq!(toks[1].kind, TokenKind::Punct);
    assert_eq!(toks[1].value, "--");
    assert_eq!(toks[2].value, "b");
    assert_eq!(toks[2].loc.col, 6);
}

#[test]
fn lone_dash_still_yields_double_dash_text() {
    // The chosen rule: a lone `-` consumes one byte but the token text is
    // still `--`.
    let toks = lex_all("-x");
    assert_eq!(toks.len(), 3);
    assert_eq!(toks[0].kind, TokenKind::Punct);
    assert_eq!(toks[0].value, "--");
    assert_eq!(toks[1].kind, TokenKind::Identfier);
    assert_eq!(toks[1].value, "x");
    assert_eq!(toks[1].loc.col, 2);
}

#[test]
fn lone_slash_is_not_a_comment() {
    // Only the two-byte `//` opens a comment; a single `/` is an invalid
    // token and what follows it is scanned normally.
    let toks = lex_all("/ x");
    assert_eq!(toks.len(), 3);
    assert_eq!(toks[0].kind, TokenKind::Invalid);
    assert_eq!(toks[0].value, "/");
    assert_eq!(toks[1].kind, TokenKind::Identfier);
    assert_eq!(toks[1].value, "x");
}

#[test]
fn unrecognized_byte_is_an_invalid_token() {
    let toks = lex_all("a @ b");
    assert_eq!(toks[1].kind, TokenKind::Invalid);
    assert_eq!(toks[1].value, "@");
    assert_eq!(toks[2].value, "b");
}

#[test]
fn eof_token_repeats_after_end_of_input() {
    let mut lx = Lexer::new("test".to_string(), "x".to_string());
    let t1 = lx.next_token();
    assert_eq!(t1.kind, TokenKind::Identfier);
    let t2 = lx.next_token();
    assert_eq!(t2.kind, TokenKind::EOF);
    let t3 = lx.next_token();
    assert_eq!(t3.kind, TokenKind::EOF);
    assert_eq!(t3.value, "\0");
}

#[test]
fn token_positions_track_lines_and_columns() {
    let toks = lex_all("ab cd\n  ef");
    assert_eq!(toks[0].loc.line, 1);
    assert_eq!(toks[0].loc.col, 1);
    assert_eq!(toks[1].loc.line, 1);
    assert_eq!(toks[1].loc.col, 4);
    assert_eq!(toks[2].loc.line, 2);
    assert_eq!(toks[2].loc.col, 3);
    assert_eq!(toks[0].loc.file_path, "test");
}

#[test]
fn tab_moves_to_next_multiple_of_eight() {
    // From column 1 a tab lands on column 8, the next multiple of the stop.
    let toks = lex_all("\ta");
    assert_eq!(toks[0].loc.col, 8);
    // From column 5 (after "abcd") a tab also lands on column 8.
    let toks = lex_all("abcd\tz");
    assert_eq!(toks[1].loc.col, 8);
    // From column 8 a tab lands on column 16: always at least one full stop.
    let toks = lex_all("abcdefg\tz");
    assert_eq!(toks[1].loc.col, 16);
    // From column 9 (after 8 name bytes) a tab lands on column 16 as well.
    let toks = lex_all("abcdefgh\tz");
    assert_eq!(toks[1].loc.col, 16);
}

#[test]
fn loc_advances_column_and_line() {
    let mut loc = Loc::new("f".to_string(), 1, 1);
    loc.next_column();
    assert_eq!(loc.col, 2);
    loc.next_line();
    assert_eq!(loc.line, 2);
    assert_eq!(loc.col, 1);
    // A control byte has no visual width.
    loc.next(7);
    assert_eq!(loc.col, 1);
    // An ordinary byte moves one column.
    loc.next(b'a');
    assert_eq!(loc.col, 2);
    // A tab moves to the next multiple of eight.
    loc.next(b'\t');
    assert_eq!(loc.col, 8);
    // A line feed starts the next line at column 1.
    loc.next(b'\n');
    assert_eq!(loc.line, 3);
    assert_eq!(loc.col, 1);
}

#[test]
fn eof_constructor_carries_the_given_position() {
    let t = Token::eof(Loc::new("somewhere".to_string(), 3, 9));
    assert_eq!(t.kind, TokenKind::EOF);
    assert_eq!(t.value, "\0");
    assert_eq!(t.val(), "\0");
    assert_eq!(t.loc.line, 3);
    assert_eq!(t.loc.col, 9);
    assert_eq!(t.loc.file_path, "somewhere");
}
