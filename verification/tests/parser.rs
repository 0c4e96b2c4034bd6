use stacklang::mylexer::{Lexer, TokenKind};
use stacklang::myparser::{
    Expectation, Intrinsic, OpKind, ParseError, Parser, TopLevel,
};

fn parse_src(src: &str) -> Result<Vec<TopLevel>, ParseError> {
    let mut parser = Parser::new(Lexer::new("test".to_string(), src.to_string()));
    parser.parse()
}

#[test]
fn empty_source_parses_to_nothing() {
    let tls = parse_src("").unwrap();
    assert_eq!(tls.len(), 0);
}

#[test]
fn whitespace_and_comments_parse_to_nothing() {
    let tls = parse_src("// nothing here\n   \n// at all\n").unwrap();
    assert_eq!(tls.len(), 0);
}

#[test]
fn proc_main_with_push_and_print() {
    let tls = parse_src("proc main in 1 print end").unwrap();
    assert_eq!(tls.len(), 1);
    let TopLevel::Proc(p) = &tls[0];
    assert_eq!(p.name.value, "main");
    assert_eq!(p.name.kind, TokenKind::Identfier);
    assert_eq!(p.ins.len(), 0);
    assert_eq!(p.outs.len(), 0);
    assert_eq!(p.body.len(), 2);
    assert_eq!(p.body[0].kind, OpKind::PushInt(1));
    assert_eq!(p.body[1].kind, OpKind::Intrinsic(Intrinsic::Print));
}

#[test]
fn proc_add_with_signature() {
    let tls = parse_src("proc add a b -- c in end").unwrap();
    assert_eq!(tls.len(), 1);
    let TopLevel::Proc(p) = &tls[0];
    assert_eq!(p.name.value, "add");
    assert_eq!(p.ins.len(), 2);
    assert_eq!(p.ins[0].value, "a");
    assert_eq!(p.ins[1].value, "b");
    assert_eq!(p.outs.len(), 1);
    assert_eq!(p.outs[0].value, "c");
    assert_eq!(p.body.len(), 0);
}

#[test]
fn two_integers_with_no_operator_still_parse() {
    // No arity or stack-effect checking happens at this layer.
    let tls = parse_src("proc f in 1 2 end").unwrap();
    assert_eq!(tls.len(), 1);
    let TopLevel::Proc(p) = &tls[0];
    assert_eq!(p.body.len(), 2);
    assert_eq!(p.body[0].kind, OpKind::PushInt(1));
    assert_eq!(p.body[1].kind, OpKind::PushInt(2));
}

#[test]
fn bare_dash_in_body_is_a_syntax_error() {
    let err = parse_src("proc f in - end").unwrap_err();
    match err {
        ParseError::UnexpectedInProc { token, proc_name } => {
            assert_eq!(token.kind, TokenKind::Punct);
            assert_eq!(token.value, "--");
            assert_eq!(token.loc.line, 1);
            assert_eq!(token.loc.col, 11);
            assert_eq!(proc_name.value, "f");
        }
        other => panic!("wrong error: {:?}", other),
    }
}

#[test]
fn plus_parses_to_the_plus_intrinsic() {
    let tls = parse_src("proc f in 1 2 + print end").unwrap();
    let TopLevel::Proc(p) = &tls[0];
    assert_eq!(p.body.len(), 4);
    assert_eq!(p.body[2].kind, OpKind::Intrinsic(Intrinsic::Plus));
    assert_eq!(p.body[2].token.value, "+");
}

#[test]
fn several_procedures_in_order() {
    let tls = parse_src("proc a in end\nproc b in 7 end").unwrap();
    assert_eq!(tls.len(), 2);
    let TopLevel::Proc(pa) = &tls[0];
    let TopLevel::Proc(pb) = &tls[1];
    assert_eq!(pa.name.value, "a");
    assert_eq!(pb.name.value, "b");
    assert_eq!(pb.body[0].kind, OpKind::PushInt(7));
}

#[test]
fn largest_integer_literal_fits() {
    let tls = parse_src("proc f in 9223372036854775807 end").unwrap();
    let TopLevel::Proc(p) = &tls[0];
    assert_eq!(p.body[0].kind, OpKind::PushInt(i64::MAX));
}

#[test]
fn oversized_integer_literal_is_invalid() {
    let err = parse_src("proc f in 9223372036854775808 end").unwrap_err();
    match err {
        ParseError::InvalidLiteral { token } => {
            assert_eq!(token.value, "9223372036854775808");
            assert_eq!(token.loc.col, 11);
        }
        other => panic!("wrong error: {:?}", other),
    }
}

#[test]
fn unknown_identifier_in_body_is_an_error() {
    let err = parse_src("proc f in foo end").unwrap_err();
    match err {
        ParseError::UnexpectedInProc { token, proc_name } => {
            assert_eq!(token.value, "foo");
            assert_eq!(proc_name.value, "f");
        }
        other => panic!("wrong error: {:?}", other),
    }
}

#[test]
fn missing_proc_name_is_an_error() {
    let err = parse_src("proc 1 in end").unwrap_err();
    match err {
        ParseError::UnexpectedToken { expected, actual } => {
            assert_eq!(expected, Expectation::ProcName);
            assert_eq!(actual.kind, TokenKind::Integer);
            assert_eq!(actual.value, "1");
        }
        other => panic!("wrong error: {:?}", other),
    }
}

#[test]
fn unsupported_top_level_token_is_an_error() {
    let err = parse_src("foo").unwrap_err();
    match err {
        ParseError::UnsupportedTopLevel { token } => {
            assert_eq!(token.value, "foo");
        }
        other => panic!("wrong error: {:?}", other),
    }
}

#[test]
fn keyword_other_than_proc_at_top_level_is_unsupported() {
    let err = parse_src("end").unwrap_err();
    assert!(matches!(err, ParseError::UnsupportedTopLevel { .. }));
}

#[test]
fn invalid_byte_at_top_level_is_an_error() {
    let err = parse_src("@").unwrap_err();
    match err {
        ParseError::InvalidToken { token } => {
            assert_eq!(token.kind, TokenKind::Invalid);
            assert_eq!(token.value, "@");
        }
        other => panic!("wrong error: {:?}", other),
    }
}

#[test]
fn unterminated_body_is_a_premature_end() {
    let err = parse_src("proc f in 1").unwrap_err();
    match err {
        ParseError::PrematureEnd { token } => {
            assert_eq!(token.kind, TokenKind::EOF);
        }
        other => panic!("wrong error: {:?}", other),
    }
}

#[test]
fn unterminated_signature_is_an_error() {
    let err = parse_src("proc f a b").unwrap_err();
    match err {
        ParseError::UnexpectedToken { expected, actual } => {
            assert_eq!(expected, Expectation::SignatureItem);
            assert_eq!(actual.kind, TokenKind::EOF);
        }
        other => panic!("wrong error: {:?}", other),
    }
}

#[test]
fn keyword_in_output_list_is_an_error() {
    let err = parse_src("proc f -- proc in end").unwrap_err();
    match err {
        ParseError::UnexpectedToken { expected, actual } => {
            assert_eq!(expected, Expectation::OutputItem);
            assert_eq!(actual.value, "proc");
        }
        other => panic!("wrong error: {:?}", other),
    }
}

#[test]
fn bare_keyword_closes_a_signature() {
    // The first `end` closes the signature (any bare keyword does); the
    // second closes the empty body.
    let tls = parse_src("proc f end end").unwrap();
    assert_eq!(tls.len(), 1);
    let TopLevel::Proc(p) = &tls[0];
    assert_eq!(p.ins.len(), 0);
    assert_eq!(p.outs.len(), 0);
    assert_eq!(p.body.len(), 0);
}

#[test]
fn comments_inside_a_procedure_are_skipped() {
    let tls = parse_src("proc main in // push\n 41 1 + // add\n print end").unwrap();
    let TopLevel::Proc(p) = &tls[0];
    assert_eq!(p.body.len(), 4);
    assert_eq!(p.body[0].kind, OpKind::PushInt(41));
    assert_eq!(p.body[1].kind, OpKind::PushInt(1));
    assert_eq!(p.body[2].kind, OpKind::Intrinsic(Intrinsic::Plus));
    assert_eq!(p.body[3].kind, OpKind::Intrinsic(Intrinsic::Print));
}

#[test]
fn diagnostic_lines_carry_position_and_token() {
    let err = parse_src("proc f in - end").unwrap_err();
    assert_eq!(
        err.message(),
        "test:1:11 Syntax Error: Unexpected Punct(--) in proc f"
    );
    let err = parse_src("proc f in foo end").unwrap_err();
    assert_eq!(
        err.message(),
        "test:1:11 Syntax Error: Unexpected identifier Identfier(foo) in proc f"
    );
    let err = parse_src("proc 1 in end").unwrap_err();
    assert_eq!(
        err.message(),
        "test:1:6 Syntax Error: Expected Identfier but got Integer(1)"
    );
    let err = parse_src("proc f in 1").unwrap_err();
    assert_eq!(
        err.message(),
        "test:1:12 Syntax Error: Expected a valid token but got EOF(\0)"
    );
}

#[test]
fn rendered_tokens_and_positions() {
    let mut lx = Lexer::new("dir/file".to_string(), "  print".to_string());
    let t = lx.next_token();
    assert_eq!(t.render(), "Identfier(print)");
    assert_eq!(t.loc.render(), "dir/file:1:3");
}

#[test]
fn body_tokens_keep_their_positions() {
    let tls = parse_src("proc main in\n  42 print\nend").unwrap();
    let TopLevel::Proc(p) = &tls[0];
    assert_eq!(p.body[0].token.loc.line, 2);
    assert_eq!(p.body[0].token.loc.col, 3);
    assert_eq!(p.body[1].token.loc.line, 2);
    assert_eq!(p.body[1].token.loc.col, 6);
}
