//! The recursive descent parser: it consumes the scanner's token stream with
//! one token of lookahead and builds the list of top-level procedure
//! declarations, or reports a structured syntax error with a position.
//!
//! The parser is specified against a mathematical model: `spec_parse` maps a
//! token stream to exactly the declarations (or the error) that `parse`
//! produces, and `Parser::remaining` ties the live parser state to the
//! stream of tokens still to come.

use vstd::prelude::*;

use crate::mylexer::{
    text_is, token_stream, Lexer, LocModel, Token, TokenKind, TokenModel,
    lemma_lexer_wf_bounds, lemma_token_stream_first, lemma_scan, scan, skip_trivia_at,
    loc_text, token_text,
};
use crate::numbers::{all_digits, digits_val, parse_dec_i64};

verus! {

// ---------------------------------------------------------------------------
// Operations and declarations
// ---------------------------------------------------------------------------

/// The built-in primitive operations of the language. Only `Plus` and
/// `Print` are reachable from the grammar so far; the rest name the intended
/// instruction set.
#[derive(Clone, Copy, Debug, PartialEq, Eq, Structural)]
pub enum Intrinsic {
    Plus,
    Minus,
    Mult,
    Divmod,
    Idivmod,
    Max,
    Eq,
    Gt,
    Lt,
    Ge,
    Le,
    Ne,
    Shr,
    Shl,
    Or,
    And,
    Not,
    Print,
    Dup,
    Swap,
    Drop,
    Over,
    Rot,
    Load8,
    Store8,
    Load16,
    Store16,
    Load32,
    Store32,
    Load64,
    Store64,
    CastPtr,
    CastInt,
    CastBool,
    CastAddr,
    Argc,
    Argv,
    Envp,
    Syscall0,
    Syscall1,
    Syscall2,
    Syscall3,
    Syscall4,
    Syscall5,
    Syscall6,
    Debug,
}

/// The kinds of operation a procedure body can hold: literal pushes,
/// intrinsics, and control-flow or binding markers. Jump-like variants carry
/// an integer payload reserved for a later resolution pass.
#[derive(Clone, Copy, Debug, PartialEq, Eq, Structural)]
pub enum OpKind {
    PushInt(i64),
    PushBool(bool),
    PushPtr(usize),
    PushAddr(usize),
    PushGlobalMem(usize),
    PushLocalMen(usize),
    PushStr(usize),
    PushCstr(usize),
    Intrinsic(Intrinsic),
    If(usize),
    IfStar(usize),
    Else(usize),
    EndIf,
    EndWhile(usize),
    PrepProc(usize),
    Ret(usize),
    Call(usize),
    Inlined(usize),
    While(usize),
    Do(usize),
    CallLike(usize),
    BindLet(usize),
    BindPeek(usize),
    UnBind(usize),
    PushBind(usize),
}

/// Model of an operation: its kind and the token it came from.
pub ghost struct OpModel {
    pub kind: OpKind,
    pub token: TokenModel,
}

/// An operation with the token it came from, kept for diagnostics.
#[derive(Clone, Debug)]
pub struct Op {
    pub kind: OpKind,
    pub token: Token,
}

impl View for Op {
    type V = OpModel;

    open spec fn view(&self) -> OpModel {
        OpModel { kind: self.kind, token: self.token@ }
    }
}

/// Model of a procedure declaration.
pub ghost struct ProcModel {
    pub name: TokenModel,
    pub ins: Seq<TokenModel>,
    pub outs: Seq<TokenModel>,
    pub body: Seq<OpModel>,
}

/// A procedure: its name token, input and output type names, and body.
#[derive(Clone, Debug)]
pub struct Proc {
    pub name: Token,
    pub ins: Vec<Token>,
    pub outs: Vec<Token>,
    pub body: Vec<Op>,
}

/// The views of a sequence of tokens.
pub open spec fn token_views(s: Seq<Token>) -> Seq<TokenModel> {
    s.map_values(|t: Token| t@)
}

/// The views of a sequence of operations.
pub open spec fn op_views(s: Seq<Op>) -> Seq<OpModel> {
    s.map_values(|o: Op| o@)
}

impl View for Proc {
    type V = ProcModel;

    open spec fn view(&self) -> ProcModel {
        ProcModel {
            name: self.name@,
            ins: token_views(self.ins@),
            outs: token_views(self.outs@),
            body: op_views(self.body@),
        }
    }
}

/// Model of a top-level declaration.
pub ghost enum TopLevelModel {
    Proc(ProcModel),
}

/// A top-level declaration; procedures are the only form so far.
#[derive(Clone, Debug)]
pub enum TopLevel {
    Proc(Proc),
}

impl View for TopLevel {
    type V = TopLevelModel;

    open spec fn view(&self) -> TopLevelModel {
        match self {
            TopLevel::Proc(p) => TopLevelModel::Proc(p@),
        }
    }
}

/// The views of a sequence of top-level declarations.
pub open spec fn top_views(s: Seq<TopLevel>) -> Seq<TopLevelModel> {
    s.map_values(|t: TopLevel| t@)
}

// ---------------------------------------------------------------------------
// Syntax errors
// ---------------------------------------------------------------------------

/// What the parser was looking for when it met an unexpected token.
#[derive(Clone, Copy, Debug, PartialEq, Eq, Structural)]
pub enum Expectation {
    /// The identifier naming a procedure, right after `proc`.
    ProcName,
    /// A signature item: a type name, the `--` separator, or a keyword
    /// closing the signature.
    SignatureItem,
    /// An output list item: a type name or the keyword `in`.
    OutputItem,
}

/// Which token kinds an expectation admits.
pub open spec fn expectation_allows(e: Expectation, k: TokenKind) -> bool {
    match e {
        Expectation::ProcName => k == TokenKind::Identfier,
        Expectation::SignatureItem => k == TokenKind::Keyword || k == TokenKind::Identfier
            || k == TokenKind::Punct,
        Expectation::OutputItem => k == TokenKind::Keyword || k == TokenKind::Identfier,
    }
}

/// Model of a syntax error.
pub ghost enum ErrModel {
    UnexpectedToken { expected: Expectation, actual: TokenModel },
    InvalidToken { token: TokenModel },
    PrematureEnd { token: TokenModel },
    InvalidLiteral { token: TokenModel },
    UnsupportedTopLevel { token: TokenModel },
    UnexpectedInProc { token: TokenModel, proc_name: TokenModel },
}

/// A structured syntax error. Every variant carries the offending token,
/// whose position locates the error in the source.
#[derive(Clone, Debug)]
pub enum ParseError {
    /// A token of the wrong kind where `expected` says what was admissible.
    UnexpectedToken { expected: Expectation, actual: Token },
    /// An invalid token: an unrecognized byte in the input.
    InvalidToken { token: Token },
    /// End of input inside an incomplete construct.
    PrematureEnd { token: Token },
    /// An integer literal outside the 64-bit signed range.
    InvalidLiteral { token: Token },
    /// A well-formed token that no top-level form starts with.
    UnsupportedTopLevel { token: Token },
    /// A token that no operation rule accepts inside a procedure body.
    UnexpectedInProc { token: Token, proc_name: Token },
}

impl View for ParseError {
    type V = ErrModel;

    open spec fn view(&self) -> ErrModel {
        match self {
            ParseError::UnexpectedToken { expected, actual } => ErrModel::UnexpectedToken {
                expected: *expected,
                actual: actual@,
            },
            ParseError::InvalidToken { token } => ErrModel::InvalidToken { token: token@ },
            ParseError::PrematureEnd { token } => ErrModel::PrematureEnd { token: token@ },
            ParseError::InvalidLiteral { token } => ErrModel::InvalidLiteral { token: token@ },
            ParseError::UnsupportedTopLevel { token } => ErrModel::UnsupportedTopLevel {
                token: token@,
            },
            ParseError::UnexpectedInProc { token, proc_name } => ErrModel::UnexpectedInProc {
                token: token@,
                proc_name: proc_name@,
            },
        }
    }
}

/// How the diagnostic writes the kinds an expectation admits.
pub open spec fn expectation_text(e: Expectation) -> Seq<char> {
    match e {
        Expectation::ProcName => "Identfier"@,
        Expectation::SignatureItem => "[Keyword, Identfier, Punct]"@,
        Expectation::OutputItem => "[Keyword, Identfier]"@,
    }
}

/// The extra word a body diagnostic uses for the offending token's class.
pub open spec fn inproc_word(k: TokenKind) -> Seq<char> {
    if k == TokenKind::Operator {
        "operator "@
    } else if k == TokenKind::Identfier {
        "identifier "@
    } else {
        ""@
    }
}

/// The diagnostic line of a syntax error: the offending token's position,
/// then the message.
pub open spec fn err_text(e: ErrModel) -> Seq<char> {
    match e {
        ErrModel::UnexpectedToken { expected, actual } => loc_text(actual.loc)
            + " Syntax Error: Expected "@ + expectation_text(expected) + " but got "@
            + token_text(actual),
        ErrModel::InvalidToken { token } => loc_text(token.loc)
            + " Syntax Error: Expected a valid token but got "@ + token_text(token),
        ErrModel::PrematureEnd { token } => loc_text(token.loc)
            + " Syntax Error: Expected a valid token but got "@ + token_text(token),
        ErrModel::InvalidLiteral { token } => loc_text(token.loc)
            + " Syntax Error: Invalid integer literal "@ + token_text(token),
        ErrModel::UnsupportedTopLevel { token } => loc_text(token.loc)
            + " Syntax Error: Unexpected "@ + token_text(token) + " at top level"@,
        ErrModel::UnexpectedInProc { token, proc_name } => loc_text(token.loc)
            + " Syntax Error: Unexpected "@ + inproc_word(token.kind) + token_text(token)
            + " in proc "@ + proc_name.text,
    }
}

impl ParseError {
    /// The diagnostic line for this error, exactly as `err_text` says.
    pub fn message(&self) -> (r: String)
        ensures
            r@ == err_text(self@),
    {
        match self {
            ParseError::UnexpectedToken { expected, actual } => {
                let mut s = actual.loc.render();
                s.append(" Syntax Error: Expected ");
                s.append(
                    match expected {
                        Expectation::ProcName => "Identfier",
                        Expectation::SignatureItem => "[Keyword, Identfier, Punct]",
                        Expectation::OutputItem => "[Keyword, Identfier]",
                    },
                );
                s.append(" but got ");
                let t = actual.render();
                s.append(t.as_str());
                s
            },
            ParseError::InvalidToken { token } => {
                let mut s = token.loc.render();
                s.append(" Syntax Error: Expected a valid token but got ");
                let t = token.render();
                s.append(t.as_str());
                s
            },
            ParseError::PrematureEnd { token } => {
                let mut s = token.loc.render();
                s.append(" Syntax Error: Expected a valid token but got ");
                let t = token.render();
                s.append(t.as_str());
                s
            },
            ParseError::InvalidLiteral { token } => {
                let mut s = token.loc.render();
                s.append(" Syntax Error: Invalid integer literal ");
                let t = token.render();
                s.append(t.as_str());
                s
            },
            ParseError::UnsupportedTopLevel { token } => {
                let mut s = token.loc.render();
                s.append(" Syntax Error: Unexpected ");
                let t = token.render();
                s.append(t.as_str());
                s.append(" at top level");
                s
            },
            ParseError::UnexpectedInProc { token, proc_name } => {
                let mut s = token.loc.render();
                s.append(" Syntax Error: Unexpected ");
                s.append(
                    match token.kind {
                        TokenKind::Operator => "operator ",
                        TokenKind::Identfier => "identifier ",
                        _ => "",
                    },
                );
                let t = token.render();
                s.append(t.as_str());
                s.append(" in proc ");
                s.append(proc_name.value.as_str());
                s
            },
        }
    }
}

// ---------------------------------------------------------------------------
// Spec model of parsing
// ---------------------------------------------------------------------------

/// Stand-in end-of-input token for the model's out-of-tokens case, which a
/// stream ending in an end-of-input token never reaches.
pub open spec fn ghost_eof() -> TokenModel {
    TokenModel {
        kind: TokenKind::EOF,
        text: "\0"@,
        loc: LocModel { file: Seq::empty(), line: 1, col: 1 },
    }
}

/// Result of parsing an output list: the outputs and the rest of the stream.
pub ghost struct OutsParts {
    pub outs: Seq<TokenModel>,
    pub rest: Seq<TokenModel>,
}

/// Result of parsing a signature: inputs, outputs, and the rest.
pub ghost struct SigParts {
    pub ins: Seq<TokenModel>,
    pub outs: Seq<TokenModel>,
    pub rest: Seq<TokenModel>,
}

/// Result of parsing a body: the operations and the rest.
pub ghost struct BodyParts {
    pub body: Seq<OpModel>,
    pub rest: Seq<TokenModel>,
}

/// Result of parsing one procedure: its model and the rest.
pub ghost struct ProcParts {
    pub proc_model: ProcModel,
    pub rest: Seq<TokenModel>,
}

/// Parse the output list after `--`: identifiers accumulate as outputs until
/// the keyword `in` closes the signature; anything else is a syntax error.
pub open spec fn spec_parse_outs(ts: Seq<TokenModel>) -> Result<OutsParts, ErrModel>
    decreases ts.len(),
{
    if ts.len() == 0 {
        Err(ErrModel::PrematureEnd { token: ghost_eof() })
    } else {
        let t = ts[0];
        if t.kind == TokenKind::Identfier {
            match spec_parse_outs(ts.skip(1)) {
                Ok(p) => Ok(OutsParts { outs: seq![t] + p.outs, rest: p.rest }),
                Err(e) => Err(e),
            }
        } else if t.kind == TokenKind::Keyword && t.text == "in"@ {
            Ok(OutsParts { outs: seq![], rest: ts.skip(1) })
        } else {
            Err(ErrModel::UnexpectedToken { expected: Expectation::OutputItem, actual: t })
        }
    }
}

/// Parse a signature: identifiers accumulate as inputs; `--` switches to the
/// output list; a bare keyword closes the signature with no outputs.
pub open spec fn spec_parse_sig(ts: Seq<TokenModel>) -> Result<SigParts, ErrModel>
    decreases ts.len(),
{
    if ts.len() == 0 {
        Err(ErrModel::PrematureEnd { token: ghost_eof() })
    } else {
        let t = ts[0];
        if t.kind == TokenKind::Identfier {
            match spec_parse_sig(ts.skip(1)) {
                Ok(p) => Ok(SigParts { ins: seq![t] + p.ins, outs: p.outs, rest: p.rest }),
                Err(e) => Err(e),
            }
        } else if t.kind == TokenKind::Punct && t.text == "--"@ {
            match spec_parse_outs(ts.skip(1)) {
                Ok(p) => Ok(SigParts { ins: seq![], outs: p.outs, rest: p.rest }),
                Err(e) => Err(e),
            }
        } else if t.kind == TokenKind::Keyword {
            Ok(SigParts { ins: seq![], outs: seq![], rest: ts.skip(1) })
        } else {
            Err(ErrModel::UnexpectedToken { expected: Expectation::SignatureItem, actual: t })
        }
    }
}

/// Parse a procedure body: integer literals that fit the 64-bit signed range
/// push their value, `+` and `print` are the wired intrinsics, and the
/// keyword `end` closes the body without being stored.
pub open spec fn spec_parse_body(ts: Seq<TokenModel>, pname: TokenModel) -> Result<
    BodyParts,
    ErrModel,
>
    decreases ts.len(),
{
    if ts.len() == 0 {
        Err(ErrModel::PrematureEnd { token: ghost_eof() })
    } else {
        let t = ts[0];
        if t.kind == TokenKind::EOF {
            Err(ErrModel::PrematureEnd { token: t })
        } else if t.kind == TokenKind::Invalid {
            Err(ErrModel::InvalidToken { token: t })
        } else if t.kind == TokenKind::Integer {
            if all_digits(t.text) && t.text.len() >= 1 && digits_val(t.text) <= i64::MAX {
                match spec_parse_body(ts.skip(1), pname) {
                    Ok(p) => Ok(
                        BodyParts {
                            body: seq![
                                OpModel {
                                    kind: OpKind::PushInt(digits_val(t.text) as i64),
                                    token: t,
                                },
                            ] + p.body,
                            rest: p.rest,
                        },
                    ),
                    Err(e) => Err(e),
                }
            } else {
                Err(ErrModel::InvalidLiteral { token: t })
            }
        } else if t.kind == TokenKind::Operator {
            if t.text == "+"@ {
                match spec_parse_body(ts.skip(1), pname) {
                    Ok(p) => Ok(
                        BodyParts {
                            body: seq![
                                OpModel { kind: OpKind::Intrinsic(Intrinsic::Plus), token: t },
                            ] + p.body,
                            rest: p.rest,
                        },
                    ),
                    Err(e) => Err(e),
                }
            } else {
                Err(ErrModel::UnexpectedInProc { token: t, proc_name: pname })
            }
        } else if t.kind == TokenKind::Identfier {
            if t.text == "print"@ {
                match spec_parse_body(ts.skip(1), pname) {
                    Ok(p) => Ok(
                        BodyParts {
                            body: seq![
                                OpModel { kind: OpKind::Intrinsic(Intrinsic::Print), token: t },
                            ] + p.body,
                            rest: p.rest,
                        },
                    ),
                    Err(e) => Err(e),
                }
            } else {
                Err(ErrModel::UnexpectedInProc { token: t, proc_name: pname })
            }
        } else if t.kind == TokenKind::Keyword && t.text == "end"@ {
            Ok(BodyParts { body: seq![], rest: ts.skip(1) })
        } else {
            Err(ErrModel::UnexpectedInProc { token: t, proc_name: pname })
        }
    }
}

/// Parse one procedure declaration after its `proc` keyword: the name, the
/// signature, then the body.
pub open spec fn spec_parse_proc(ts: Seq<TokenModel>) -> Result<ProcParts, ErrModel> {
    if ts.len() == 0 {
        Err(ErrModel::PrematureEnd { token: ghost_eof() })
    } else {
        let name = ts[0];
        if name.kind == TokenKind::Identfier {
            match spec_parse_sig(ts.skip(1)) {
                Ok(sig) => match spec_parse_body(sig.rest, name) {
                    Ok(bp) => Ok(
                        ProcParts {
                            proc_model: ProcModel {
                                name,
                                ins: sig.ins,
                                outs: sig.outs,
                                body: bp.body,
                            },
                            rest: bp.rest,
                        },
                    ),
                    Err(e) => Err(e),
                },
                Err(e) => Err(e),
            }
        } else {
            Err(ErrModel::UnexpectedToken { expected: Expectation::ProcName, actual: name })
        }
    }
}

pub proof fn lemma_spec_parse_outs_len(ts: Seq<TokenModel>)
    ensures
        spec_parse_outs(ts) matches Ok(p) ==> p.rest.len() < ts.len(),
    decreases ts.len(),
{
    if ts.len() > 0 && ts[0].kind == TokenKind::Identfier {
        lemma_spec_parse_outs_len(ts.skip(1));
    }
}

pub proof fn lemma_spec_parse_sig_len(ts: Seq<TokenModel>)
    ensures
        spec_parse_sig(ts) matches Ok(p) ==> p.rest.len() < ts.len(),
    decreases ts.len(),
{
    if ts.len() > 0 {
        if ts[0].kind == TokenKind::Identfier {
            lemma_spec_parse_sig_len(ts.skip(1));
        } else if ts[0].kind == TokenKind::Punct && ts[0].text == "--"@ {
            lemma_spec_parse_outs_len(ts.skip(1));
        }
    }
}

pub proof fn lemma_spec_parse_body_len(ts: Seq<TokenModel>, pname: TokenModel)
    ensures
        spec_parse_body(ts, pname) matches Ok(p) ==> p.rest.len() < ts.len(),
    decreases ts.len(),
{
    if ts.len() > 0 {
        lemma_spec_parse_body_len(ts.skip(1), pname);
    }
}

pub proof fn lemma_spec_parse_proc_len(ts: Seq<TokenModel>)
    ensures
        spec_parse_proc(ts) matches Ok(p) ==> p.rest.len() < ts.len(),
{
    if ts.len() > 0 && ts[0].kind == TokenKind::Identfier {
        lemma_spec_parse_sig_len(ts.skip(1));
        let s = spec_parse_sig(ts.skip(1));
        if s is Ok {
            lemma_spec_parse_body_len(s->Ok_0.rest, ts[0]);
        }
    }
}

/// Parse a whole stream of top-level declarations: `proc` opens a procedure;
/// the end-of-input token closes the list cleanly; an invalid token or any
/// other token is an error.
pub open spec fn spec_parse(ts: Seq<TokenModel>) -> Result<Seq<TopLevelModel>, ErrModel>
    decreases ts.len(),
{
    if ts.len() == 0 {
        Ok(seq![])
    } else {
        let t = ts[0];
        if t.kind == TokenKind::EOF {
            Ok(seq![])
        } else if t.kind == TokenKind::Invalid {
            Err(ErrModel::InvalidToken { token: t })
        } else if t.kind == TokenKind::Keyword && t.text == "proc"@ {
            match spec_parse_proc(ts.skip(1)) {
                Ok(p) => {
                    proof {
                        lemma_spec_parse_proc_len(ts.skip(1));
                    }
                    match spec_parse(p.rest) {
                        Ok(more) => Ok(seq![TopLevelModel::Proc(p.proc_model)] + more),
                        Err(e) => Err(e),
                    }
                },
                Err(e) => Err(e),
            }
        } else {
            Err(ErrModel::UnsupportedTopLevel { token: t })
        }
    }
}

// ---------------------------------------------------------------------------
// The parser
// ---------------------------------------------------------------------------

/// The parser owns its scanner, at most one token of lookahead, and the
/// declarations assembled so far. One call of `parse` drains the stream.
pub struct Parser {
    lex: Lexer,
    peeked: Option<Token>,
    tpls: Vec<TopLevel>,
}

impl Parser {
    /// The tokens still to be consumed, starting with the lookahead if one
    /// is held. A held end-of-input token is the whole rest of the stream.
    pub closed spec fn remaining(self) -> Seq<TokenModel> {
        match self.peeked {
            Some(t) => if t@.kind == TokenKind::EOF {
                seq![t@]
            } else {
                seq![t@] + token_stream(
                    self.lex.bytes(),
                    self.lex.loc_now(),
                    self.lex.cursor() as nat,
                )
            },
            None => token_stream(self.lex.bytes(), self.lex.loc_now(), self.lex.cursor() as nat),
        }
    }

    /// The declarations assembled so far.
    pub closed spec fn decls(self) -> Seq<TopLevelModel> {
        top_views(self.tpls@)
    }

    /// Well-formed parser: the scanner is well-formed, and a held
    /// end-of-input token agrees with the scanner's own stream.
    pub closed spec fn wf(self) -> bool {
        &&& self.lex.wf()
        &&& match self.peeked {
            Some(t) => t@.kind == TokenKind::EOF ==> token_stream(
                self.lex.bytes(),
                self.lex.loc_now(),
                self.lex.cursor() as nat,
            ) == seq![t@],
            None => true,
        }
    }

    pub fn new(lex: Lexer) -> (p: Parser)
        requires
            lex.wf(),
        ensures
            p.wf(),
            p.remaining() == token_stream(lex.bytes(), lex.loc_now(), lex.cursor() as nat),
            p.decls() == Seq::<TopLevelModel>::empty(),
    {
        let p = Parser { tpls: Vec::new(), lex, peeked: None };
        proof {
            assert(p.decls() =~= Seq::<TopLevelModel>::empty());
        }
        p
    }

    /// Take the next token: the lookahead if one is held, else one pulled
    /// from the scanner. At end of input the stream does not shrink.
    fn next(&mut self) -> (t: Token)
        requires
            old(self).wf(),
        ensures
            final(self).wf(),
            final(self).tpls@ == old(self).tpls@,
            final(self).peeked is None,
            t@ == old(self).remaining()[0],
            t@.kind == TokenKind::EOF ==> final(self).remaining() == old(self).remaining(),
            t@.kind != TokenKind::EOF ==> final(self).remaining() == old(self).remaining().skip(1),
    {
        let ghost d = self.lex.bytes();
        let ghost l0 = self.lex.loc_now();
        let ghost p0 = self.lex.cursor() as nat;
        let took = self.peeked.take();
        match took {
            Some(t) => {
                proof {
                    lemma_token_stream_first(d, l0, p0);
                    if t@.kind != TokenKind::EOF {
                        assert((seq![t@] + token_stream(d, l0, p0)).skip(1) =~= token_stream(
                            d,
                            l0,
                            p0,
                        ));
                    }
                }
                t
            },
            None => {
                let t = self.lex.next_token();
                proof {
                    lemma_lexer_wf_bounds(old(self).lex);
                    lemma_scan(d, p0);
                    lemma_token_stream_first(d, l0, p0);
                    let sr = scan(d, p0);
                    if sr.kind == TokenKind::EOF {
                        assert(skip_trivia_at(d, self.lex.cursor() as nat, false)
                            == self.lex.cursor() as nat);
                        lemma_token_stream_first(
                            d,
                            self.lex.loc_now(),
                            self.lex.cursor() as nat,
                        );
                    }
                }
                t
            },
        }
    }

    /// Look at the next token without consuming it.
    fn peek(&mut self) -> (t: &Token)
        requires
            old(self).wf(),
        ensures
            final(self).wf(),
            final(self).tpls@ == old(self).tpls@,
            final(self).remaining() == old(self).remaining(),
            t@ == old(self).remaining()[0],
    {
        if self.peeked.is_none() {
            let ghost pre = *self;
            let t = self.next();
            proof {
                if t@.kind != TokenKind::EOF {
                    assert(seq![t@] + pre.remaining().skip(1) =~= pre.remaining());
                }
            }
            self.peeked = Some(t);
        }
        self.peeked.as_ref().unwrap()
    }

    /// Pull a token and demand that it is a real one: end of input and
    /// invalid tokens become the corresponding errors.
    fn require_valid(&mut self) -> (r: Result<Token, ParseError>)
        requires
            old(self).wf(),
        ensures
            final(self).wf(),
            final(self).tpls@ == old(self).tpls@,
            ({
                let t = old(self).remaining()[0];
                match r {
                    Ok(tok) => tok@ == t && t.kind != TokenKind::EOF && t.kind
                        != TokenKind::Invalid && final(self).remaining() == old(self).remaining().skip(1),
                    Err(e) => (t.kind == TokenKind::EOF && e@ == (ErrModel::PrematureEnd {
                        token: t,
                    }) && final(self).remaining() == old(self).remaining()) || (t.kind
                        == TokenKind::Invalid && e@ == (ErrModel::InvalidToken { token: t })
                        && final(self).remaining() == old(self).remaining().skip(1)),
                }
            }),
    {
        let token = self.next();
        match token.kind {
            TokenKind::EOF => Err(ParseError::PrematureEnd { token }),
            TokenKind::Invalid => Err(ParseError::InvalidToken { token }),
            _ => Ok(token),
        }
    }

    /// Pull a token and demand one of the kinds the expectation admits;
    /// anything else is an unexpected-token error.
    fn expect(&mut self, what: Expectation) -> (r: Result<Token, ParseError>)
        requires
            old(self).wf(),
        ensures
            final(self).wf(),
            final(self).tpls@ == old(self).tpls@,
            ({
                let t = old(self).remaining()[0];
                &&& (expectation_allows(what, t.kind) ==> (r matches Ok(tok) && tok@ == t && final(self).remaining() == old(self).remaining().skip(1)))
                &&& (!expectation_allows(what, t.kind) ==> (r matches Err(e) && e@ == (
                ErrModel::UnexpectedToken { expected: what, actual: t })))
            }),
    {
        let token = self.next();
        let allowed = match what {
            Expectation::ProcName => matches!(token.kind, TokenKind::Identfier),
            Expectation::SignatureItem => matches!(
                token.kind,
                TokenKind::Keyword | TokenKind::Identfier | TokenKind::Punct
            ),
            Expectation::OutputItem => matches!(
                token.kind,
                TokenKind::Keyword | TokenKind::Identfier
            ),
        };
        if allowed {
            Ok(token)
        } else {
            Err(ParseError::UnexpectedToken { expected: what, actual: token })
        }
    }

    /// Parse the output list after `--`, as `spec_parse_outs` says.
    fn parse_outs(&mut self) -> (r: Result<Vec<Token>, ParseError>)
        requires
            old(self).wf(),
        ensures
            final(self).wf(),
            final(self).tpls@ == old(self).tpls@,
            ({
                match spec_parse_outs(old(self).remaining()) {
                    Ok(p) => r matches Ok(v) && token_views(v@) == p.outs && final(self).remaining() == p.rest,
                    Err(e) => r matches Err(pe) && pe@ == e,
                }
            }),
        decreases old(self).remaining().len(),
    {
        proof {
            lemma_remaining_nonempty(*old(self));
        }
        let tok = match self.expect(Expectation::OutputItem) {
            Ok(t) => t,
            Err(e) => {
                return Err(e);
            },
        };
        match tok.kind {
            TokenKind::Identfier => {
                let mut outs = match self.parse_outs() {
                    Ok(v) => v,
                    Err(e) => {
                        return Err(e);
                    },
                };
                let ghost pre = outs@;
                outs.insert(0, tok);
                proof {
                    let rem = old(self).remaining();
                    let pr = spec_parse_outs(rem.skip(1));
                    assert(pr is Ok);
                    assert(token_views(pre) == pr->Ok_0.outs);
                    assert(outs@ == pre.insert(0, tok));
                    assert(token_views(outs@) =~= seq![tok@] + token_views(pre));
                    assert(spec_parse_outs(rem) is Ok);
                    assert(spec_parse_outs(rem)->Ok_0.outs == seq![tok@] + pr->Ok_0.outs);
                }
                Ok(outs)
            },
            _ => {
                // A keyword: `in` closes the list, any other keyword cannot
                // legally appear here.
                if text_is(&tok.value, "in") {
                    Ok(Vec::new())
                } else {
                    Err(ParseError::UnexpectedToken {
                        expected: Expectation::OutputItem,
                        actual: tok,
                    })
                }
            },
        }
    }

    /// Parse a procedure signature, as `spec_parse_sig` says.
    fn parse_sig(&mut self) -> (r: Result<(Vec<Token>, Vec<Token>), ParseError>)
        requires
            old(self).wf(),
        ensures
            final(self).wf(),
            final(self).tpls@ == old(self).tpls@,
            ({
                match spec_parse_sig(old(self).remaining()) {
                    Ok(p) => r matches Ok(v) && token_views(v.0@) == p.ins && token_views(v.1@)
                        == p.outs && final(self).remaining() == p.rest,
                    Err(e) => r matches Err(pe) && pe@ == e,
                }
            }),
        decreases old(self).remaining().len(),
    {
        proof {
            lemma_remaining_nonempty(*old(self));
        }
        let tok = match self.expect(Expectation::SignatureItem) {
            Ok(t) => t,
            Err(e) => {
                return Err(e);
            },
        };
        match tok.kind {
            TokenKind::Identfier => {
                let (mut ins, outs) = match self.parse_sig() {
                    Ok(v) => v,
                    Err(e) => {
                        return Err(e);
                    },
                };
                let ghost pre = ins@;
                ins.insert(0, tok);
                proof {
                    let rem = old(self).remaining();
                    let pr = spec_parse_sig(rem.skip(1));
                    assert(pr is Ok);
                    assert(token_views(pre) == pr->Ok_0.ins);
                    assert(token_views(ins@) =~= seq![tok@] + token_views(pre));
                    assert(spec_parse_sig(rem) is Ok);
                    assert(spec_parse_sig(rem)->Ok_0.ins == seq![tok@] + pr->Ok_0.ins);
                }
                Ok((ins, outs))
            },
            TokenKind::Punct => {
                if text_is(&tok.value, "--") {
                    let outs = match self.parse_outs() {
                        Ok(v) => v,
                        Err(e) => {
                            return Err(e);
                        },
                    };
                    Ok((Vec::new(), outs))
                } else {
                    Err(ParseError::UnexpectedToken {
                        expected: Expectation::SignatureItem,
                        actual: tok,
                    })
                }
            },
            _ => {
                // A keyword closes the signature with no outputs declared.
                Ok((Vec::new(), Vec::new()))
            },
        }
    }

    /// Parse a procedure body, as `spec_parse_body` says. `pname` is the
    /// procedure's name token, cited by body errors.
    fn parse_body(&mut self, pname: &Token) -> (r: Result<Vec<Op>, ParseError>)
        requires
            old(self).wf(),
        ensures
            final(self).wf(),
            final(self).tpls@ == old(self).tpls@,
            ({
                match spec_parse_body(old(self).remaining(), pname@) {
                    Ok(p) => r matches Ok(v) && op_views(v@) == p.body && final(self).remaining()
                        == p.rest,
                    Err(e) => r matches Err(pe) && pe@ == e,
                }
            }),
        decreases old(self).remaining().len(),
    {
        proof {
            lemma_remaining_nonempty(*old(self));
        }
        let token = match self.require_valid() {
            Ok(t) => t,
            Err(e) => {
                return Err(e);
            },
        };
        match token.kind {
            TokenKind::Integer => {
                match parse_dec_i64(token.val()) {
                    Some(value) => {
                        let op = Op { kind: OpKind::PushInt(value), token };
                        let mut body = match self.parse_body(pname) {
                            Ok(v) => v,
                            Err(e) => {
                                return Err(e);
                            },
                        };
                        let ghost pre = body@;
                        body.insert(0, op);
                        proof {
                            let rem = old(self).remaining();
                            let pr = spec_parse_body(rem.skip(1), pname@);
                            assert(pr is Ok);
                            assert(op_views(pre) == pr->Ok_0.body);
                            assert(op_views(body@) =~= seq![op@] + op_views(pre));
                            assert(spec_parse_body(rem, pname@) is Ok);
                            assert(spec_parse_body(rem, pname@)->Ok_0.body == seq![op@] + pr->Ok_0.body);
                        }
                        Ok(body)
                    },
                    None => Err(ParseError::InvalidLiteral { token }),
                }
            },
            TokenKind::Operator => {
                if text_is(&token.value, "+") {
                    let op = Op { kind: OpKind::Intrinsic(Intrinsic::Plus), token };
                    let mut body = match self.parse_body(pname) {
                        Ok(v) => v,
                        Err(e) => {
                            return Err(e);
                        },
                    };
                    let ghost pre = body@;
                    body.insert(0, op);
                    proof {
                        let rem = old(self).remaining();
                        let pr = spec_parse_body(rem.skip(1), pname@);
                        assert(pr is Ok);
                        assert(op_views(pre) == pr->Ok_0.body);
                        assert(op_views(body@) =~= seq![op@] + op_views(pre));
                        assert(spec_parse_body(rem, pname@) is Ok);
                        assert(spec_parse_body(rem, pname@)->Ok_0.body == seq![op@] + pr->Ok_0.body);
                    }
                    Ok(body)
                } else {
                    Err(ParseError::UnexpectedInProc { token, proc_name: pname.clone() })
                }
            },
            TokenKind::Identfier => {
                if text_is(&token.value, "print") {
                    let op = Op { kind: OpKind::Intrinsic(Intrinsic::Print), token };
                    let mut body = match self.parse_body(pname) {
                        Ok(v) => v,
                        Err(e) => {
                            return Err(e);
                        },
                    };
                    let ghost pre = body@;
                    body.insert(0, op);
                    proof {
                        let rem = old(self).remaining();
                        let pr = spec_parse_body(rem.skip(1), pname@);
                        assert(pr is Ok);
                        assert(op_views(pre) == pr->Ok_0.body);
                        assert(op_views(body@) =~= seq![op@] + op_views(pre));
                        assert(spec_parse_body(rem, pname@) is Ok);
                        assert(spec_parse_body(rem, pname@)->Ok_0.body == seq![op@] + pr->Ok_0.body);
                    }
                    Ok(body)
                } else {
                    Err(ParseError::UnexpectedInProc { token, proc_name: pname.clone() })
                }
            },
            TokenKind::Keyword => {
                if text_is(&token.value, "end") {
                    Ok(Vec::new())
                } else {
                    Err(ParseError::UnexpectedInProc { token, proc_name: pname.clone() })
                }
            },
            _ => Err(ParseError::UnexpectedInProc { token, proc_name: pname.clone() }),
        }
    }

    /// Parse one procedure declaration (the `proc` keyword already consumed)
    /// and append it to the assembled declarations, as `spec_parse_proc`
    /// says.
    pub fn parse_proc(&mut self) -> (r: Result<(), ParseError>)
        requires
            old(self).wf(),
        ensures
            final(self).wf(),
            ({
                match spec_parse_proc(old(self).remaining()) {
                    Ok(p) => r matches Ok(()) && final(self).decls() == old(self).decls().push(
                        TopLevelModel::Proc(p.proc_model),
                    ) && final(self).remaining() == p.rest,
                    Err(e) => r matches Err(pe) && pe@ == e && final(self).decls() == old(self).decls(),
                }
            }),
    {
        proof {
            lemma_remaining_nonempty(*old(self));
        }
        let name = match self.expect(Expectation::ProcName) {
            Ok(t) => t,
            Err(e) => {
                return Err(e);
            },
        };
        let (ins, outs) = match self.parse_sig() {
            Ok(v) => v,
            Err(e) => {
                return Err(e);
            },
        };
        let body = match self.parse_body(&name) {
            Ok(v) => v,
            Err(e) => {
                return Err(e);
            },
        };
        let ghost before = self.tpls@;
        self.tpls.push(TopLevel::Proc(Proc { name, ins, outs, body }));
        proof {
            assert(top_views(self.tpls@) =~= top_views(before).push(self.tpls@.last()@));
        }
        Ok(())
    }

    /// Parse the whole stream into top-level declarations, as `spec_parse`
    /// says: the declarations assembled so far come first, and the parser is
    /// left drained on success.
    pub fn parse(&mut self) -> (r: Result<Vec<TopLevel>, ParseError>)
        requires
            old(self).wf(),
        ensures
            final(self).wf(),
            ({
                match spec_parse(old(self).remaining()) {
                    Ok(decls) => r matches Ok(v) && top_views(v@) == old(self).decls() + decls,
                    Err(e) => r matches Err(pe) && pe@ == e,
                }
            }),
    {
        let ghost ts0 = self.remaining();
        let ghost tv0 = top_views(self.tpls@);
        proof {
            assert(tv0.skip(tv0.len() as int) =~= Seq::<TopLevelModel>::empty());
            if spec_parse(ts0) is Ok {
                let more = spec_parse(ts0)->Ok_0;
                assert(tv0.skip(tv0.len() as int) + more =~= more);
            }
            assert(tv0.subrange(0, tv0.len() as int) =~= tv0);
        }
        loop
            invariant
                self.wf(),
                ts0 == old(self).remaining(),
                tv0 == old(self).decls(),
                tv0.len() <= top_views(self.tpls@).len(),
                top_views(self.tpls@).subrange(0, tv0.len() as int) == tv0,
                ({
                    let done = top_views(self.tpls@).skip(tv0.len() as int);
                    match spec_parse(self.remaining()) {
                        Ok(more) => spec_parse(ts0) == Ok::<Seq<TopLevelModel>, ErrModel>(
                            done + more,
                        ),
                        Err(e) => spec_parse(ts0) == Err::<Seq<TopLevelModel>, ErrModel>(e),
                    }
                }),
            decreases self.remaining().len(),
        {
            proof {
                lemma_remaining_nonempty(*self);
            }
            let ghost rem = self.remaining();
            let ghost done_pre = top_views(self.tpls@).skip(tv0.len() as int);
            let token = match self.require_valid() {
                Ok(t) => t,
                Err(e) => {
                    match e {
                        ParseError::PrematureEnd { token: _ } => {
                            // End of input: the top-level list ends cleanly.
                            let mut out: Vec<TopLevel> = Vec::new();
                            core::mem::swap(&mut out, &mut self.tpls);
                            proof {
                                assert(rem[0].kind == TokenKind::EOF);
                                assert(spec_parse(rem) == Ok::<Seq<TopLevelModel>, ErrModel>(
                                    seq![],
                                ));
                                assert(done_pre + Seq::<TopLevelModel>::empty() =~= done_pre);
                                assert(spec_parse(ts0) == Ok::<Seq<TopLevelModel>, ErrModel>(
                                    done_pre,
                                ));
                                assert(top_views(out@) =~= top_views(out@).subrange(
                                    0,
                                    tv0.len() as int,
                                ) + top_views(out@).skip(tv0.len() as int));
                                assert(top_views(out@) == tv0 + done_pre);
                            }
                            return Ok(out);
                        },
                        _ => {
                            proof {
                                assert(rem[0].kind == TokenKind::Invalid);
                                assert(spec_parse(rem) == Err::<Seq<TopLevelModel>, ErrModel>(
                                    ErrModel::InvalidToken { token: rem[0] },
                                ));
                            }
                            return Err(e);
                        },
                    }
                },
            };
            if token.kind == TokenKind::Keyword && text_is(&token.value, "proc") {
                proof {
                    assert(rem[0].kind == TokenKind::Keyword && rem[0].text == "proc"@);
                }
                match self.parse_proc() {
                    Ok(_) => {
                        proof {
                            assert(spec_parse_proc(rem.skip(1)) is Ok);
                            lemma_spec_parse_proc_len(rem.skip(1));
                            let p = spec_parse_proc(rem.skip(1))->Ok_0;
                            let done = top_views(self.tpls@).skip(tv0.len() as int);
                            assert(done =~= done_pre.push(TopLevelModel::Proc(p.proc_model)));
                            assert(top_views(self.tpls@).subrange(0, tv0.len() as int) =~= tv0);
                            if spec_parse(p.rest) is Ok {
                                let more = spec_parse(p.rest)->Ok_0;
                                assert(done_pre + (seq![TopLevelModel::Proc(p.proc_model)] + more)
                                    =~= done + more);
                            }
                        }
                    },
                    Err(e) => {
                        proof {
                            assert(spec_parse_proc(rem.skip(1)) is Err);
                            assert(spec_parse(rem) == Err::<Seq<TopLevelModel>, ErrModel>(
                                spec_parse_proc(rem.skip(1))->Err_0,
                            ));
                        }
                        return Err(e);
                    },
                }
            } else {
                proof {
                    assert(token@ == rem[0]);
                    assert(!(rem[0].kind == TokenKind::Keyword && rem[0].text == "proc"@));
                    assert(spec_parse(rem) == Err::<Seq<TopLevelModel>, ErrModel>(
                        ErrModel::UnsupportedTopLevel { token: rem[0] },
                    ));
                }
                return Err(ParseError::UnsupportedTopLevel { token });
            }
        }
    }
}

/// The stream a well-formed parser still holds is never empty: it always
/// ends with the end-of-input token.
pub proof fn lemma_remaining_nonempty(p: Parser)
    requires
        p.wf(),
    ensures
        p.remaining().len() >= 1,
{
    lemma_token_stream_first(p.lex.bytes(), p.lex.loc_now(), p.lex.cursor() as nat);
}

} // verus!
