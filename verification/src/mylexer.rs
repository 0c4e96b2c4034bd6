//! Lexical analysis: byte classification, source positions (`Loc`), tokens,
//! and the pull-based scanner (`Lexer`) that produces one token per call.
//!
//! The whole scanner is specified against a mathematical model: `scan` says
//! which token starts at a given byte offset, `loc_after_range` says how the
//! source position advances over a range of consumed bytes, and
//! `token_stream` gives the full sequence of tokens from an offset onward.

use vstd::prelude::*;

use crate::numbers::{dec_digits, dec_string};

verus! {

// ---------------------------------------------------------------------------
// Byte classification
// ---------------------------------------------------------------------------

/// ASCII whitespace: space, tab, line feed, form feed, carriage return.
pub open spec fn is_ws_byte(b: u8) -> bool {
    b == 32 || b == 9 || b == 10 || b == 12 || b == 13
}

/// Bytes that start or continue an identifier: ASCII letters and `_`.
pub open spec fn is_name_byte(b: u8) -> bool {
    (97 <= b && b <= 122) || (65 <= b && b <= 90) || b == 95
}

/// ASCII decimal digits.
pub open spec fn is_digit_byte(b: u8) -> bool {
    48 <= b && b <= 57
}

/// Control bytes have no visual width and do not move the column. These are
/// exactly the bytes whose one-byte code points are Unicode control
/// characters: C0 controls, delete, and C1 controls.
pub open spec fn is_control_byte(b: u8) -> bool {
    b < 32 || (127 <= b && b <= 159)
}

fn ws_byte(b: u8) -> (r: bool)
    ensures
        r == is_ws_byte(b),
{
    b == 32 || b == 9 || b == 10 || b == 12 || b == 13
}

fn name_byte(b: u8) -> (r: bool)
    ensures
        r == is_name_byte(b),
{
    (97 <= b && b <= 122) || (65 <= b && b <= 90) || b == 95
}

fn digit_byte(b: u8) -> (r: bool)
    ensures
        r == is_digit_byte(b),
{
    48 <= b && b <= 57
}

// ---------------------------------------------------------------------------
// Source positions
// ---------------------------------------------------------------------------

/// Mathematical model of a source position.
pub ghost struct LocModel {
    pub file: Seq<char>,
    pub line: int,
    pub col: int,
}

/// How a position advances over one consumed byte: a line feed starts a new
/// line at column 1, a tab moves the column up to the next multiple of the
/// tab stop (8), other control bytes have no width, and any other byte
/// advances the column by one.
pub open spec fn loc_after_byte(l: LocModel, b: u8) -> LocModel {
    if b == 10 {
        LocModel { file: l.file, line: l.line + 1, col: 1 }
    } else if b == 9 {
        LocModel { file: l.file, line: l.line, col: (l.col / 8) * 8 + 8 }
    } else if is_control_byte(b) {
        l
    } else {
        LocModel { file: l.file, line: l.line, col: l.col + 1 }
    }
}

/// The position after consuming the bytes `d[from..to]`, starting from `l`.
pub open spec fn loc_after_range(l: LocModel, d: Seq<u8>, from: int, to: int) -> LocModel
    decreases to - from,
{
    if from < to {
        loc_after_range(loc_after_byte(l, d[from]), d, from + 1, to)
    } else {
        l
    }
}

/// Consuming one more byte extends the range on the right.
pub proof fn lemma_loc_range_snoc(l: LocModel, d: Seq<u8>, from: int, to: int)
    requires
        from <= to,
    ensures
        loc_after_range(l, d, from, to + 1) == loc_after_byte(loc_after_range(l, d, from, to), d[to]),
    decreases to - from,
{
    reveal_with_fuel(loc_after_range, 2);
    if from < to {
        lemma_loc_range_snoc(loc_after_byte(l, d[from]), d, from + 1, to);
    }
}

/// Position tracking composes over adjacent ranges.
pub proof fn lemma_loc_range_concat(l: LocModel, d: Seq<u8>, a: int, b: int, c: int)
    requires
        a <= b <= c,
    ensures
        loc_after_range(l, d, a, c) == loc_after_range(loc_after_range(l, d, a, b), d, b, c),
    decreases b - a,
{
    if a < b {
        lemma_loc_range_concat(loc_after_byte(l, d[a]), d, a + 1, b, c);
    }
}

/// A position: file name plus 1-based line and column.
#[derive(Debug)]
pub struct Loc {
    pub file_path: String,
    pub line: usize,
    pub col: usize,
}

impl View for Loc {
    type V = LocModel;

    open spec fn view(&self) -> LocModel {
        LocModel { file: self.file_path@, line: self.line as int, col: self.col as int }
    }
}

impl Clone for Loc {
    fn clone(&self) -> (r: Self)
        ensures
            r == *self,
    {
        Loc { file_path: self.file_path.clone(), line: self.line, col: self.col }
    }
}

impl Loc {
    pub fn new(file_path: String, line: usize, col: usize) -> (r: Self)
        ensures
            r@ == (LocModel { file: file_path@, line: line as int, col: col as int }),
    {
        Loc { file_path, line, col }
    }

    pub fn next_column(&mut self)
        requires
            old(self)@.col < usize::MAX,
        ensures
            final(self)@ == (LocModel { file: old(self)@.file, line: old(self)@.line, col: old(self)@.col + 1 }),
    {
        self.col = self.col + 1;
    }

    pub fn next_line(&mut self)
        requires
            old(self)@.line < usize::MAX,
        ensures
            final(self)@ == (LocModel { file: old(self)@.file, line: old(self)@.line + 1, col: 1 }),
    {
        self.line = self.line + 1;
        self.col = 1;
    }

    /// This position as `file:line:column`, exactly as `loc_text` says.
    pub fn render(&self) -> (r: String)
        ensures
            r@ == loc_text(self@),
    {
        let mut s = self.file_path.clone();
        s.append(":");
        let line = dec_string(self.line as u64);
        s.append(line.as_str());
        s.append(":");
        let col = dec_string(self.col as u64);
        s.append(col.as_str());
        s
    }

    /// Advance this position over the consumed byte `c`.
    pub fn next(&mut self, c: u8)
        requires
            old(self)@.col + 8 <= usize::MAX,
            old(self)@.line < usize::MAX,
        ensures
            final(self)@ == loc_after_byte(old(self)@, c),
    {
        if c == 10 {
            self.next_line();
        } else if c == 9 {
            assert(self.col / 8 * 8 <= self.col) by (nonlinear_arith);
            self.col = (self.col / 8) * 8 + 8;
        } else if c < 32 || (127 <= c && c <= 159) {
        } else {
            self.next_column();
        }
    }
}

// ---------------------------------------------------------------------------
// Spec model of scanning
// ---------------------------------------------------------------------------

/// Each byte of a run read as one character.
pub open spec fn chars_of(s: Seq<u8>) -> Seq<char> {
    s.map_values(|b: u8| b as char)
}

/// Where skipping whitespace and line comments ends, starting at offset `p`.
/// `in_comment` is true while inside a line comment: a comment runs until a
/// line feed (left for the whitespace rule to consume) or end of input.
/// Outside a comment, whitespace is consumed and `//` opens a comment;
/// skipping stops at the first byte that does neither.
pub open spec fn skip_trivia_at(d: Seq<u8>, p: nat, in_comment: bool) -> nat
    decreases d.len() - p, (if in_comment { 1int } else { 0int }),
{
    if in_comment {
        if p >= d.len() {
            p
        } else if d[p as int] == 10 {
            skip_trivia_at(d, p, false)
        } else {
            skip_trivia_at(d, p + 1, true)
        }
    } else {
        if p < d.len() && is_ws_byte(d[p as int]) {
            skip_trivia_at(d, p + 1, false)
        } else if p + 1 < d.len() && d[p as int] == 47 && d[p + 1 as int] == 47 {
            skip_trivia_at(d, p + 2, true)
        } else {
            p
        }
    }
}

/// Offset of the first byte after `p` that belongs to a token.
pub open spec fn skip_trivia(d: Seq<u8>, p: nat) -> nat {
    skip_trivia_at(d, p, false)
}

pub proof fn lemma_skip_trivia_bounds(d: Seq<u8>, p: nat, in_comment: bool)
    requires
        p <= d.len(),
    ensures
        p <= skip_trivia_at(d, p, in_comment) <= d.len(),
    decreases d.len() - p, (if in_comment { 1int } else { 0int }),
{
    if in_comment {
        if p >= d.len() {
        } else if d[p as int] == 10 {
            lemma_skip_trivia_bounds(d, p, false);
        } else {
            lemma_skip_trivia_bounds(d, p + 1, true);
        }
    } else {
        if p < d.len() && is_ws_byte(d[p as int]) {
            lemma_skip_trivia_bounds(d, p + 1, false);
        } else if p + 1 < d.len() && d[p as int] == 47 && d[p + 1 as int] == 47 {
            lemma_skip_trivia_bounds(d, p + 2, true);
        }
    }
}

/// End of the maximal run of identifier bytes starting at `p`.
pub open spec fn name_end(d: Seq<u8>, p: nat) -> nat
    decreases d.len() - p,
{
    if p < d.len() && is_name_byte(d[p as int]) {
        name_end(d, p + 1)
    } else {
        p
    }
}

/// End of the maximal run of digit bytes starting at `p`.
pub open spec fn digit_end(d: Seq<u8>, p: nat) -> nat
    decreases d.len() - p,
{
    if p < d.len() && is_digit_byte(d[p as int]) {
        digit_end(d, p + 1)
    } else {
        p
    }
}

/// The identifier run is within bounds, consists of identifier bytes, and is
/// maximal.
pub proof fn lemma_name_end(d: Seq<u8>, p: nat)
    requires
        p <= d.len(),
    ensures
        p <= name_end(d, p) <= d.len(),
        forall|i: int| p <= i < name_end(d, p) ==> is_name_byte(d[i]),
        name_end(d, p) < d.len() ==> !is_name_byte(d[name_end(d, p) as int]),
    decreases d.len() - p,
{
    if p < d.len() && is_name_byte(d[p as int]) {
        lemma_name_end(d, p + 1);
    }
}

/// The digit run is within bounds, consists of digit bytes, and is maximal.
pub proof fn lemma_digit_end(d: Seq<u8>, p: nat)
    requires
        p <= d.len(),
    ensures
        p <= digit_end(d, p) <= d.len(),
        forall|i: int| p <= i < digit_end(d, p) ==> is_digit_byte(d[i]),
        digit_end(d, p) < d.len() ==> !is_digit_byte(d[digit_end(d, p) as int]),
    decreases d.len() - p,
{
    if p < d.len() && is_digit_byte(d[p as int]) {
        lemma_digit_end(d, p + 1);
    }
}

/// The reserved words of the language.
pub open spec fn is_keyword(text: Seq<char>) -> bool {
    text == "proc"@ || text == "in"@ || text == "end"@
}

// ---------------------------------------------------------------------------
// Tokens
// ---------------------------------------------------------------------------

/// The closed set of token classes. The two string kinds are reserved and
/// never produced by the current scanning rules.
#[derive(Clone, Copy, Debug, PartialEq, Eq, Structural)]
pub enum TokenKind {
    Invalid,
    EOF,
    Integer,
    Identfier,
    Keyword,
    Operator,
    Punct,
    DQString,
    SQString,
}

/// Mathematical model of a token: its class, its text, and the position of
/// its first byte.
pub ghost struct TokenModel {
    pub kind: TokenKind,
    pub text: Seq<char>,
    pub loc: LocModel,
}

/// A token: kind, literal text, and the position where it started.
#[derive(Debug)]
pub struct Token {
    pub kind: TokenKind,
    pub value: String,
    pub loc: Loc,
}

impl View for Token {
    type V = TokenModel;

    open spec fn view(&self) -> TokenModel {
        TokenModel { kind: self.kind, text: self.value@, loc: self.loc@ }
    }
}

impl Clone for Token {
    fn clone(&self) -> (r: Self)
        ensures
            r == *self,
    {
        Token { kind: self.kind, value: self.value.clone(), loc: self.loc.clone() }
    }
}

impl Token {
    /// The end-of-input token: a NUL text at the given position.
    pub fn eof(loc: Loc) -> (t: Self)
        ensures
            t@ == (TokenModel { kind: TokenKind::EOF, text: "\0"@, loc: loc@ }),
    {
        Token { kind: TokenKind::EOF, value: String::from_str("\0"), loc }
    }

    pub fn val(&self) -> (r: &str)
        ensures
            r@ == self@.text,
    {
        self.value.as_str()
    }

    /// This token as `Kind(text)`, exactly as `token_text` says.
    pub fn render(&self) -> (r: String)
        ensures
            r@ == token_text(self@),
    {
        let mut s = String::from_str(
            match self.kind {
                TokenKind::Invalid => "Invalid",
                TokenKind::EOF => "EOF",
                TokenKind::Integer => "Integer",
                TokenKind::Identfier => "Identfier",
                TokenKind::Keyword => "Keyword",
                TokenKind::Operator => "Operator",
                TokenKind::Punct => "Punct",
                TokenKind::DQString => "DQString",
                TokenKind::SQString => "SQString",
            },
        );
        s.append("(");
        s.append(self.value.as_str());
        s.append(")");
        s
    }
}

/// The printed name of a token class.
pub open spec fn kind_text(k: TokenKind) -> Seq<char> {
    match k {
        TokenKind::Invalid => "Invalid"@,
        TokenKind::EOF => "EOF"@,
        TokenKind::Integer => "Integer"@,
        TokenKind::Identfier => "Identfier"@,
        TokenKind::Keyword => "Keyword"@,
        TokenKind::Operator => "Operator"@,
        TokenKind::Punct => "Punct"@,
        TokenKind::DQString => "DQString"@,
        TokenKind::SQString => "SQString"@,
    }
}

/// A token rendered as `Kind(text)`, as diagnostics show it.
pub open spec fn token_text(t: TokenModel) -> Seq<char> {
    kind_text(t.kind) + "("@ + t.text + ")"@
}

/// A position rendered as `file:line:column`, as diagnostics show it.
pub open spec fn loc_text(l: LocModel) -> Seq<char> {
    l.file + ":"@ + dec_digits(l.line) + ":"@ + dec_digits(l.col)
}

/// Relies on String::push: it appends exactly the given character at the end
/// and changes nothing else.
#[verifier::external_body]
pub(crate) fn push_char(s: &mut String, c: char)
    ensures
        final(s)@ == old(s)@.push(c),
{
    s.push(c)
}

/// True exactly when the string equals the given literal text.
pub(crate) fn text_is(s: &String, lit: &str) -> (r: bool)
    ensures
        r == (s@ == lit@),
{
    let other = String::from_str(lit);
    *s == other
}

// ---------------------------------------------------------------------------
// The token found at an offset
// ---------------------------------------------------------------------------

/// What one scan step yields: the token's class and text, the offset of its
/// first byte, and the offset just after its last byte.
pub ghost struct ScanResult {
    pub kind: TokenKind,
    pub text: Seq<char>,
    pub start: nat,
    pub end: nat,
}

/// The token whose first byte sits at offset `q` (no skipping): a letter or
/// `_` opens a maximal identifier run, classified as a keyword when it spells
/// a reserved word; a digit opens a maximal digit run; `+` is the one
/// operator; `-` always yields the `--` punctuation, consuming the second `-`
/// only when it is present; at or past the end of input the end-of-input
/// token; anything else a one-byte invalid token.
pub open spec fn token_at(d: Seq<u8>, q: nat) -> ScanResult {
    if q >= d.len() {
        ScanResult { kind: TokenKind::EOF, text: "\0"@, start: q, end: q }
    } else if is_name_byte(d[q as int]) {
        let e = name_end(d, q);
        let text = chars_of(d.subrange(q as int, e as int));
        ScanResult {
            kind: if is_keyword(text) {
                TokenKind::Keyword
            } else {
                TokenKind::Identfier
            },
            text,
            start: q,
            end: e,
        }
    } else if is_digit_byte(d[q as int]) {
        let e = digit_end(d, q);
        ScanResult {
            kind: TokenKind::Integer,
            text: chars_of(d.subrange(q as int, e as int)),
            start: q,
            end: e,
        }
    } else if d[q as int] == 43 {
        ScanResult { kind: TokenKind::Operator, text: "+"@, start: q, end: q + 1 }
    } else if d[q as int] == 45 {
        ScanResult {
            kind: TokenKind::Punct,
            text: "--"@,
            start: q,
            end: if q + 1 < d.len() && d[q + 1 as int] == 45 {
                q + 2
            } else {
                q + 1
            },
        }
    } else {
        ScanResult { kind: TokenKind::Invalid, text: seq![d[q as int] as char], start: q, end: q + 1 }
    }
}

/// The token a scan starting at offset `p` produces, after skipping
/// whitespace and comments.
pub open spec fn scan(d: Seq<u8>, p: nat) -> ScanResult {
    token_at(d, skip_trivia(d, p))
}

/// Scanning stays within bounds, and every token but end-of-input consumes at
/// least one byte.
pub proof fn lemma_scan(d: Seq<u8>, p: nat)
    requires
        p <= d.len(),
    ensures
        ({
            let sr = scan(d, p);
            &&& p <= sr.start <= sr.end <= d.len()
            &&& (sr.kind == TokenKind::EOF <==> sr.start == d.len())
            &&& (sr.kind != TokenKind::EOF ==> sr.start < sr.end)
        }),
{
    lemma_skip_trivia_bounds(d, p, false);
    let q = skip_trivia(d, p);
    if q < d.len() {
        if is_name_byte(d[q as int]) {
            lemma_name_end(d, q);
        } else if is_digit_byte(d[q as int]) {
            lemma_digit_end(d, q);
        }
    }
}

/// The whole sequence of tokens a scan produces from offset `p` onward, each
/// carrying its source position; it always ends with the end-of-input token.
pub open spec fn token_stream(d: Seq<u8>, l: LocModel, p: nat) -> Seq<TokenModel>
    decreases d.len() - p,
{
    let sr = scan(d, p);
    let tm = TokenModel {
        kind: sr.kind,
        text: sr.text,
        loc: loc_after_range(l, d, p as int, sr.start as int),
    };
    if sr.kind == TokenKind::EOF {
        seq![tm]
    } else {
        proof {
            if p <= d.len() {
                lemma_scan(d, p);
            } else {
                assert(skip_trivia_at(d, p, false) == p);
            }
        }
        seq![tm] + token_stream(d, loc_after_range(l, d, p as int, sr.end as int), sr.end)
    }
}

/// The head of the token stream is the scanned token, and consuming it leaves
/// exactly the stream from the token's end.
pub proof fn lemma_token_stream_first(d: Seq<u8>, l: LocModel, p: nat)
    ensures
        ({
            let ts = token_stream(d, l, p);
            let sr = scan(d, p);
            &&& ts.len() >= 1
            &&& ts[0] == (TokenModel {
                kind: sr.kind,
                text: sr.text,
                loc: loc_after_range(l, d, p as int, sr.start as int),
            })
            &&& (sr.kind == TokenKind::EOF ==> ts == seq![ts[0]])
            &&& (sr.kind != TokenKind::EOF ==> ts.skip(1) == token_stream(
                d,
                loc_after_range(l, d, p as int, sr.end as int),
                sr.end,
            ))
        }),
{
    let ts = token_stream(d, l, p);
    let sr = scan(d, p);
    if sr.kind != TokenKind::EOF {
        let rest = token_stream(d, loc_after_range(l, d, p as int, sr.end as int), sr.end);
        assert((seq![ts[0]] + rest).skip(1) =~= rest);
    }
}

// ---------------------------------------------------------------------------
// The scanner
// ---------------------------------------------------------------------------

/// A pull-based scanner over a byte buffer. Each call of `next_token`
/// produces the next token and advances the cursor and the position tracker;
/// after end of input it keeps returning the end-of-input token.
pub struct Lexer {
    loc: Loc,
    data: Vec<u8>,
    pos: usize,
    max_pos: usize,
}

impl Lexer {
    /// The byte buffer being scanned.
    pub closed spec fn bytes(self) -> Seq<u8> {
        self.data@
    }

    /// The cursor: how many bytes have been consumed.
    pub closed spec fn cursor(self) -> int {
        self.pos as int
    }

    /// The position the tracker currently holds.
    pub closed spec fn loc_now(self) -> LocModel {
        self.loc@
    }

    /// Well-formed scanner: the cursor is within bounds and the tracked
    /// position is a valid 1-based position whose growth is bounded by the
    /// bytes consumed, which keeps the position arithmetic from overflowing.
    pub closed spec fn wf(self) -> bool {
        &&& self.max_pos == self.data@.len()
        &&& self.pos <= self.max_pos
        &&& 8 * self.data@.len() + 1 <= usize::MAX
        &&& 1 <= self.loc@.col <= 1 + 8 * self.pos
        &&& 1 <= self.loc@.line <= 1 + self.pos
    }

    pub fn new(file_path: String, data: String) -> (lx: Lexer)
        requires
            8 * vstd::utf8::encode_utf8(data@).len() + 1 <= usize::MAX,
        ensures
            lx.wf(),
            lx.bytes() == vstd::utf8::encode_utf8(data@),
            lx.cursor() == 0,
            lx.loc_now() == (LocModel { file: file_path@, line: 1, col: 1 }),
    {
        let bytes = data.as_str().as_bytes_vec();
        let max_pos = bytes.len();
        Lexer { data: bytes, pos: 0, max_pos, loc: Loc::new(file_path, 1, 1) }
    }

    /// Consume one byte: move the cursor and advance the tracked position
    /// over the consumed byte.
    fn advance(&mut self)
        requires
            old(self).wf(),
            old(self).pos < old(self).max_pos,
        ensures
            final(self).wf(),
            final(self).data@ == old(self).data@,
            final(self).max_pos == old(self).max_pos,
            final(self).pos == old(self).pos + 1,
            final(self).loc@ == loc_after_byte(old(self).loc@, old(self).data@[old(self).pos as int]),
    {
        let c = self.data[self.pos];
        self.pos = self.pos + 1;
        self.loc.next(c);
        proof {
            lemma_loc_after_byte_bounds(old(self).loc@, c);
        }
    }

    fn curr_char(&self) -> (c: u8)
        requires
            self.wf(),
        ensures
            c == (if self.pos < self.data@.len() {
                self.data@[self.pos as int]
            } else {
                0u8
            }),
    {
        if self.pos < self.max_pos {
            self.data[self.pos]
        } else {
            0
        }
    }

    fn peek_char(&self, offset: usize) -> (c: u8)
        requires
            self.wf(),
            self.pos + offset <= usize::MAX,
        ensures
            c == (if self.pos + offset < self.data@.len() {
                self.data@[self.pos + offset]
            } else {
                0u8
            }),
    {
        if self.pos + offset < self.max_pos {
            self.data[self.pos + offset]
        } else {
            0
        }
    }

    /// Consume the run of whitespace at the cursor.
    fn skip_whitespace(&mut self)
        requires
            old(self).wf(),
        ensures
            final(self).wf(),
            final(self).data@ == old(self).data@,
            final(self).max_pos == old(self).max_pos,
            old(self).pos <= final(self).pos,
            skip_trivia_at(final(self).data@, final(self).pos as nat, false) == skip_trivia_at(
                final(self).data@,
                old(self).pos as nat,
                false,
            ),
            !(final(self).pos < final(self).data@.len() && is_ws_byte(final(self).data@[final(self).pos as int])),
            final(self).loc@ == loc_after_range(old(self).loc@, final(self).data@, old(self).pos as int, final(self).pos as int),
    {
        let ghost d = self.data@;
        let ghost p0 = self.pos as int;
        let ghost l0 = self.loc@;
        loop
            invariant
                self.wf(),
                self.data@ == d,
                self.max_pos == old(self).max_pos,
                p0 <= self.pos,
                skip_trivia_at(d, self.pos as nat, false) == skip_trivia_at(d, p0 as nat, false),
                self.loc@ == loc_after_range(l0, d, p0, self.pos as int),
            ensures
                self.wf(),
                self.data@ == d,
                self.max_pos == old(self).max_pos,
                p0 <= self.pos,
                skip_trivia_at(d, self.pos as nat, false) == skip_trivia_at(
                    d,
                    p0 as nat,
                    false,
                ),
                !(self.pos < d.len() && is_ws_byte(d[self.pos as int])),
                self.loc@ == loc_after_range(l0, d, p0, self.pos as int),
            decreases self.max_pos - self.pos,
        {
            if self.pos >= self.max_pos {
                break;
            }
            let c = self.data[self.pos];
            if !ws_byte(c) {
                break;
            }
            proof {
                lemma_loc_range_snoc(l0, d, p0, self.pos as int);
            }
            self.advance();
        }
    }

    /// Consume a line comment at the cursor, if any, and any further
    /// whitespace and comments after it. Runs until the cursor rests on a
    /// byte that starts a token (or at end of input).
    fn skip_comment(&mut self)
        requires
            old(self).wf(),
            !(old(self).pos < old(self).data@.len() && is_ws_byte(
                old(self).data@[old(self).pos as int],
            )),
        ensures
            final(self).wf(),
            final(self).data@ == old(self).data@,
            final(self).max_pos == old(self).max_pos,
            old(self).pos <= final(self).pos,
            final(self).pos as nat == skip_trivia_at(final(self).data@, old(self).pos as nat, false),
            final(self).loc@ == loc_after_range(old(self).loc@, final(self).data@, old(self).pos as int, final(self).pos as int),
    {
        let ghost d = self.data@;
        let ghost p0 = self.pos as int;
        let ghost l0 = self.loc@;
        loop
            invariant
                self.wf(),
                self.data@ == d,
                self.max_pos == old(self).max_pos,
                p0 <= self.pos,
                skip_trivia_at(d, self.pos as nat, false) == skip_trivia_at(d, p0 as nat, false),
                !(self.pos < d.len() && is_ws_byte(d[self.pos as int])),
                self.loc@ == loc_after_range(l0, d, p0, self.pos as int),
            ensures
                self.wf(),
                self.data@ == d,
                self.max_pos == old(self).max_pos,
                p0 <= self.pos,
                self.pos as nat == skip_trivia_at(d, p0 as nat, false),
                self.loc@ == loc_after_range(l0, d, p0, self.pos as int),
            decreases self.max_pos - self.pos,
        {
            if !(self.pos + 1 < self.max_pos && self.data[self.pos] == 47 && self.data[self.pos
                + 1] == 47) {
                break;
            }
            proof {
                assert(skip_trivia_at(d, self.pos as nat, false) == skip_trivia_at(
                    d,
                    (self.pos + 2) as nat,
                    true,
                ));
                lemma_loc_range_snoc(l0, d, p0, self.pos as int);
            }
            self.advance();
            proof {
                lemma_loc_range_snoc(l0, d, p0, self.pos as int);
            }
            self.advance();
            let ghost q2 = self.pos as int;
            // Inside the comment: consume until a line feed or end of input.
            loop
                invariant
                    self.wf(),
                    self.data@ == d,
                    self.max_pos == old(self).max_pos,
                    p0 <= q2 <= self.pos,
                    skip_trivia_at(d, self.pos as nat, true) == skip_trivia_at(d, p0 as nat, false),
                    self.loc@ == loc_after_range(l0, d, p0, self.pos as int),
                ensures
                    self.wf(),
                    self.data@ == d,
                    self.max_pos == old(self).max_pos,
                    p0 <= q2 <= self.pos,
                    skip_trivia_at(d, self.pos as nat, false) == skip_trivia_at(
                        d,
                        p0 as nat,
                        false,
                    ),
                    self.loc@ == loc_after_range(l0, d, p0, self.pos as int),
                decreases self.max_pos - self.pos,
            {
                if self.pos >= self.max_pos {
                    break;
                }
                if self.data[self.pos] == 10 {
                    break;
                }
                proof {
                    lemma_loc_range_snoc(l0, d, p0, self.pos as int);
                }
                self.advance();
            }
            let ghost mid = self.pos as int;
            self.skip_whitespace();
            proof {
                lemma_loc_range_concat(l0, d, p0, mid, self.pos as int);
            }
        }
    }

    /// Scan the maximal identifier run at the cursor and classify it as a
    /// keyword or an identifier.
    fn identfier(&mut self) -> (t: Token)
        requires
            old(self).wf(),
            old(self).pos < old(self).data@.len(),
            is_name_byte(old(self).data@[old(self).pos as int]),
        ensures
            final(self).wf(),
            final(self).data@ == old(self).data@,
            final(self).max_pos == old(self).max_pos,
            ({
                let d = old(self).data@;
                let q = old(self).pos as nat;
                let e = name_end(d, q);
                let text = chars_of(d.subrange(q as int, e as int));
                &&& final(self).pos == e
                &&& final(self).loc@ == loc_after_range(old(self).loc@, d, q as int, e as int)
                &&& t@.kind == (if is_keyword(text) {
                    TokenKind::Keyword
                } else {
                    TokenKind::Identfier
                })
                &&& t@.text == text
                &&& t@.loc == old(self).loc@
            }),
    {
        let ghost d = self.data@;
        let ghost q = self.pos as nat;
        let ghost l0 = self.loc@;
        let loc = self.loc.clone();
        let mut value = String::new();
        proof {
            lemma_name_end(d, q);
        }
        loop
            invariant
                self.wf(),
                self.data@ == d,
                self.max_pos == old(self).max_pos,
                q <= self.pos <= d.len(),
                name_end(d, q) == name_end(d, self.pos as nat),
                value@ == chars_of(d.subrange(q as int, self.pos as int)),
                self.loc@ == loc_after_range(l0, d, q as int, self.pos as int),
            ensures
                self.wf(),
                self.data@ == d,
                self.max_pos == old(self).max_pos,
                self.pos == name_end(d, q),
                value@ == chars_of(d.subrange(q as int, name_end(d, q) as int)),
                self.loc@ == loc_after_range(l0, d, q as int, self.pos as int),
            decreases self.max_pos - self.pos,
        {
            if self.pos >= self.max_pos {
                break;
            }
            let c = self.data[self.pos];
            if !name_byte(c) {
                break;
            }
            push_char(&mut value, c as char);
            proof {
                assert(d.subrange(q as int, self.pos + 1 as int) =~= d.subrange(
                    q as int,
                    self.pos as int,
                ).push(c));
                assert(chars_of(d.subrange(q as int, self.pos + 1 as int)) =~= chars_of(
                    d.subrange(q as int, self.pos as int),
                ).push(c as char));
                lemma_loc_range_snoc(l0, d, q as int, self.pos as int);
            }
            self.advance();
        }
        let kw = text_is(&value, "proc") || text_is(&value, "in") || text_is(&value, "end");
        let kind = if kw {
            TokenKind::Keyword
        } else {
            TokenKind::Identfier
        };
        Token { kind, value, loc }
    }

    /// Scan the maximal digit run at the cursor into an integer token.
    fn integer(&mut self) -> (t: Token)
        requires
            old(self).wf(),
            old(self).pos < old(self).data@.len(),
            is_digit_byte(old(self).data@[old(self).pos as int]),
        ensures
            final(self).wf(),
            final(self).data@ == old(self).data@,
            final(self).max_pos == old(self).max_pos,
            ({
                let d = old(self).data@;
                let q = old(self).pos as nat;
                let e = digit_end(d, q);
                &&& final(self).pos == e
                &&& final(self).loc@ == loc_after_range(old(self).loc@, d, q as int, e as int)
                &&& t@.kind == TokenKind::Integer
                &&& t@.text == chars_of(d.subrange(q as int, e as int))
                &&& t@.loc == old(self).loc@
            }),
    {
        let ghost d = self.data@;
        let ghost q = self.pos as nat;
        let ghost l0 = self.loc@;
        let loc = self.loc.clone();
        let mut value = String::new();
        proof {
            lemma_digit_end(d, q);
        }
        loop
            invariant
                self.wf(),
                self.data@ == d,
                self.max_pos == old(self).max_pos,
                q <= self.pos <= d.len(),
                digit_end(d, q) == digit_end(d, self.pos as nat),
                value@ == chars_of(d.subrange(q as int, self.pos as int)),
                self.loc@ == loc_after_range(l0, d, q as int, self.pos as int),
            ensures
                self.wf(),
                self.data@ == d,
                self.max_pos == old(self).max_pos,
                self.pos == digit_end(d, q),
                value@ == chars_of(d.subrange(q as int, digit_end(d, q) as int)),
                self.loc@ == loc_after_range(l0, d, q as int, self.pos as int),
            decreases self.max_pos - self.pos,
        {
            if self.pos >= self.max_pos {
                break;
            }
            let c = self.data[self.pos];
            if !digit_byte(c) {
                break;
            }
            push_char(&mut value, c as char);
            proof {
                assert(d.subrange(q as int, self.pos + 1 as int) =~= d.subrange(
                    q as int,
                    self.pos as int,
                ).push(c));
                assert(chars_of(d.subrange(q as int, self.pos + 1 as int)) =~= chars_of(
                    d.subrange(q as int, self.pos as int),
                ).push(c as char));
                lemma_loc_range_snoc(l0, d, q as int, self.pos as int);
            }
            self.advance();
        }
        Token { kind: TokenKind::Integer, value, loc }
    }

    /// Build a token from already prepared parts, then consume one byte.
    fn token_advance(&mut self, kind: TokenKind, value: String, loc: Loc) -> (t: Token)
        requires
            old(self).wf(),
            old(self).pos < old(self).max_pos,
        ensures
            final(self).wf(),
            final(self).data@ == old(self).data@,
            final(self).max_pos == old(self).max_pos,
            final(self).pos == old(self).pos + 1,
            final(self).loc@ == loc_after_byte(old(self).loc@, old(self).data@[old(self).pos as int]),
            t@ == (TokenModel { kind: kind, text: value@, loc: loc@ }),
    {
        self.advance();
        Token { kind, value, loc }
    }

    /// Build a one-byte token with fixed text from the current position, then
    /// consume that byte.
    fn simple_token_advance(&mut self, kind: TokenKind, value: &str) -> (t: Token)
        requires
            old(self).wf(),
            old(self).pos < old(self).max_pos,
        ensures
            final(self).wf(),
            final(self).data@ == old(self).data@,
            final(self).max_pos == old(self).max_pos,
            final(self).pos == old(self).pos + 1,
            final(self).loc@ == loc_after_byte(old(self).loc@, old(self).data@[old(self).pos as int]),
            t@ == (TokenModel { kind: kind, text: value@, loc: old(self).loc@ }),
    {
        let loc = self.loc.clone();
        let value = String::from_str(value);
        self.advance();
        Token { kind, value, loc }
    }

    /// Scan and return the next token: skip whitespace and comments, then
    /// classify the byte run at the cursor exactly as `scan` says. The
    /// returned token carries the position of its first byte; the tracker
    /// ends at the position just past the token.
    pub fn next_token(&mut self) -> (t: Token)
        requires
            old(self).wf(),
        ensures
            final(self).wf(),
            final(self).bytes() == old(self).bytes(),
            ({
                let d = old(self).bytes();
                let p = old(self).cursor();
                let sr = scan(d, p as nat);
                &&& t@.kind == sr.kind
                &&& t@.text == sr.text
                &&& t@.loc == loc_after_range(old(self).loc_now(), d, p, sr.start as int)
                &&& final(self).cursor() == sr.end
                &&& final(self).loc_now() == loc_after_range(old(self).loc_now(), d, p, sr.end as int)
            }),
    {
        let ghost d = self.data@;
        let ghost p0 = self.pos as int;
        let ghost l0 = self.loc@;
        self.skip_whitespace();
        let ghost mid = self.pos as int;
        self.skip_comment();
        let ghost q = self.pos as nat;
        proof {
            assert(q == skip_trivia(d, p0 as nat));
            lemma_loc_range_concat(l0, d, p0, mid, q as int);
        }
        if self.pos >= self.max_pos {
            let t = Token::eof(self.loc.clone());
            return t;
        }
        let c = self.curr_char();
        let t = if name_byte(c) {
            let t = self.identfier();
            proof {
                lemma_name_end(d, q);
                lemma_loc_range_concat(l0, d, p0, q as int, self.pos as int);
            }
            t
        } else if digit_byte(c) {
            let t = self.integer();
            proof {
                lemma_digit_end(d, q);
                lemma_loc_range_concat(l0, d, p0, q as int, self.pos as int);
            }
            t
        } else if c == 43 {
            let t = self.simple_token_advance(TokenKind::Operator, "+");
            proof {
                lemma_loc_range_snoc(l0, d, p0, q as int);
            }
            t
        } else if c == 45 {
            let loc = self.loc.clone();
            let two = self.peek_char(1) == 45;
            proof {
                lemma_loc_range_snoc(l0, d, p0, q as int);
            }
            self.advance();
            if two {
                proof {
                    lemma_loc_range_snoc(l0, d, p0, q as int + 1);
                }
                self.advance();
            }
            let value = String::from_str("--");
            Token { kind: TokenKind::Punct, value, loc }
        } else {
            let loc = self.loc.clone();
            let mut value = String::new();
            push_char(&mut value, c as char);
            proof {
                assert(value@ =~= seq![c as char]);
                lemma_loc_range_snoc(l0, d, p0, q as int);
            }
            self.token_advance(TokenKind::Invalid, value, loc)
        };
        t
    }
}

/// A well-formed scanner's cursor sits within its buffer.
pub proof fn lemma_lexer_wf_bounds(lx: Lexer)
    requires
        lx.wf(),
    ensures
        0 <= lx.cursor() <= lx.bytes().len(),
{
}

/// The tracked position never grows past the bounds the consumed byte allows.
proof fn lemma_loc_after_byte_bounds(l: LocModel, b: u8)
    requires
        1 <= l.col,
        1 <= l.line,
    ensures
        1 <= loc_after_byte(l, b).col <= l.col + 8,
        1 <= loc_after_byte(l, b).line <= l.line + 1,
        loc_after_byte(l, b).file == l.file,
{
    assert(0 <= l.col / 8 * 8 <= l.col) by (nonlinear_arith)
        requires
            1 <= l.col,
    ;
}

// ---------------------------------------------------------------------------
// Laws of the scanner
// ---------------------------------------------------------------------------

/// The shape of an input made only of whitespace and well-formed line
/// comments, possibly alternating; `in_comment` marks the tail of an open
/// line comment.
pub open spec fn trivia_only_at(d: Seq<u8>, in_comment: bool) -> bool
    decreases d.len(), (if in_comment { 1int } else { 0int }),
{
    if in_comment {
        if d.len() == 0 {
            true
        } else if d[0] == 10 {
            trivia_only_at(d, false)
        } else {
            trivia_only_at(d.skip(1), true)
        }
    } else {
        if d.len() == 0 {
            true
        } else if is_ws_byte(d[0]) {
            trivia_only_at(d.skip(1), false)
        } else if d.len() >= 2 && d[0] == 47 && d[1] == 47 {
            trivia_only_at(d.skip(2), true)
        } else {
            false
        }
    }
}

/// An input made only of whitespace and well-formed line comments.
pub open spec fn trivia_only(d: Seq<u8>) -> bool {
    trivia_only_at(d, false)
}

proof fn lemma_trivia_only_skips_all(d: Seq<u8>, p: nat, in_comment: bool)
    requires
        p <= d.len(),
        trivia_only_at(d.skip(p as int), in_comment),
    ensures
        skip_trivia_at(d, p, in_comment) == d.len(),
    decreases d.len() - p, (if in_comment { 1int } else { 0int }),
{
    let rest = d.skip(p as int);
    if p < d.len() {
        assert(rest[0] == d[p as int]);
        if in_comment {
            if d[p as int] == 10 {
                lemma_trivia_only_skips_all(d, p, false);
            } else {
                assert(rest.skip(1) =~= d.skip(p as int + 1));
                lemma_trivia_only_skips_all(d, p + 1, true);
            }
        } else {
            if is_ws_byte(d[p as int]) {
                assert(rest.skip(1) =~= d.skip(p as int + 1));
                lemma_trivia_only_skips_all(d, p + 1, false);
            } else {
                assert(rest.len() >= 2 && rest[1] == d[p as int + 1]);
                assert(rest.skip(2) =~= d.skip(p as int + 2));
                lemma_trivia_only_skips_all(d, p + 2, true);
            }
        }
    }
}

/// An input made only of whitespace and well-formed line comments scans to
/// exactly one end-of-input token: nothing in it yields a token.
pub proof fn lemma_trivia_only_scans_eof(d: Seq<u8>)
    requires
        trivia_only(d),
    ensures
        scan(d, 0).kind == TokenKind::EOF,
{
    assert(d.skip(0) =~= d);
    lemma_trivia_only_skips_all(d, 0, false);
}

/// An identifier byte opens a token whose text is exactly the maximal run of
/// identifier bytes from there, classified as a keyword exactly when the run
/// spells a reserved word, else as an identifier.
pub proof fn lemma_identifier_token(d: Seq<u8>, q: nat)
    requires
        q < d.len(),
        is_name_byte(d[q as int]),
    ensures
        ({
            let t = token_at(d, q);
            let e = name_end(d, q);
            &&& t.text == chars_of(d.subrange(q as int, e as int))
            &&& q < e <= d.len()
            &&& (forall|i: int| q <= i < e ==> is_name_byte(d[i]))
            &&& (e == d.len() || !is_name_byte(d[e as int]))
            &&& (t.kind == TokenKind::Keyword <==> is_keyword(t.text))
            &&& (t.kind == TokenKind::Identfier <==> !is_keyword(t.text))
        }),
{
    lemma_name_end(d, q);
}

/// A digit byte opens an integer token whose text is exactly the maximal run
/// of digits from there; the text is a nonempty string of digit characters.
pub proof fn lemma_integer_token(d: Seq<u8>, q: nat)
    requires
        q < d.len(),
        is_digit_byte(d[q as int]),
    ensures
        ({
            let t = token_at(d, q);
            let e = digit_end(d, q);
            &&& t.kind == TokenKind::Integer
            &&& t.text == chars_of(d.subrange(q as int, e as int))
            &&& t.text.len() == e - q
            &&& 1 <= t.text.len()
            &&& crate::numbers::all_digits(t.text)
            &&& (e == d.len() || !is_digit_byte(d[e as int]))
        }),
{
    lemma_digit_end(d, q);
    let e = digit_end(d, q);
    let text = chars_of(d.subrange(q as int, e as int));
    assert forall|i: int| 0 <= i < text.len() implies crate::numbers::is_digit_char(
        #[trigger] text[i],
    ) by {
        assert(text[i] == d[q + i] as char);
    }
}

/// Tab handling: a tab moves the column up to the next multiple of the tab
/// stop (8), by at least one and at most eight columns, and never changes the
/// line.
pub proof fn lemma_tab_stop(l: LocModel)
    requires
        1 <= l.col,
    ensures
        ({
            let after = loc_after_byte(l, 9);
            &&& after.col == (l.col / 8) * 8 + 8
            &&& after.col % 8 == 0
            &&& l.col < after.col <= l.col + 8
            &&& after.line == l.line
        }),
{
    assert((l.col / 8) * 8 <= l.col && l.col < (l.col / 8) * 8 + 8 && ((l.col / 8) * 8 + 8) % 8
        == 0) by (nonlinear_arith)
        requires
            1 <= l.col,
    ;
}

/// The first offset at or after `p` holding a line feed, or the end of the
/// input: where a line comment opened before `p` ends.
pub open spec fn comment_end(d: Seq<u8>, p: nat) -> nat
    decreases d.len() - p,
{
    if p >= d.len() {
        p
    } else if d[p as int] == 10 {
        p
    } else {
        comment_end(d, p + 1)
    }
}

proof fn lemma_comment_mode_runs_to_end(d: Seq<u8>, q: nat)
    requires
        q <= d.len(),
    ensures
        q <= comment_end(d, q) <= d.len(),
        skip_trivia_at(d, q, true) == skip_trivia_at(d, comment_end(d, q), false),
    decreases d.len() - q,
{
    if q < d.len() && d[q as int] != 10 {
        lemma_comment_mode_runs_to_end(d, q + 1);
    }
}

/// A line comment contributes no tokens: scanning from its `//` yields the
/// same token as scanning from the line feed (or end of input) that closes
/// it. In particular a comment at end of input simply scans to end of input.
pub proof fn lemma_comment_skipped(d: Seq<u8>, p: nat)
    requires
        p + 1 < d.len(),
        d[p as int] == 47,
        d[p + 1 as int] == 47,
    ensures
        p + 2 <= comment_end(d, p + 2) <= d.len(),
        scan(d, p) == scan(d, comment_end(d, p + 2)),
{
    lemma_comment_mode_runs_to_end(d, p + 2);
}

/// The dash rule: any `-` yields the two-character `--` punctuation token.
/// When a second `-` follows, both bytes are consumed; a lone `-` still
/// yields the `--` text but consumes one byte.
pub proof fn lemma_dash_token(d: Seq<u8>, q: nat)
    requires
        q < d.len(),
        d[q as int] == 45,
    ensures
        ({
            let t = token_at(d, q);
            &&& t.kind == TokenKind::Punct
            &&& t.text == "--"@
            &&& ((q + 1 < d.len() && d[q + 1 as int] == 45) ==> t.end == q + 2)
            &&& (!(q + 1 < d.len() && d[q + 1 as int] == 45) ==> t.end == q + 1)
        }),
{
}

} // verus!
