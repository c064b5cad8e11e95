//! Hand-written lexer for the LM programming language.
//!
//! The lexer turns source text into a stream of [`Token`]s, skipping
//! whitespace and `//` comments, and collects [`Diagnostic`]s for lexical
//! errors. Its behaviour is given by the spec function [`lex_from`], which
//! the executable lexer is proved to follow exactly.
use vstd::prelude::*;
use vstd::utf8::encode_utf8;
use vstd::utf8::encode_scalar;
use crate::diagnostics::{Diagnostic, Label, QuickFix, Span, Severity};
use crate::text::{owned, push_char, append, eq_lit};

verus! {

/// All possible token kinds in the LM language.
#[derive(Debug, Clone, Copy, PartialEq, Eq, Hash, Structural)]
pub enum TokenKind {
    /// Integer literal, e.g. `42`
    IntLit,
    /// Floating-point literal, e.g. `3.14`
    FloatLit,
    /// String literal, e.g. `"hello"`
    StringLit,
    /// Boolean literal: `true` or `false`
    BoolLit,
    /// An identifier, e.g. `foo`, `my_var`, `Shape`
    Ident,
    /// `let`
    Let,
    /// `fn`
    Fn,
    /// `io`
    Io,
    /// `pure`
    Pure,
    /// `type`
    Type,
    /// `match`
    Match,
    /// `if`
    If,
    /// `else`
    Else,
    /// `+`
    Plus,
    /// `-`
    Minus,
    /// `*`
    Star,
    /// `/`
    Slash,
    /// `%`
    Percent,
    /// `++` (string concatenation)
    PlusPlus,
    /// `==`
    EqEq,
    /// `!=`
    BangEq,
    /// `<`
    Lt,
    /// `<=`
    LtEq,
    /// `>`
    Gt,
    /// `>=`
    GtEq,
    /// `&&`
    AmpAmp,
    /// `||`
    PipePipe,
    /// `!`
    Bang,
    /// `=`
    Eq,
    /// `->`
    Arrow,
    /// `|` (used in type variant declarations and match arms)
    Pipe,
    /// `(`
    LParen,
    /// `)`
    RParen,
    /// `{`
    LBrace,
    /// `}`
    RBrace,
    /// `[`
    LBracket,
    /// `]`
    RBracket,
    /// `,`
    Comma,
    /// `;`
    Semi,
    /// `:`
    Colon,
    /// `_` (wildcard pattern)
    Underscore,
    /// End of file.
    Eof,
}

/// The short human-readable name of a token kind.
pub open spec fn kind_name(k: TokenKind) -> Seq<char> {
    match k {
        TokenKind::IntLit => "integer"@,
        TokenKind::FloatLit => "float"@,
        TokenKind::StringLit => "string"@,
        TokenKind::BoolLit => "boolean"@,
        TokenKind::Ident => "identifier"@,
        TokenKind::Let => "let"@,
        TokenKind::Fn => "fn"@,
        TokenKind::Io => "io"@,
        TokenKind::Pure => "pure"@,
        TokenKind::Type => "type"@,
        TokenKind::Match => "match"@,
        TokenKind::If => "if"@,
        TokenKind::Else => "else"@,
        TokenKind::Plus => "+"@,
        TokenKind::Minus => "-"@,
        TokenKind::Star => "*"@,
        TokenKind::Slash => "/"@,
        TokenKind::Percent => "%"@,
        TokenKind::PlusPlus => "++"@,
        TokenKind::EqEq => "=="@,
        TokenKind::BangEq => "!="@,
        TokenKind::Lt => "<"@,
        TokenKind::LtEq => "<="@,
        TokenKind::Gt => ">"@,
        TokenKind::GtEq => ">="@,
        TokenKind::AmpAmp => "&&"@,
        TokenKind::PipePipe => "||"@,
        TokenKind::Bang => "!"@,
        TokenKind::Eq => "="@,
        TokenKind::Arrow => "->"@,
        TokenKind::Pipe => "|"@,
        TokenKind::LParen => "("@,
        TokenKind::RParen => ")"@,
        TokenKind::LBrace => "{"@,
        TokenKind::RBrace => "}"@,
        TokenKind::LBracket => "["@,
        TokenKind::RBracket => "]"@,
        TokenKind::Comma => ","@,
        TokenKind::Semi => ";"@,
        TokenKind::Colon => ":"@,
        TokenKind::Underscore => "_"@,
        TokenKind::Eof => "EOF"@,
    }
}

impl TokenKind {
    /// A short human-readable name for the token kind.
    pub fn name(self) -> (r: &'static str)
        ensures
            r@ == kind_name(self),
    {
        match self {
            TokenKind::IntLit => "integer",
            TokenKind::FloatLit => "float",
            TokenKind::StringLit => "string",
            TokenKind::BoolLit => "boolean",
            TokenKind::Ident => "identifier",
            TokenKind::Let => "let",
            TokenKind::Fn => "fn",
            TokenKind::Io => "io",
            TokenKind::Pure => "pure",
            TokenKind::Type => "type",
            TokenKind::Match => "match",
            TokenKind::If => "if",
            TokenKind::Else => "else",
            TokenKind::Plus => "+",
            TokenKind::Minus => "-",
            TokenKind::Star => "*",
            TokenKind::Slash => "/",
            TokenKind::Percent => "%",
            TokenKind::PlusPlus => "++",
            TokenKind::EqEq => "==",
            TokenKind::BangEq => "!=",
            TokenKind::Lt => "<",
            TokenKind::LtEq => "<=",
            TokenKind::Gt => ">",
            TokenKind::GtEq => ">=",
            TokenKind::AmpAmp => "&&",
            TokenKind::PipePipe => "||",
            TokenKind::Bang => "!",
            TokenKind::Eq => "=",
            TokenKind::Arrow => "->",
            TokenKind::Pipe => "|",
            TokenKind::LParen => "(",
            TokenKind::RParen => ")",
            TokenKind::LBrace => "{",
            TokenKind::RBrace => "}",
            TokenKind::LBracket => "[",
            TokenKind::RBracket => "]",
            TokenKind::Comma => ",",
            TokenKind::Semi => ";",
            TokenKind::Colon => ":",
            TokenKind::Underscore => "_",
            TokenKind::Eof => "EOF",
        }
    }
}

/// A single token produced by the lexer.
#[derive(Debug, Clone, PartialEq, Eq)]
pub struct Token {
    /// The kind of token.
    pub kind: TokenKind,
    /// The byte span in the source file.
    pub span: Span,
    /// The literal text of the token as it appeared in source.
    pub text: String,
}

impl Token {
    /// Create a new token.
    pub fn new(kind: TokenKind, span: Span, text: String) -> (r: Token)
        ensures
            r == (Token { kind, span, text }),
    {
        Token { kind, span, text }
    }
}

// ---------------------------------------------------------------------------
// The lexer as spec functions over the characters of the source.
// Positions are character indices; spans are the byte offsets of those
// indices in the UTF-8 encoding of the source.
// ---------------------------------------------------------------------------

/// Whitespace skipped between tokens.
pub open spec fn is_ws(c: char) -> bool {
    c == ' ' || c == '\t' || c == '\n' || c == '\r'
}

/// An ASCII decimal digit.
pub open spec fn is_digit(c: char) -> bool {
    '0' <= c <= '9'
}

/// An ASCII letter.
pub open spec fn is_alpha(c: char) -> bool {
    ('a' <= c <= 'z') || ('A' <= c <= 'Z')
}

/// A character that starts an identifier.
pub open spec fn is_ident_start(c: char) -> bool {
    is_alpha(c) || c == '_'
}

/// A character that continues an identifier.
pub open spec fn is_ident_char(c: char) -> bool {
    is_alpha(c) || is_digit(c) || c == '_'
}

/// An ASCII character.
pub open spec fn is_ascii_char(c: char) -> bool {
    (c as u32) < 128
}

/// The byte offset of character index `i` in the UTF-8 encoding of `cs`.
pub open spec fn byte_offset(cs: Seq<char>, i: int) -> nat {
    encode_utf8(cs.subrange(0, i)).len()
}

/// The number of bytes that encode `c` in UTF-8.
pub open spec fn char_width(c: char) -> nat {
    encode_scalar(c as u32).len()
}

/// The end of whitespace and line comments starting at `i`; `in_comment`
/// says whether a `//` comment is being skipped.
pub open spec fn trivia_end(cs: Seq<char>, i: int, in_comment: bool) -> int
    decreases cs.len() - i, if in_comment { 1nat } else { 0nat },
{
    if in_comment {
        if 0 <= i < cs.len() && cs[i] != '\n' {
            trivia_end(cs, i + 1, true)
        } else {
            trivia_end(cs, i, false)
        }
    } else if 0 <= i < cs.len() && is_ws(cs[i]) {
        trivia_end(cs, i + 1, false)
    } else if 0 <= i && i + 1 < cs.len() && cs[i] == '/' && cs[i + 1] == '/' {
        trivia_end(cs, i + 2, true)
    } else {
        i
    }
}

/// The end of the identifier characters starting at `i`.
pub open spec fn ident_end(cs: Seq<char>, i: int) -> int
    decreases cs.len() - i,
{
    if 0 <= i < cs.len() && is_ident_char(cs[i]) {
        ident_end(cs, i + 1)
    } else {
        i
    }
}

/// A lexical diagnostic: code, message and the character range it covers;
/// the character range and text of its one label; its help text; and, when
/// it has one, the description of its quick-fix, which deletes the range.
pub struct LexDiag {
    pub code: Seq<char>,
    pub message: Seq<char>,
    pub start: int,
    pub end: int,
    pub label: (int, int, Seq<char>),
    pub help: Seq<char>,
    pub fix: Option<Seq<char>>,
}

/// The outcome of scanning a number: where it ends, whether it has a
/// fractional part, and where an alphabetic suffix starts, if any.
pub struct NumScan {
    pub end: int,
    pub has_dot: bool,
    pub suffix: Option<int>,
}

/// Scans the rest of a number literal from `j`.
pub open spec fn num_scan(cs: Seq<char>, j: int, has_dot: bool) -> NumScan
    decreases cs.len() - j,
{
    if 0 <= j < cs.len() && is_digit(cs[j]) {
        num_scan(cs, j + 1, has_dot)
    } else if 0 <= j && j + 1 < cs.len() && cs[j] == '.' && !has_dot && is_digit(cs[j + 1]) {
        num_scan(cs, j + 1, true)
    } else if 0 <= j < cs.len() && is_ident_start(cs[j]) {
        NumScan { end: ident_end(cs, j), has_dot, suffix: Some(j) }
    } else {
        NumScan { end: j, has_dot, suffix: None }
    }
}

/// The outcome of scanning a string literal: where it ends, the diagnostics
/// it produced, and whether every escaped character is ASCII.
pub struct StrScan {
    pub end: int,
    pub diags: Seq<LexDiag>,
    pub safe: bool,
}

/// The diagnostic for a string opened at `start` and not closed before `end`.
pub open spec fn unterminated(start: int, end: int) -> LexDiag {
    LexDiag {
        code: "E0002"@,
        message: "unterminated string literal"@,
        start,
        end,
        label: (start, start + 1, "string starts here"@),
        help: "add a closing `\"` to terminate the string"@,
        fix: None,
    }
}

/// The diagnostic for the escape `\e` at `j`.
pub open spec fn bad_escape(e: char, j: int) -> LexDiag {
    LexDiag {
        code: "E0001"@,
        message: "invalid escape sequence `\\"@.push(e) + "`"@,
        start: j,
        end: j + 2,
        label: (j, j + 2, "unknown escape"@),
        help: "valid escapes are: \\\\, \\\", \\n, \\t"@,
        fix: None,
    }
}

/// The diagnostic for a number literal from `i` to `end` with an
/// alphabetic suffix from `suffix`.
pub open spec fn bad_number(cs: Seq<char>, i: int, suffix: int, end: int) -> LexDiag {
    LexDiag {
        code: "E0003"@,
        message: "invalid number literal `"@ + cs.subrange(i, end) + "`"@,
        start: i,
        end,
        label: (suffix, end, "unexpected suffix `"@ + cs.subrange(suffix, end) + "`"@),
        help: "number literals must not have alphabetic suffixes"@,
        fix: None,
    }
}

/// The diagnostic for a lone `&` at `i`.
pub open spec fn lone_ampersand(i: int) -> LexDiag {
    LexDiag {
        code: "E0001"@,
        message: "unrecognized character `&`"@,
        start: i,
        end: i + 1,
        label: (i, i + 1, "expected `&&` for logical AND"@),
        help: "use `&&` for logical AND; single `&` is not supported in LM"@,
        fix: None,
    }
}

/// Scans the rest of a string literal opened at `start`, from `j`.
pub open spec fn str_scan(cs: Seq<char>, j: int, start: int) -> StrScan
    decreases cs.len() - j,
{
    if j < 0 || j >= cs.len() || cs[j] == '\n' {
        StrScan { end: j, diags: seq![unterminated(start, j)], safe: true }
    } else if cs[j] == '\\' {
        if j + 1 >= cs.len() {
            StrScan { end: j + 1, diags: seq![unterminated(start, j + 1)], safe: true }
        } else {
            let e = cs[j + 1];
            let rest = str_scan(cs, j + 2, start);
            if e == '\\' || e == '"' || e == 'n' || e == 't' {
                rest
            } else {
                let d = bad_escape(e, j);
                StrScan { end: rest.end, diags: seq![d] + rest.diags, safe: rest.safe && is_ascii_char(e) }
            }
        }
    } else if cs[j] == '"' {
        StrScan { end: j + 1, diags: seq![], safe: true }
    } else {
        str_scan(cs, j + 1, start)
    }
}

/// The kind of a word: a keyword, a boolean literal, the standalone
/// wildcard `_`, or else an identifier.
pub open spec fn word_kind(w: Seq<char>) -> TokenKind {
    if w == "let"@ { TokenKind::Let }
    else if w == "fn"@ { TokenKind::Fn }
    else if w == "io"@ { TokenKind::Io }
    else if w == "pure"@ { TokenKind::Pure }
    else if w == "type"@ { TokenKind::Type }
    else if w == "match"@ { TokenKind::Match }
    else if w == "if"@ { TokenKind::If }
    else if w == "else"@ { TokenKind::Else }
    else if w == "true"@ || w == "false"@ { TokenKind::BoolLit }
    else if w == "_"@ { TokenKind::Underscore }
    else { TokenKind::Ident }
}

/// One step of the lexer at a token start: the token produced (if any),
/// where the next token may start, the diagnostics and whether the step is
/// free of non-ASCII characters where the lexer slices bytes.
pub struct LexStep {
    pub kind: Option<TokenKind>,
    pub end: int,
    pub diags: Seq<LexDiag>,
    pub safe: bool,
}

/// A token of one character.
pub open spec fn single(k: TokenKind, i: int) -> LexStep {
    LexStep { kind: Some(k), end: i + 1, diags: seq![], safe: true }
}

/// A token of two characters when `cs[i + 1]` is `c2`, else of one.
pub open spec fn one_or_two(cs: Seq<char>, i: int, c2: char, two: TokenKind, one: TokenKind) -> LexStep {
    if i + 1 < cs.len() && cs[i + 1] == c2 {
        LexStep { kind: Some(two), end: i + 2, diags: seq![], safe: true }
    } else {
        single(one, i)
    }
}

/// The diagnostic for an unrecognized character `c` at `i`.
pub open spec fn unrecognized(c: char, i: int) -> LexDiag {
    LexDiag {
        code: "E0001"@,
        message: "unrecognized character `"@.push(c) + "`"@,
        start: i,
        end: i + 1,
        label: (i, i + 1, "not a valid LM token"@),
        help: "LM uses ASCII operators and identifiers"@,
        fix: Some("remove `"@.push(c) + "`"@),
    }
}

/// The lexer step at token start `i` (`0 <= i < cs.len()`).
pub open spec fn lex_step(cs: Seq<char>, i: int) -> LexStep {
    let c = cs[i];
    if c == '"' {
        let r = str_scan(cs, i + 1, i);
        LexStep { kind: Some(TokenKind::StringLit), end: r.end, diags: r.diags, safe: r.safe }
    } else if is_digit(c) {
        let r = num_scan(cs, i, false);
        let kind = if r.has_dot { TokenKind::FloatLit } else { TokenKind::IntLit };
        let diags = if r.suffix is Some {
            seq![bad_number(cs, i, r.suffix->0, r.end)]
        } else {
            seq![]
        };
        LexStep { kind: Some(kind), end: r.end, diags, safe: true }
    } else if is_ident_start(c) {
        let e = ident_end(cs, i);
        LexStep { kind: Some(word_kind(cs.subrange(i, e))), end: e, diags: seq![], safe: true }
    } else if c == '+' {
        one_or_two(cs, i, '+', TokenKind::PlusPlus, TokenKind::Plus)
    } else if c == '-' {
        one_or_two(cs, i, '>', TokenKind::Arrow, TokenKind::Minus)
    } else if c == '*' {
        single(TokenKind::Star, i)
    } else if c == '/' {
        single(TokenKind::Slash, i)
    } else if c == '%' {
        single(TokenKind::Percent, i)
    } else if c == '=' {
        one_or_two(cs, i, '=', TokenKind::EqEq, TokenKind::Eq)
    } else if c == '!' {
        one_or_two(cs, i, '=', TokenKind::BangEq, TokenKind::Bang)
    } else if c == '<' {
        one_or_two(cs, i, '=', TokenKind::LtEq, TokenKind::Lt)
    } else if c == '>' {
        one_or_two(cs, i, '=', TokenKind::GtEq, TokenKind::Gt)
    } else if c == '&' {
        if i + 1 < cs.len() && cs[i + 1] == '&' {
            LexStep { kind: Some(TokenKind::AmpAmp), end: i + 2, diags: seq![], safe: true }
        } else {
            LexStep { kind: None, end: i + 1, diags: seq![lone_ampersand(i)], safe: true }
        }
    } else if c == '|' {
        one_or_two(cs, i, '|', TokenKind::PipePipe, TokenKind::Pipe)
    } else if c == '(' {
        single(TokenKind::LParen, i)
    } else if c == ')' {
        single(TokenKind::RParen, i)
    } else if c == '{' {
        single(TokenKind::LBrace, i)
    } else if c == '}' {
        single(TokenKind::RBrace, i)
    } else if c == '[' {
        single(TokenKind::LBracket, i)
    } else if c == ']' {
        single(TokenKind::RBracket, i)
    } else if c == ',' {
        single(TokenKind::Comma, i)
    } else if c == ';' {
        single(TokenKind::Semi, i)
    } else if c == ':' {
        single(TokenKind::Colon, i)
    } else {
        LexStep { kind: None, end: i + 1, diags: seq![unrecognized(c, i)], safe: is_ascii_char(c) }
    }
}

/// A token as character positions: kind, start and end.
pub struct SpecToken {
    pub kind: TokenKind,
    pub start: int,
    pub end: int,
}

/// The whole run of the lexer from position `i`.
pub struct LexRun {
    pub tokens: Seq<SpecToken>,
    pub diags: Seq<LexDiag>,
    pub safe: bool,
}

/// The tokens, diagnostics and safety of lexing `cs` from position `i`:
/// skip trivia, then either stop with `Eof` or take one step and go on.
pub open spec fn lex_from(cs: Seq<char>, i: int) -> LexRun
    decreases cs.len() - i,
{
    let j = trivia_end(cs, i, false);
    if i < 0 || j < i || j >= cs.len() {
        LexRun { tokens: seq![SpecToken { kind: TokenKind::Eof, start: j, end: j }], diags: seq![], safe: true }
    } else {
        let s = lex_step(cs, j);
        proof { lemma_lex_step(cs, j); }
        if s.end <= j {
            LexRun { tokens: seq![], diags: seq![], safe: false }
        } else {
            let rest = lex_from(cs, s.end);
            LexRun {
                tokens: (if s.kind is Some { seq![SpecToken { kind: s.kind->0, start: j, end: s.end }] } else { seq![] }) + rest.tokens,
                diags: s.diags + rest.diags,
                safe: s.safe && rest.safe,
            }
        }
    }
}

// ---------------------------------------------------------------------------
// Facts about the spec lexer.
// ---------------------------------------------------------------------------

/// Skipping trivia never moves backwards and stays within the source.
pub proof fn lemma_trivia_end(cs: Seq<char>, i: int, in_comment: bool)
    requires
        0 <= i <= cs.len(),
    ensures
        i <= trivia_end(cs, i, in_comment) <= cs.len(),
    decreases cs.len() - i, if in_comment { 1nat } else { 0nat },
{
    if in_comment {
        if i < cs.len() && cs[i] != '\n' {
            lemma_trivia_end(cs, i + 1, true);
        } else {
            lemma_trivia_end(cs, i, false);
        }
    } else if i < cs.len() && is_ws(cs[i]) {
        lemma_trivia_end(cs, i + 1, false);
    } else if i + 1 < cs.len() && cs[i] == '/' && cs[i + 1] == '/' {
        lemma_trivia_end(cs, i + 2, true);
    }
}

/// An identifier scan ends within the source, at or after its start.
pub proof fn lemma_ident_end(cs: Seq<char>, i: int)
    requires
        0 <= i <= cs.len(),
    ensures
        i <= ident_end(cs, i) <= cs.len(),
        forall|k: int| i <= k < ident_end(cs, i) ==> is_ident_char(#[trigger] cs[k]),
    decreases cs.len() - i,
{
    if i < cs.len() && is_ident_char(cs[i]) {
        lemma_ident_end(cs, i + 1);
    }
}

/// A number scan ends within the source, at or after `j`.
pub proof fn lemma_num_scan(cs: Seq<char>, j: int, has_dot: bool)
    requires
        0 <= j <= cs.len(),
    ensures
        j <= num_scan(cs, j, has_dot).end <= cs.len(),
        has_dot ==> num_scan(cs, j, has_dot).has_dot,
    decreases cs.len() - j,
{
    if j < cs.len() && is_digit(cs[j]) {
        lemma_num_scan(cs, j + 1, has_dot);
    } else if j + 1 < cs.len() && cs[j] == '.' && !has_dot && is_digit(cs[j + 1]) {
        lemma_num_scan(cs, j + 1, true);
    } else if j < cs.len() && is_ident_start(cs[j]) {
        lemma_ident_end(cs, j);
    }
}

/// A string scan ends within the source, at or after `j`.
pub proof fn lemma_str_scan(cs: Seq<char>, j: int, start: int)
    requires
        0 <= j <= cs.len(),
    ensures
        j <= str_scan(cs, j, start).end <= cs.len(),
    decreases cs.len() - j,
{
    if j < cs.len() && cs[j] != '\n' {
        if cs[j] == '\\' {
            if j + 1 < cs.len() {
                lemma_str_scan(cs, j + 2, start);
            }
        } else if cs[j] != '"' {
            lemma_str_scan(cs, j + 1, start);
        }
    }
}

/// Each step consumes at least one character and stays within the source.
pub proof fn lemma_lex_step(cs: Seq<char>, i: int)
    requires
        0 <= i < cs.len(),
    ensures
        i < lex_step(cs, i).end <= cs.len(),
{
    let c = cs[i];
    if c == '"' {
        lemma_str_scan(cs, i + 1, i);
    } else if is_digit(c) {
        lemma_num_scan(cs, i + 1, false);
        assert(num_scan(cs, i, false) == num_scan(cs, i + 1, false));
    } else if is_ident_start(c) {
        lemma_ident_end(cs, i + 1);
        assert(ident_end(cs, i) == ident_end(cs, i + 1));
    }
}

/// A lexer step never produces an `Eof` token.
pub proof fn lemma_step_not_eof(cs: Seq<char>, i: int)
    requires
        0 <= i < cs.len(),
    ensures
        lex_step(cs, i).kind matches Some(k) ==> k != TokenKind::Eof,
{
}

/// The tokens of a run of the lexer: at least one, the last is `Eof` (at the
/// end of the trailing whitespace) and no other is; they lie within the
/// source, in order, without overlapping.
pub proof fn lemma_lex_tokens(cs: Seq<char>, i: int)
    requires
        0 <= i <= cs.len(),
    ensures
        ({
            let ts = lex_from(cs, i).tokens;
            &&& ts.len() >= 1
            &&& ts.last().kind == TokenKind::Eof
            &&& ts.last().start == ts.last().end
            &&& forall|k: int| 0 <= k < ts.len() - 1 ==> (#[trigger] ts[k]).kind != TokenKind::Eof
            &&& forall|k: int| 0 <= k < ts.len() ==> i <= (#[trigger] ts[k]).start <= ts[k].end <= cs.len()
            &&& forall|k: int, l: int| 0 <= k < l < ts.len() ==> (#[trigger] ts[k]).end <= (#[trigger] ts[l]).start
        }),
    decreases cs.len() - i,
{
    lemma_trivia_end(cs, i, false);
    let j = trivia_end(cs, i, false);
    if j < cs.len() {
        lemma_lex_step(cs, j);
        lemma_step_not_eof(cs, j);
        let st = lex_step(cs, j);
        lemma_lex_tokens(cs, st.end);
        let rest = lex_from(cs, st.end).tokens;
        let head: Seq<SpecToken> = if st.kind is Some { seq![SpecToken { kind: st.kind->0, start: j, end: st.end }] } else { seq![] };
        let ts = lex_from(cs, i).tokens;
        assert(ts == head + rest);
        assert forall|k: int| 0 <= k < ts.len() - 1 implies (#[trigger] ts[k]).kind != TokenKind::Eof by {
            if k >= head.len() {
                assert(ts[k] == rest[k - head.len()]);
            }
        }
        assert forall|k: int| 0 <= k < ts.len() implies i <= (#[trigger] ts[k]).start <= ts[k].end <= cs.len() by {
            if k >= head.len() {
                assert(ts[k] == rest[k - head.len()]);
            }
        }
        assert forall|k: int, l: int| 0 <= k < l < ts.len() implies (#[trigger] ts[k]).end <= (#[trigger] ts[l]).start by {
            if k >= head.len() {
                assert(ts[k] == rest[k - head.len()]);
                assert(ts[l] == rest[l - head.len()]);
            } else {
                assert(ts[l] == rest[l - head.len()]);
            }
        }
        assert(ts.last() == rest.last());
    }
}

/// The UTF-8 encoding of a concatenation is the concatenation of the
/// encodings.
pub proof fn lemma_encode_concat(a: Seq<char>, b: Seq<char>)
    ensures
        encode_utf8(a + b) == encode_utf8(a) + encode_utf8(b),
    decreases a.len(),
{
    if a.len() == 0 {
        assert(a + b =~= b);
        assert(encode_utf8(a) =~= Seq::<u8>::empty());
        assert(encode_utf8(a) + encode_utf8(b) =~= encode_utf8(b));
    } else {
        lemma_encode_concat(a.drop_first(), b);
        assert((a + b).drop_first() =~= a.drop_first() + b);
        assert((a + b)[0] == a[0]);
        assert(encode_utf8(a + b) =~= encode_scalar(a[0] as u32) + (encode_utf8(a.drop_first()) + encode_utf8(b)));
    }
}

/// Moving one character forward moves the byte offset by its width, and no
/// offset passes the length of the whole encoding.
pub proof fn lemma_byte_offset_step(cs: Seq<char>, i: int)
    requires
        0 <= i < cs.len(),
    ensures
        byte_offset(cs, i + 1) == byte_offset(cs, i) + char_width(cs[i]),
        byte_offset(cs, i + 1) <= encode_utf8(cs).len(),
{
    lemma_encode_concat(cs.subrange(0, i), seq![cs[i]]);
    assert(cs.subrange(0, i + 1) =~= cs.subrange(0, i) + seq![cs[i]]);
    assert(seq![cs[i]].drop_first() =~= Seq::<char>::empty());
    assert(encode_utf8(seq![cs[i]]) =~= encode_scalar(cs[i] as u32) + encode_utf8(Seq::<char>::empty()));
    assert(encode_utf8(Seq::<char>::empty()) =~= Seq::<u8>::empty());
    lemma_encode_concat(cs.subrange(0, i + 1), cs.subrange(i + 1, cs.len() as int));
    assert(cs.subrange(0, i + 1) + cs.subrange(i + 1, cs.len() as int) =~= cs);
}

} // verus!

verus! {

// ---------------------------------------------------------------------------
// The executable lexer.
// ---------------------------------------------------------------------------

/// Whether `t` is the token `st` of source `cs` in file `fid`.
pub open spec fn token_matches(t: Token, st: SpecToken, cs: Seq<char>, fid: u32) -> bool {
    &&& t.kind == st.kind
    &&& t.text@ == cs.subrange(st.start, st.end)
    &&& t.span.file_id == fid
    &&& t.span.start == byte_offset(cs, st.start)
    &&& t.span.end == byte_offset(cs, st.end)
}

/// Whether `d` is the error `ld` of source `cs` in file `fid`.
pub open spec fn diag_matches(d: Diagnostic, ld: LexDiag, cs: Seq<char>, fid: u32) -> bool {
    &&& d.code.0@ == ld.code
    &&& d.message@ == ld.message
    &&& d.severity == Severity::Error
    &&& d.span.file_id == fid
    &&& d.span.start == byte_offset(cs, ld.start)
    &&& d.span.end == byte_offset(cs, ld.end)
    &&& d.labels@.len() == 1
    &&& d.labels@[0].span == Span { file_id: fid, start: byte_offset(cs, ld.label.0) as usize,
        end: byte_offset(cs, ld.label.1) as usize }
    &&& d.labels@[0].message@ == ld.label.2
    &&& d.notes@.len() == 0
    &&& d.help matches Some(h) && h@ == ld.help
    &&& match ld.fix {
        Some(desc) => d.quickfixes@.len() == 1 && d.quickfixes@[0].span == d.span
            && d.quickfixes@[0].replacement@.len() == 0 && d.quickfixes@[0].description@ == desc,
        None => d.quickfixes@.len() == 0,
    }
}

/// Token by token, `ts` are the tokens `sts`.
pub open spec fn tokens_match(ts: Seq<Token>, sts: Seq<SpecToken>, cs: Seq<char>, fid: u32) -> bool {
    &&& ts.len() == sts.len()
    &&& forall|k: int| 0 <= k < ts.len() ==> token_matches(#[trigger] ts[k], sts[k], cs, fid)
}

/// Diagnostic by diagnostic, `ds` are the errors `lds`.
pub open spec fn diags_match(ds: Seq<Diagnostic>, lds: Seq<LexDiag>, cs: Seq<char>, fid: u32) -> bool {
    &&& ds.len() == lds.len()
    &&& forall|k: int| 0 <= k < ds.len() ==> diag_matches(#[trigger] ds[k], lds[k], cs, fid)
}

/// The number of UTF-8 bytes of a character.
fn utf8_width(c: char) -> (r: usize)
    ensures
        r == char_width(c),
        1 <= r <= 4,
{
    let v = c as u32;
    if v <= 0x7f {
        1
    } else if v <= 0x7ff {
        2
    } else if v <= 0xffff {
        3
    } else {
        4
    }
}

/// The LM lexer: the characters of the source, the current position (as a
/// character index and as a byte offset) and the diagnostics so far.
pub struct Lexer {
    chars: Vec<char>,
    file_id: u32,
    pos: usize,
    byte: usize,
    total: usize,
    diagnostics: Vec<Diagnostic>,
}

impl Lexer {
    /// The characters of the source.
    pub closed spec fn source(&self) -> Seq<char> {
        self.chars@
    }

    /// The file identifier used in spans.
    pub closed spec fn file(&self) -> u32 {
        self.file_id
    }

    /// A lexer that has not consumed anything yet.
    pub closed spec fn ready(&self) -> bool {
        &&& self.pos == 0
        &&& self.byte == 0
        &&& self.diagnostics@.len() == 0
        &&& self.total == encode_utf8(self.chars@).len()
    }

    spec fn wf(&self) -> bool {
        &&& self.pos <= self.chars@.len()
        &&& self.byte == byte_offset(self.chars@, self.pos as int)
        &&& self.total == encode_utf8(self.chars@).len()
    }

    /// Create a new lexer for the given source text and file identifier.
    pub fn new(source: &str, file_id: u32) -> (r: Lexer)
        requires
            encode_utf8(source@).len() <= usize::MAX,
        ensures
            r.source() == source@,
            r.file() == file_id,
            r.ready(),
    {
        let chars = chars_of(source);
        let total = source.len();
        Lexer { chars, file_id, pos: 0, byte: 0, total, diagnostics: Vec::new() }
    }

    /// Moves one character forward.
    fn advance(&mut self)
        requires
            old(self).wf(),
            old(self).pos < old(self).chars@.len(),
        ensures
            final(self).wf(),
            final(self).pos == old(self).pos + 1,
            final(self).byte == old(self).byte + char_width(old(self).chars@[old(self).pos as int]),
            final(self).chars == old(self).chars,
            final(self).file_id == old(self).file_id,
            final(self).diagnostics == old(self).diagnostics,
    {
        proof { lemma_byte_offset_step(self.chars@, self.pos as int); }
        let _n = self.chars.len();
        let w = utf8_width(self.chars[self.pos]);
        self.byte = self.byte + w;
        self.pos = self.pos + 1;
    }

    /// The source text between two character positions.
    fn text(&self, start: usize, end: usize) -> (r: String)
        requires
            start <= end <= self.chars@.len(),
        ensures
            r@ == self.chars@.subrange(start as int, end as int),
    {
        let mut r = String::new();
        let mut i: usize = start;
        while i < end
            invariant
                start <= i <= end <= self.chars@.len(),
                r@ == self.chars@.subrange(start as int, i as int),
            decreases end - i,
        {
            push_char(&mut r, self.chars[i]);
            i = i + 1;
            assert(r@ =~= self.chars@.subrange(start as int, i as int));
        }
        r
    }

    /// Build a token from a start position to the current position.
    fn make_token(&self, kind: TokenKind, start: usize, start_byte: usize) -> (r: Token)
        requires
            self.wf(),
            start <= self.pos,
            start_byte == byte_offset(self.chars@, start as int),
        ensures
            token_matches(r, SpecToken { kind, start: start as int, end: self.pos as int }, self.chars@, self.file_id),
    {
        Token::new(kind, Span::new(self.file_id, start_byte, self.byte), self.text(start, self.pos))
    }

    /// Skip whitespace and line comments.
    fn skip_whitespace_and_comments(&mut self)
        requires
            old(self).wf(),
        ensures
            final(self).wf(),
            final(self).pos == trivia_end(old(self).chars@, old(self).pos as int, false),
            final(self).chars == old(self).chars,
            final(self).file_id == old(self).file_id,
            final(self).diagnostics == old(self).diagnostics,
    {
        let ghost target = trivia_end(self.chars@, self.pos as int, false);
        loop
            invariant
                self.wf(),
                self.chars == old(self).chars,
                self.file_id == old(self).file_id,
                self.diagnostics == old(self).diagnostics,
                trivia_end(self.chars@, self.pos as int, false) == target,
                target == trivia_end(old(self).chars@, old(self).pos as int, false),
            decreases self.chars@.len() - self.pos,
        {
            if self.pos >= self.chars.len() {
                assert(trivia_end(self.chars@, self.pos as int, false) == self.pos as int);
                return;
            }
            let ghost p0 = self.pos;
            let c = self.chars[self.pos];
            if c == ' ' || c == '\t' || c == '\n' || c == '\r' {
                self.advance();
            } else if c == '/' && self.pos + 1 < self.chars.len() && self.chars[self.pos + 1] == '/' {
                self.advance();
                self.advance();
                while self.pos < self.chars.len() && self.chars[self.pos] != '\n'
                    invariant
                        self.wf(),
                        self.chars == old(self).chars,
                        self.file_id == old(self).file_id,
                        self.diagnostics == old(self).diagnostics,
                        trivia_end(self.chars@, self.pos as int, true) == target,
                        self.pos > p0,
                    decreases self.chars@.len() - self.pos,
                {
                    self.advance();
                }
                proof {
                    assert(trivia_end(self.chars@, self.pos as int, true) == trivia_end(self.chars@, self.pos as int, false));
                }
            } else {
                assert(trivia_end(self.chars@, self.pos as int, false) == self.pos as int);
                return;
            }
        }
    }

    /// Advance over identifier characters.
    fn skip_ident_chars(&mut self)
        requires
            old(self).wf(),
        ensures
            final(self).wf(),
            final(self).pos == ident_end(old(self).chars@, old(self).pos as int),
            old(self).pos <= final(self).pos,
            final(self).chars == old(self).chars,
            final(self).file_id == old(self).file_id,
            final(self).diagnostics == old(self).diagnostics,
    {
        let ghost target = ident_end(self.chars@, self.pos as int);
        proof { lemma_ident_end(self.chars@, self.pos as int); }
        while self.pos < self.chars.len() && is_ident_char_exec(self.chars[self.pos])
            invariant
                self.wf(),
                self.chars == old(self).chars,
                self.file_id == old(self).file_id,
                self.diagnostics == old(self).diagnostics,
                ident_end(self.chars@, self.pos as int) == target,
                target == ident_end(old(self).chars@, old(self).pos as int),
                old(self).pos <= self.pos,
            decreases self.chars@.len() - self.pos,
        {
            self.advance();
        }
    }
}

impl Lexer {
    /// Records a diagnostic.
    fn report(&mut self, d: Diagnostic, Ghost(ld): Ghost<LexDiag>)
        requires
            old(self).wf(),
            diag_matches(d, ld, old(self).chars@, old(self).file_id),
        ensures
            final(self).wf(),
            final(self).pos == old(self).pos,
            final(self).chars == old(self).chars,
            final(self).file_id == old(self).file_id,
            extends_diags(old(self).diagnostics@, final(self).diagnostics@, seq![ld], old(self).chars@, old(self).file_id),
    {
        self.diagnostics.push(d);
        proof {
            let o = old(self).diagnostics@;
            assert(self.diagnostics@.subrange(0, o.len() as int) =~= o);
            assert(self.diagnostics@.subrange(o.len() as int, self.diagnostics@.len() as int) =~= seq![d]);
        }
    }

    /// Lex a string literal, handling escape sequences.
    ///
    /// Produces E0002 for unterminated strings and E0001 for invalid escapes.
    fn lex_string(&mut self) -> (r: Token)
        requires
            old(self).wf(),
            old(self).pos < old(self).chars@.len(),
            old(self).chars@[old(self).pos as int] == '"',
            str_scan(old(self).chars@, old(self).pos + 1, old(self).pos as int).safe,
        ensures
            final(self).wf(),
            final(self).chars == old(self).chars,
            final(self).file_id == old(self).file_id,
            final(self).pos == str_scan(old(self).chars@, old(self).pos + 1, old(self).pos as int).end,
            token_matches(r, SpecToken { kind: TokenKind::StringLit, start: old(self).pos as int, end: final(self).pos as int }, old(self).chars@, old(self).file_id),
            extends_diags(old(self).diagnostics@, final(self).diagnostics@,
                str_scan(old(self).chars@, old(self).pos + 1, old(self).pos as int).diags, old(self).chars@, old(self).file_id),
    {
        let start = self.pos;
        let start_byte = self.byte;
        let ghost cs = self.chars@;
        let ghost target = str_scan(cs, start + 1, start as int);
        proof {
            assert(('"' as u32) == 34);
            assert(encode_scalar(34u32).len() == 1);
            assert(char_width(cs[start as int]) == 1);
        }
        self.advance();
        let quote_end = self.byte;
        let ghost mut acc: Seq<LexDiag> = seq![];
        proof {
            lemma_extends_refl(old(self).diagnostics@, cs, self.file_id);
        }
        loop
            invariant
                self.wf(),
                self.chars == old(self).chars,
                cs == self.chars@,
                cs == old(self).chars@,
                start == old(self).pos,
                self.file_id == old(self).file_id,
                start < self.pos <= cs.len(),
                start_byte == byte_offset(cs, start as int),
                quote_end == start_byte + 1,
                quote_end == byte_offset(cs, start + 1),
                target == str_scan(cs, start + 1, start as int),
                str_scan(cs, self.pos as int, start as int).end == target.end,
                target.diags == acc + str_scan(cs, self.pos as int, start as int).diags,
                str_scan(cs, self.pos as int, start as int).safe,
                extends_diags(old(self).diagnostics@, self.diagnostics@, acc, cs, self.file_id),
            decreases cs.len() - self.pos,
        {
            let ghost p = self.pos as int;
            if self.pos >= self.chars.len() || self.chars[self.pos] == '\n' {
                assert(str_scan(cs, p, start as int).end == p);
                let d = Diagnostic::error("E0002", "unterminated string literal", Span::new(self.file_id, start_byte, self.byte))
                    .with_label(Label::new(Span::new(self.file_id, start_byte, quote_end), "string starts here"))
                    .with_help("add a closing `\"` to terminate the string");
                let ghost ld = unterminated(start as int, self.pos as int);
                let ghost before = self.diagnostics@;
                self.report(d, Ghost(ld));
                proof { lemma_extends_trans(old(self).diagnostics@, before, self.diagnostics@, acc, seq![ld], cs, self.file_id); }
                return self.make_token(TokenKind::StringLit, start, start_byte);
            }
            let c = self.chars[self.pos];
            if c == '\\' {
                let bs_byte = self.byte;
                let bs = self.pos;
                self.advance();
                if self.pos >= self.chars.len() {
                    assert(str_scan(cs, p, start as int).end == p + 1);
                    let d = Diagnostic::error("E0002", "unterminated string literal", Span::new(self.file_id, start_byte, self.byte))
                        .with_label(Label::new(Span::new(self.file_id, start_byte, quote_end), "string starts here"))
                        .with_help("add a closing `\"` to terminate the string");
                    let ghost ld = unterminated(start as int, self.pos as int);
                    let ghost before = self.diagnostics@;
                    self.report(d, Ghost(ld));
                    proof { lemma_extends_trans(old(self).diagnostics@, before, self.diagnostics@, acc, seq![ld], cs, self.file_id); }
                    return self.make_token(TokenKind::StringLit, start, start_byte);
                }
                let e = self.chars[self.pos];
                self.advance();
                if !(e == '\\' || e == '"' || e == 'n' || e == 't') {
                    let mut msg = owned("invalid escape sequence `\\");
                    push_char(&mut msg, e);
                    append(&mut msg, "`");
                    let span = Span::new(self.file_id, bs_byte, self.byte);
                    let d = Diagnostic::with_severity("E0001", Severity::Error, msg, span)
                        .with_label(Label::new(span, "unknown escape"))
                        .with_help("valid escapes are: \\\\, \\\", \\n, \\t");
                    let ghost ld = bad_escape(e, bs as int);
                    let ghost before = self.diagnostics@;
                    self.report(d, Ghost(ld));
                    proof {
                        lemma_extends_trans(old(self).diagnostics@, before, self.diagnostics@, acc, seq![ld], cs, self.file_id);
                        assert(acc + seq![ld] + str_scan(cs, self.pos as int, start as int).diags
                            =~= acc + (seq![ld] + str_scan(cs, self.pos as int, start as int).diags));
                        acc = acc + seq![ld];
                    }
                }
            } else if c == '"' {
                self.advance();
                proof {
                    assert(str_scan(cs, p, start as int).end == p + 1);
                    assert(acc + seq![] =~= acc);
                }
                return self.make_token(TokenKind::StringLit, start, start_byte);
            } else {
                self.advance();
            }
        }
    }
}

impl Lexer {
    /// Lex a number literal (integer or float).
    ///
    /// Produces E0003 for a number followed by letters.
    fn lex_number(&mut self) -> (r: Token)
        requires
            old(self).wf(),
            old(self).pos < old(self).chars@.len(),
            is_digit(old(self).chars@[old(self).pos as int]),
        ensures
            final(self).wf(),
            final(self).chars == old(self).chars,
            final(self).file_id == old(self).file_id,
            final(self).pos == lex_step(old(self).chars@, old(self).pos as int).end,
            token_matches(r, SpecToken { kind: lex_step(old(self).chars@, old(self).pos as int).kind->0,
                start: old(self).pos as int, end: final(self).pos as int }, old(self).chars@, old(self).file_id),
            extends_diags(old(self).diagnostics@, final(self).diagnostics@,
                lex_step(old(self).chars@, old(self).pos as int).diags, old(self).chars@, old(self).file_id),
    {
        let start = self.pos;
        let start_byte = self.byte;
        let ghost cs = self.chars@;
        let ghost target = num_scan(cs, start as int, false);
        let mut has_dot = false;
        proof { lemma_extends_refl(old(self).diagnostics@, cs, self.file_id); }
        loop
            invariant
                self.wf(),
                self.chars == old(self).chars,
                cs == self.chars@,
                cs == old(self).chars@,
                start == old(self).pos,
                self.file_id == old(self).file_id,
                self.diagnostics == old(self).diagnostics,
                start <= self.pos <= cs.len(),
                start_byte == byte_offset(cs, start as int),
                target == num_scan(cs, start as int, false),
                num_scan(cs, self.pos as int, has_dot) == target,
                start < cs.len() && is_digit(cs[start as int]),
            ensures
                num_scan(cs, self.pos as int, has_dot).end == self.pos,
                num_scan(cs, self.pos as int, has_dot).suffix is None,
                num_scan(cs, self.pos as int, has_dot).has_dot == has_dot,
            decreases cs.len() - self.pos,
        {
            if self.pos >= self.chars.len() {
                break;
            }
            let c = self.chars[self.pos];
            if '0' <= c && c <= '9' {
                self.advance();
            } else if c == '.' {
                if has_dot {
                    break;
                }
                if self.pos + 1 < self.chars.len() && '0' <= self.chars[self.pos + 1] && self.chars[self.pos + 1] <= '9' {
                    has_dot = true;
                    self.advance();
                } else {
                    break;
                }
            } else if ('a' <= c && c <= 'z') || ('A' <= c && c <= 'Z') || c == '_' {
                let suffix_start = self.pos;
                let suffix_byte = self.byte;
                proof {
                    assert(num_scan(cs, suffix_start as int, has_dot) == NumScan {
                        end: ident_end(cs, suffix_start as int), has_dot, suffix: Some(suffix_start as int) });
                }
                self.skip_ident_chars();
                let span = Span::new(self.file_id, start_byte, self.byte);
                let text = self.text(start, self.pos);
                let mut msg = owned("invalid number literal `");
                append(&mut msg, text.as_str());
                append(&mut msg, "`");
                let mut label = owned("unexpected suffix `");
                let suffix = self.text(suffix_start, self.pos);
                append(&mut label, suffix.as_str());
                append(&mut label, "`");
                let d = Diagnostic::with_severity("E0003", Severity::Error, msg, span)
                    .with_label(Label::with_message(Span::new(self.file_id, suffix_byte, self.byte), label))
                    .with_help("number literals must not have alphabetic suffixes");
                let ghost ld = bad_number(cs, start as int, suffix_start as int, self.pos as int);
                self.report(d, Ghost(ld));
                let kind = if has_dot { TokenKind::FloatLit } else { TokenKind::IntLit };
                return self.make_token(kind, start, start_byte);
            } else {
                break;
            }
        }
        let kind = if has_dot { TokenKind::FloatLit } else { TokenKind::IntLit };
        self.make_token(kind, start, start_byte)
    }

    /// Lex an identifier or keyword.
    fn lex_identifier_or_keyword(&mut self) -> (r: Token)
        requires
            old(self).wf(),
            old(self).pos < old(self).chars@.len(),
            is_ident_start(old(self).chars@[old(self).pos as int]),
        ensures
            final(self).wf(),
            final(self).chars == old(self).chars,
            final(self).file_id == old(self).file_id,
            final(self).diagnostics == old(self).diagnostics,
            final(self).pos == lex_step(old(self).chars@, old(self).pos as int).end,
            token_matches(r, SpecToken { kind: lex_step(old(self).chars@, old(self).pos as int).kind->0,
                start: old(self).pos as int, end: final(self).pos as int }, old(self).chars@, old(self).file_id),
    {
        let start = self.pos;
        let start_byte = self.byte;
        self.skip_ident_chars();
        let text = self.text(start, self.pos);
        let kind = keyword_kind(&text);
        Token::new(kind, Span::new(self.file_id, start_byte, self.byte), text)
    }

    /// A token of two characters when the next character is `c2`, else of
    /// one.
    fn one_or_two(&mut self, c2: char, two: TokenKind, one: TokenKind) -> (r: Token)
        requires
            old(self).wf(),
            old(self).pos < old(self).chars@.len(),
        ensures
            final(self).wf(),
            final(self).chars == old(self).chars,
            final(self).file_id == old(self).file_id,
            final(self).diagnostics == old(self).diagnostics,
            final(self).pos == one_or_two(old(self).chars@, old(self).pos as int, c2, two, one).end,
            token_matches(r, SpecToken { kind: one_or_two(old(self).chars@, old(self).pos as int, c2, two, one).kind->0,
                start: old(self).pos as int, end: final(self).pos as int }, old(self).chars@, old(self).file_id),
    {
        let start = self.pos;
        let start_byte = self.byte;
        self.advance();
        if self.pos < self.chars.len() && self.chars[self.pos] == c2 {
            self.advance();
            self.make_token(two, start, start_byte)
        } else {
            self.make_token(one, start, start_byte)
        }
    }

    /// A token of one character.
    fn single(&mut self, kind: TokenKind) -> (r: Token)
        requires
            old(self).wf(),
            old(self).pos < old(self).chars@.len(),
        ensures
            final(self).wf(),
            final(self).chars == old(self).chars,
            final(self).file_id == old(self).file_id,
            final(self).diagnostics == old(self).diagnostics,
            final(self).pos == old(self).pos + 1,
            token_matches(r, SpecToken { kind, start: old(self).pos as int, end: final(self).pos as int }, old(self).chars@, old(self).file_id),
    {
        let start = self.pos;
        let start_byte = self.byte;
        self.advance();
        self.make_token(kind, start, start_byte)
    }
}

impl Lexer {
    /// Try to lex the next token. Returns `None` when an error was reported
    /// instead (the bad character is consumed).
    fn next_token(&mut self) -> (r: Option<Token>)
        requires
            old(self).wf(),
            old(self).pos < old(self).chars@.len(),
            lex_step(old(self).chars@, old(self).pos as int).safe,
        ensures
            final(self).wf(),
            final(self).chars == old(self).chars,
            final(self).file_id == old(self).file_id,
            final(self).pos == lex_step(old(self).chars@, old(self).pos as int).end,
            r is Some <==> lex_step(old(self).chars@, old(self).pos as int).kind is Some,
            r matches Some(t) ==> token_matches(t, SpecToken { kind: lex_step(old(self).chars@, old(self).pos as int).kind->0,
                start: old(self).pos as int, end: final(self).pos as int }, old(self).chars@, old(self).file_id),
            extends_diags(old(self).diagnostics@, final(self).diagnostics@,
                lex_step(old(self).chars@, old(self).pos as int).diags, old(self).chars@, old(self).file_id),
    {
        let ghost cs = self.chars@;
        proof { lemma_extends_refl(old(self).diagnostics@, cs, self.file_id); }
        let c = self.chars[self.pos];
        if c == '"' {
            return Some(self.lex_string());
        }
        if '0' <= c && c <= '9' {
            return Some(self.lex_number());
        }
        if ('a' <= c && c <= 'z') || ('A' <= c && c <= 'Z') || c == '_' {
            return Some(self.lex_identifier_or_keyword());
        }
        if c == '+' {
            Some(self.one_or_two('+', TokenKind::PlusPlus, TokenKind::Plus))
        } else if c == '-' {
            Some(self.one_or_two('>', TokenKind::Arrow, TokenKind::Minus))
        } else if c == '*' {
            Some(self.single(TokenKind::Star))
        } else if c == '/' {
            Some(self.single(TokenKind::Slash))
        } else if c == '%' {
            Some(self.single(TokenKind::Percent))
        } else if c == '=' {
            Some(self.one_or_two('=', TokenKind::EqEq, TokenKind::Eq))
        } else if c == '!' {
            Some(self.one_or_two('=', TokenKind::BangEq, TokenKind::Bang))
        } else if c == '<' {
            Some(self.one_or_two('=', TokenKind::LtEq, TokenKind::Lt))
        } else if c == '>' {
            Some(self.one_or_two('=', TokenKind::GtEq, TokenKind::Gt))
        } else if c == '&' {
            if 1 < self.chars.len() - self.pos && self.chars[self.pos + 1] == '&' {
                let start = self.pos;
                let start_byte = self.byte;
                self.advance();
                self.advance();
                Some(self.make_token(TokenKind::AmpAmp, start, start_byte))
            } else {
                let start = self.pos;
                let start_byte = self.byte;
                self.advance();
                let span = Span::new(self.file_id, start_byte, self.byte);
                let d = Diagnostic::error("E0001", "unrecognized character `&`", span)
                    .with_label(Label::new(span, "expected `&&` for logical AND"))
                    .with_help("use `&&` for logical AND; single `&` is not supported in LM");
                self.report(d, Ghost(lone_ampersand(start as int)));
                None
            }
        } else if c == '|' {
            Some(self.one_or_two('|', TokenKind::PipePipe, TokenKind::Pipe))
        } else if c == '(' {
            Some(self.single(TokenKind::LParen))
        } else if c == ')' {
            Some(self.single(TokenKind::RParen))
        } else if c == '{' {
            Some(self.single(TokenKind::LBrace))
        } else if c == '}' {
            Some(self.single(TokenKind::RBrace))
        } else if c == '[' {
            Some(self.single(TokenKind::LBracket))
        } else if c == ']' {
            Some(self.single(TokenKind::RBracket))
        } else if c == ',' {
            Some(self.single(TokenKind::Comma))
        } else if c == ';' {
            Some(self.single(TokenKind::Semi))
        } else if c == ':' {
            Some(self.single(TokenKind::Colon))
        } else {
            let start = self.pos;
            let start_byte = self.byte;
            self.advance();
            let span = Span::new(self.file_id, start_byte, self.byte);
            let mut msg = owned("unrecognized character `");
            push_char(&mut msg, c);
            append(&mut msg, "`");
            let mut fix = owned("remove `");
            push_char(&mut fix, c);
            append(&mut fix, "`");
            let d = Diagnostic::with_severity("E0001", Severity::Error, msg, span)
                .with_label(Label::new(span, "not a valid LM token"))
                .with_help("LM uses ASCII operators and identifiers")
                .with_quickfix(QuickFix::new(span, "", fix.as_str()));
            proof { reveal_strlit(""); }
            self.report(d, Ghost(unrecognized(c, start as int)));
            None
        }
    }

    /// Consume the lexer and return all tokens and diagnostics.
    ///
    /// Whitespace and comments are skipped. An `Eof` token is always
    /// appended at the end.
    pub fn tokenize(self) -> (r: (Vec<Token>, Vec<Diagnostic>))
        requires
            self.ready(),
            lex_from(self.source(), 0).safe,
        ensures
            tokens_match(r.0@, lex_from(self.source(), 0).tokens, self.source(), self.file()),
            diags_match(r.1@, lex_from(self.source(), 0).diags, self.source(), self.file()),
    {
        let mut lx = self;
        let ghost cs = lx.chars@;
        let ghost full = lex_from(cs, 0);
        let ghost mut tacc: Seq<SpecToken> = seq![];
        let ghost mut dacc: Seq<LexDiag> = seq![];
        let mut tokens: Vec<Token> = Vec::new();
        proof {
            assert(tacc + full.tokens =~= full.tokens);
            assert(dacc + full.diags =~= full.diags);
            assert(lx.diagnostics@ =~= Seq::<Diagnostic>::empty());
        }
        loop
            invariant_except_break
                full.tokens == tacc + lex_from(cs, lx.pos as int).tokens,
                full.diags == dacc + lex_from(cs, lx.pos as int).diags,
            invariant
                lx.wf(),
                cs == lx.chars@,
                cs == self.chars@,
                lx.file_id == self.file_id,
                full == lex_from(cs, 0),
                lex_from(cs, lx.pos as int).safe,
                tokens_match(tokens@, tacc, cs, lx.file_id),
                diags_match(lx.diagnostics@, dacc, cs, lx.file_id),
            ensures
                tokens_match(tokens@, full.tokens, cs, lx.file_id),
                diags_match(lx.diagnostics@, full.diags, cs, lx.file_id),
            decreases cs.len() - lx.pos,
        {
            let ghost p = lx.pos as int;
            proof { lemma_trivia_end(cs, p, false); }
            lx.skip_whitespace_and_comments();
            if lx.pos >= lx.chars.len() {
                let eof = Token::new(TokenKind::Eof, Span::point(lx.file_id, lx.byte), String::new());
                let ghost st = SpecToken { kind: TokenKind::Eof, start: lx.pos as int, end: lx.pos as int };
                proof {
                    assert(eof.text@ =~= cs.subrange(st.start, st.end));
                    assert(lex_from(cs, p).tokens == seq![st]);
                    assert(lex_from(cs, p).diags == Seq::<LexDiag>::empty());
                    assert(full.diags =~= dacc);
                }
                tokens.push(eof);
                proof {
                    assert(full.tokens =~= tacc.push(st));
                    tacc = tacc.push(st);
                }
                break;
            }
            let ghost j = lx.pos as int;
            let ghost step = lex_step(cs, j);
            proof {
                lemma_lex_step(cs, j);
                assert(lex_from(cs, p).tokens == (if step.kind is Some { seq![SpecToken { kind: step.kind->0, start: j, end: step.end }] } else { seq![] }) + lex_from(cs, step.end).tokens);
            }
            let ghost before = lx.diagnostics@;
            let t = lx.next_token();
            proof {
                let added = lx.diagnostics@.subrange(before.len() as int, lx.diagnostics@.len() as int);
                assert forall|k: int| 0 <= k < lx.diagnostics@.len() implies diag_matches(#[trigger] lx.diagnostics@[k], (dacc + step.diags)[k], cs, lx.file_id) by {
                    if k < before.len() {
                        assert(lx.diagnostics@[k] == lx.diagnostics@.subrange(0, before.len() as int)[k]);
                    } else {
                        assert(lx.diagnostics@[k] == added[k - before.len()]);
                    }
                }
                assert(full.diags =~= (dacc + step.diags) + lex_from(cs, lx.pos as int).diags);
                dacc = dacc + step.diags;
            }
            match t {
                Some(tok) => {
                    let ghost st = SpecToken { kind: step.kind->0, start: j, end: step.end };
                    tokens.push(tok);
                    proof {
                        assert(full.tokens =~= tacc.push(st) + lex_from(cs, lx.pos as int).tokens);
                        tacc = tacc.push(st);
                    }
                }
                None => {
                    proof {
                        assert(full.tokens =~= tacc + lex_from(cs, lx.pos as int).tokens);
                    }
                }
            }
        }
        (tokens, lx.diagnostics)
    }
}

/// The kind of a word, as [`word_kind`] gives it.
fn keyword_kind(w: &String) -> (r: TokenKind)
    ensures
        r == word_kind(w@),
{
    if eq_lit(w, "let") { TokenKind::Let }
    else if eq_lit(w, "fn") { TokenKind::Fn }
    else if eq_lit(w, "io") { TokenKind::Io }
    else if eq_lit(w, "pure") { TokenKind::Pure }
    else if eq_lit(w, "type") { TokenKind::Type }
    else if eq_lit(w, "match") { TokenKind::Match }
    else if eq_lit(w, "if") { TokenKind::If }
    else if eq_lit(w, "else") { TokenKind::Else }
    else if eq_lit(w, "true") || eq_lit(w, "false") { TokenKind::BoolLit }
    else if eq_lit(w, "_") { TokenKind::Underscore }
    else { TokenKind::Ident }
}

/// `new_ds` is `old_ds` followed by diagnostics that are the errors `lds`.
pub open spec fn extends_diags(old_ds: Seq<Diagnostic>, new_ds: Seq<Diagnostic>, lds: Seq<LexDiag>, cs: Seq<char>, fid: u32) -> bool {
    &&& new_ds.len() == old_ds.len() + lds.len()
    &&& new_ds.subrange(0, old_ds.len() as int) == old_ds
    &&& diags_match(new_ds.subrange(old_ds.len() as int, new_ds.len() as int), lds, cs, fid)
}

/// Nothing added is an extension by no errors.
pub proof fn lemma_extends_refl(ds: Seq<Diagnostic>, cs: Seq<char>, fid: u32)
    ensures
        extends_diags(ds, ds, seq![], cs, fid),
{
    assert(ds.subrange(0, ds.len() as int) =~= ds);
    assert(ds.subrange(ds.len() as int, ds.len() as int) =~= Seq::<Diagnostic>::empty());
}

/// Extensions compose.
pub proof fn lemma_extends_trans(a: Seq<Diagnostic>, b: Seq<Diagnostic>, c: Seq<Diagnostic>, l1: Seq<LexDiag>, l2: Seq<LexDiag>, cs: Seq<char>, fid: u32)
    requires
        extends_diags(a, b, l1, cs, fid),
        extends_diags(b, c, l2, cs, fid),
    ensures
        extends_diags(a, c, l1 + l2, cs, fid),
{
    assert(c.subrange(0, a.len() as int) =~= b.subrange(0, a.len() as int)) by {
        assert forall|k: int| 0 <= k < a.len() implies c[k] == b[k] by {
            assert(c.subrange(0, b.len() as int)[k] == c[k]);
        }
    }
    let tail = c.subrange(a.len() as int, c.len() as int);
    assert forall|k: int| 0 <= k < tail.len() implies diag_matches(#[trigger] tail[k], (l1 + l2)[k], cs, fid) by {
        if k < l1.len() {
            assert(tail[k] == c[a.len() + k]);
            assert(c[a.len() + k] == c.subrange(0, b.len() as int)[a.len() + k]);
            assert(b.subrange(a.len() as int, b.len() as int)[k] == b[a.len() + k]);
        } else {
            assert(tail[k] == c.subrange(b.len() as int, c.len() as int)[k - l1.len()]);
        }
    }
}

/// Whether a character continues an identifier.
fn is_ident_char_exec(c: char) -> (r: bool)
    ensures
        r == is_ident_char(c),
{
    ('a' <= c && c <= 'z') || ('A' <= c && c <= 'Z') || ('0' <= c && c <= '9') || c == '_'
}

/// The characters of a string, in order (`str::chars`).
pub fn chars_of(s: &str) -> (r: Vec<char>)
    ensures
        r@ == s@,
{
    let mut r: Vec<char> = Vec::new();
    for c in it: s.chars()
        invariant
            r@ == it.seq().subrange(0, it.index() as int),
    {
        r.push(c);
    }
    r
}

// ---------------------------------------------------------------
// Deciding whether a source can be lexed
// ---------------------------------------------------------------

/// The end of whitespace and comments from `i`.
fn trivia_end_at(cs: &Vec<char>, i: usize) -> (r: usize)
    requires
        i <= cs@.len(),
    ensures
        r == trivia_end(cs@, i as int, false),
{
    let mut j = i;
    let mut in_comment = false;
    while j < cs.len()
        invariant
            i <= j <= cs@.len(),
            trivia_end(cs@, i as int, false) == trivia_end(cs@, j as int, in_comment),
        decreases cs@.len() - j + if in_comment { 1int } else { 0int },
    {
        let c = cs[j];
        if in_comment {
            if c != '\n' {
                j = j + 1;
            } else {
                in_comment = false;
            }
        } else if c == ' ' || c == '\t' || c == '\n' || c == '\r' {
            j = j + 1;
        } else if c == '/' && j + 1 < cs.len() && cs[j + 1] == '/' {
            j = j + 2;
            in_comment = true;
        } else {
            return j;
        }
    }
    assert(trivia_end(cs@, j as int, true) == trivia_end(cs@, j as int, false));
    j
}

/// The end of the identifier characters from `i`.
fn ident_end_at(cs: &Vec<char>, i: usize) -> (r: usize)
    requires
        i <= cs@.len(),
    ensures
        r == ident_end(cs@, i as int),
{
    let mut j = i;
    while j < cs.len() && is_ident_char_exec(cs[j])
        invariant
            i <= j <= cs@.len(),
            ident_end(cs@, i as int) == ident_end(cs@, j as int),
        decreases cs@.len() - j,
    {
        j = j + 1;
    }
    j
}

/// The end of a number literal whose digits start at `i`.
fn num_end_at(cs: &Vec<char>, i: usize) -> (r: usize)
    requires
        i <= cs@.len(),
    ensures
        r == num_scan(cs@, i as int, false).end,
{
    let mut j = i;
    let mut has_dot = false;
    while j < cs.len()
        invariant
            i <= j <= cs@.len(),
            num_scan(cs@, i as int, false).end == num_scan(cs@, j as int, has_dot).end,
        decreases cs@.len() - j,
    {
        let c = cs[j];
        if '0' <= c && c <= '9' {
            j = j + 1;
        } else if c == '.' && !has_dot && j + 1 < cs.len() && '0' <= cs[j + 1] && cs[j + 1] <= '9' {
            j = j + 1;
            has_dot = true;
        } else if ('a' <= c && c <= 'z') || ('A' <= c && c <= 'Z') || c == '_' {
            return ident_end_at(cs, j);
        } else {
            return j;
        }
    }
    j
}

/// The end of a string literal opened at `start`, scanned from `j`, and
/// whether every escaped character in it is ASCII.
fn str_end_at(cs: &Vec<char>, j: usize, start: usize) -> (r: (usize, bool))
    requires
        j <= cs@.len(),
    ensures
        r.0 == str_scan(cs@, j as int, start as int).end,
        r.1 == str_scan(cs@, j as int, start as int).safe,
{
    let mut k = j;
    let mut ok = true;
    while k < cs.len()
        invariant
            j <= k <= cs@.len(),
            str_scan(cs@, j as int, start as int).end == str_scan(cs@, k as int, start as int).end,
            str_scan(cs@, j as int, start as int).safe == (ok && str_scan(cs@, k as int, start as int).safe),
        decreases cs@.len() - k,
    {
        let c = cs[k];
        if c == '\n' {
            return (k, ok);
        } else if c == '\\' {
            if k + 1 >= cs.len() {
                return (k + 1, ok);
            }
            let e = cs[k + 1];
            if !(e == '\\' || e == '"' || e == 'n' || e == 't') && !((e as u32) < 128) {
                ok = false;
            }
            if k + 2 > cs.len() {
                return (k + 2, ok);
            }
            k = k + 2;
        } else if c == '"' {
            return (k + 1, ok);
        } else {
            k = k + 1;
        }
    }
    (k, ok)
}

/// The end and safety of the lexer step at token start `i`.
fn step_at(cs: &Vec<char>, i: usize) -> (r: (usize, bool))
    requires
        i < cs@.len(),
    ensures
        r.0 == lex_step(cs@, i as int).end,
        r.1 == lex_step(cs@, i as int).safe,
{
    let c = cs[i];
    let n = cs.len();
    if c == '"' {
        str_end_at(cs, i + 1, i)
    } else if '0' <= c && c <= '9' {
        (num_end_at(cs, i), true)
    } else if ('a' <= c && c <= 'z') || ('A' <= c && c <= 'Z') || c == '_' {
        (ident_end_at(cs, i), true)
    } else if (c == '+' && i + 1 < n && cs[i + 1] == '+')
        || (c == '-' && i + 1 < n && cs[i + 1] == '>')
        || ((c == '=' || c == '!' || c == '<' || c == '>') && i + 1 < n && cs[i + 1] == '=')
        || (c == '&' && i + 1 < n && cs[i + 1] == '&')
        || (c == '|' && i + 1 < n && cs[i + 1] == '|')
    {
        (i + 2, true)
    } else {
        (i + 1, (c as u32) < 128)
    }
}

/// Whether the lexer can take `source` apart: no character outside ASCII
/// stands where a token starts or right after a `\` in a string literal.
pub fn lexes_safely(source: &str) -> (r: bool)
    ensures
        r == lex_from(source@, 0).safe,
{
    let cs = chars_of(source);
    let mut i: usize = 0;
    while i <= cs.len()
        invariant
            cs@ == source@,
            i <= cs@.len(),
            lex_from(cs@, 0).safe == lex_from(cs@, i as int).safe,
        decreases cs@.len() - i,
    {
        let j = trivia_end_at(&cs, i);
        proof { lemma_trivia_end(cs@, i as int, false); }
        if j >= cs.len() {
            return true;
        }
        let (end, ok) = step_at(&cs, j);
        proof { lemma_lex_step(cs@, j as int); }
        if !ok {
            return false;
        }
        i = end;
    }
    true
}

} // verus!
