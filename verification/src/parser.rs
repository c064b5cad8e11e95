//! Parser for the LM programming language: recursive descent with Pratt
//! parsing for operator precedence, turning a token stream into a
//! [`Program`].
//!
//! When a parse error occurs the parser records a diagnostic, resynchronizes
//! at a statement or declaration boundary and goes on, so that one run
//! reports several errors. Error codes: E0100 unexpected token, E0101
//! expected expression, E0102 expected type annotation, E0103 expected
//! pattern, E0104 unclosed delimiter, E0105 missing semicolon, E0106
//! expected `->` in a match arm, E0107 expected `=`, E0108 missing `else`.
use vstd::prelude::*;
use crate::ast::{Program, Decl, DeclKind, Effect, Param, Variant, Expr, ExprKind, LitValue, BinOp, UnOp, MatchArm, Pattern, PatternKind, TypeAnnotation, TypeKind};
use crate::diagnostics::{Diagnostic, Label, Span, Severity};
use crate::lexer::{Token, TokenKind};
use crate::literals::{parse_i64, parse_i64_spec, unescape_string, string_value};
use crate::text::{owned, append, cat, eq_lit};

verus! {

/// The error codes of the parser.
pub open spec fn is_parse_code(c: Seq<char>) -> bool {
    c == "E0100"@ || c == "E0101"@ || c == "E0102"@ || c == "E0103"@ || c == "E0104"@
        || c == "E0105"@ || c == "E0106"@ || c == "E0107"@ || c == "E0108"@
}

/// A diagnostic the parser may produce: an error with one of its codes.
pub open spec fn is_parse_error(d: Diagnostic) -> bool {
    d.severity == Severity::Error && is_parse_code(d.code.0@)
}

/// The index of the first `Eof` token of `ts` at or after `i` (the length
/// when there is none).
pub open spec fn first_eof_from(ts: Seq<Token>, i: int) -> int
    decreases ts.len() - i,
{
    if i < 0 || i >= ts.len() {
        ts.len() as int
    } else if ts[i].kind == TokenKind::Eof {
        i
    } else {
        first_eof_from(ts, i + 1)
    }
}

/// The index of the first `Eof` token of `ts`.
pub open spec fn first_eof(ts: Seq<Token>) -> int {
    first_eof_from(ts, 0)
}

/// Whether `ts` holds an `Eof` token.
pub open spec fn has_eof(ts: Seq<Token>) -> bool {
    exists|k: int| 0 <= k < ts.len() && #[trigger] ts[k].kind == TokenKind::Eof
}

/// The first `Eof` is an `Eof`, and no token before it is one.
pub proof fn lemma_first_eof(ts: Seq<Token>, i: int)
    requires
        0 <= i <= ts.len(),
        exists|k: int| i <= k < ts.len() && #[trigger] ts[k].kind == TokenKind::Eof,
    ensures
        i <= first_eof_from(ts, i) < ts.len(),
        ts[first_eof_from(ts, i)].kind == TokenKind::Eof,
        forall|k: int| i <= k < first_eof_from(ts, i) ==> ts[k].kind != TokenKind::Eof,
    decreases ts.len() - i,
{
    if ts[i].kind != TokenKind::Eof {
        let k = choose|k: int| i <= k < ts.len() && #[trigger] ts[k].kind == TokenKind::Eof;
        assert(k != i);
        assert(i + 1 <= k < ts.len() && ts[k].kind == TokenKind::Eof);
        lemma_first_eof(ts, i + 1);
    }
}

/// The LM parser: the token stream, the current position and the
/// diagnostics so far.
pub struct Parser {
    tokens: Vec<Token>,
    pos: usize,
    eof: Ghost<int>,
    diagnostics: Vec<Diagnostic>,
}

/// `b` is `a` with one more diagnostic: the E0100 error that the integer
/// literal `text` at `span` is out of range for `Int`.
pub open spec fn reports_range(a: Seq<Diagnostic>, b: Seq<Diagnostic>, text: Seq<char>, span: Span) -> bool {
    &&& b == a.push(b.last())
    &&& b.last().code.0@ == "E0100"@
    &&& b.last().severity == Severity::Error
    &&& b.last().message@ == "integer literal `"@ + text + "` is out of range for Int"@
    &&& b.last().span == span
}

/// A diagnostic by its code, message and span.
pub struct DiagV {
    pub code: Seq<char>,
    pub message: Seq<char>,
    pub span: Span,
}

/// The code, message and span of a diagnostic.
pub open spec fn dview(d: Diagnostic) -> DiagV {
    DiagV { code: d.code.0@, message: d.message@, span: d.span }
}

/// The code, message and span of each diagnostic.
pub open spec fn dviews(ds: Seq<Diagnostic>) -> Seq<DiagV> {
    ds.map_values(|d: Diagnostic| dview(d))
}

/// `b` is `a` followed by diagnostics whose codes, messages and spans are `dv`.
pub open spec fn grows_by(a: Seq<Diagnostic>, b: Seq<Diagnostic>, dv: Seq<DiagV>) -> bool {
    &&& b.len() >= a.len()
    &&& b.subrange(0, a.len() as int) == a
    &&& dviews(b.subrange(a.len() as int, b.len() as int)) == dv
}

/// A pattern's value: what it matches, with strings by their characters.
pub enum PatV {
    Int(i64),
    Float(Seq<char>),
    Str(Seq<char>),
    Bool(bool),
    Unit,
    Wild,
    Bind(Seq<char>),
    Variant(Seq<char>, Seq<SPat>),
}

/// A pattern's value with its span.
pub struct SPat {
    pub kind: PatV,
    pub span: Span,
}

/// The value of a pattern.
pub open spec fn pview(p: Pattern) -> SPat
    decreases p, 1nat,
{
    SPat {
        kind: match p.kind {
            PatternKind::Literal { value } => match value {
                LitValue::Int(v) => PatV::Int(v),
                LitValue::Float(t) => PatV::Float(t@),
                LitValue::String(t) => PatV::Str(t@),
                LitValue::Bool(b) => PatV::Bool(b),
                LitValue::Unit => PatV::Unit,
            },
            PatternKind::Ident { name } => PatV::Bind(name@),
            PatternKind::Wildcard => PatV::Wild,
            PatternKind::Variant { name, fields } => PatV::Variant(name@, pviews(fields@)),
        },
        span: p.span,
    }
}

/// The values of a list of patterns.
pub open spec fn pviews(ps: Seq<Pattern>) -> Seq<SPat>
    decreases ps, 0nat,
{
    if ps.len() == 0 {
        seq![]
    } else {
        seq![pview(ps[0])] + pviews(ps.drop_first())
    }
}

/// The value of a parsed pattern, if any.
pub open spec fn opt_pview(r: Option<Pattern>) -> Option<SPat> {
    match r {
        Some(p) => Some(pview(p)),
        None => None,
    }
}

/// The position after consuming the token at `i` (the `Eof` at `eof` is
/// never consumed).
pub open spec fn step(i: int, eof: int) -> int {
    if i < eof { i + 1 } else { i }
}

/// The E0100 report of an integer literal `text` out of range at `span`.
pub open spec fn range_diag(text: Seq<char>, span: Span) -> DiagV {
    DiagV { code: "E0100"@, message: "integer literal `"@ + text + "` is out of range for Int"@, span }
}

/// The pattern grammar, read from token `i` of `ts` whose `Eof` is at `eof`:
/// the pattern (none on an error), the position after it and the
/// diagnostics. A pattern is an integer, float, string or boolean literal, a
/// negative number, `_`, a lower-case binding name, or an upper-case
/// variant name with an optional parenthesized, comma-separated list of
/// sub-patterns.
pub open spec fn pattern_at(ts: Seq<Token>, i: int, eof: int) -> (Option<SPat>, int, Seq<DiagV>)
    decreases eof - i, 0nat,
{
    let t = ts[i];
    let j = step(i, eof);
    if t.kind == TokenKind::IntLit {
        match parse_i64_spec(t.text@) {
            Some(v) => (Some(SPat { kind: PatV::Int(v), span: t.span }), j, seq![]),
            None => (None, j, seq![range_diag(t.text@, t.span)]),
        }
    } else if t.kind == TokenKind::FloatLit {
        (Some(SPat { kind: PatV::Float(t.text@), span: t.span }), j, seq![])
    } else if t.kind == TokenKind::StringLit {
        (Some(SPat { kind: PatV::Str(string_value(t.text@)), span: t.span }), j, seq![])
    } else if t.kind == TokenKind::BoolLit {
        (Some(SPat { kind: PatV::Bool(t.text@ == "true"@), span: t.span }), j, seq![])
    } else if t.kind == TokenKind::Ident {
        if t.text@.len() > 0 && 'A' <= t.text@[0] <= 'Z' {
            if ts[j].kind == TokenKind::LParen && i < eof && j < eof {
                let (fs, e, ds) = fields_at(ts, j + 1, eof, seq![], seq![]);
                let closed = ts[e].kind == TokenKind::RParen;
                let end = if closed { step(e, eof) } else { e };
                let ds2 = if closed {
                    ds
                } else {
                    ds.push(DiagV { code: "E0104"@, message: "unclosed `(` in variant pattern"@, span: ts[e].span })
                };
                let last = ts[if end > 0 { end - 1 } else { 0 }].span;
                (Some(SPat { kind: PatV::Variant(t.text@, fs), span: t.span.spec_merge(last) }), end, ds2)
            } else {
                (Some(SPat { kind: PatV::Variant(t.text@, seq![]), span: t.span }), j, seq![])
            }
        } else {
            (Some(SPat { kind: PatV::Bind(t.text@), span: t.span }), j, seq![])
        }
    } else if t.kind == TokenKind::Underscore {
        (Some(SPat { kind: PatV::Wild, span: t.span }), j, seq![])
    } else if t.kind == TokenKind::Minus {
        let u = ts[j];
        let k = step(j, eof);
        let merged = t.span.spec_merge(u.span);
        if u.kind == TokenKind::IntLit {
            match parse_i64_spec(seq!['-'] + u.text@) {
                Some(v) => (Some(SPat { kind: PatV::Int(v), span: merged }), k, seq![]),
                None => (None, k, seq![range_diag(seq!['-'] + u.text@, merged)]),
            }
        } else if u.kind == TokenKind::FloatLit {
            (Some(SPat { kind: PatV::Float("-"@ + u.text@), span: merged }), k, seq![])
        } else {
            (None, j, seq![DiagV { code: "E0103"@, message: "expected a number after `-` in pattern"@, span: u.span }])
        }
    } else {
        (None, i, seq![DiagV { code: "E0103"@, message: "expected pattern, found `"@ + t.text@ + "`"@, span: t.span }])
    }
}

/// The sub-patterns of a variant pattern, read from token `j` after the
/// sub-patterns `acc` and the diagnostics `ds` so far, up to `)` or the end:
/// each one is read (a failed one is left out), and a comma leads to the
/// next. Gives the sub-patterns, the position of the token that ends them
/// and the diagnostics.
pub open spec fn fields_at(ts: Seq<Token>, j: int, eof: int, acc: Seq<SPat>, ds: Seq<DiagV>) -> (Seq<SPat>, int, Seq<DiagV>)
    decreases eof - j, 1nat,
{
    if ts[j].kind == TokenKind::RParen || j == eof {
        (acc, j, ds)
    } else {
        let (p, k, d) = pattern_at(ts, j, eof);
        let acc2 = match p { Some(q) => acc.push(q), None => acc };
        if ts[k].kind == TokenKind::Comma && j <= k && k < eof {
            fields_at(ts, k + 1, eof, acc2, ds + d)
        } else {
            (acc2, k, ds + d)
        }
    }
}

/// Adding a pattern to a list adds its value to the list's values.
proof fn lemma_pviews_push(ps: Seq<Pattern>, p: Pattern)
    ensures
        pviews(ps.push(p)) == pviews(ps).push(pview(p)),
    decreases ps.len(),
{
    if ps.len() == 0 {
        assert(ps.push(p).drop_first() =~= Seq::<Pattern>::empty());
        assert(pviews(Seq::<Pattern>::empty()) =~= Seq::<SPat>::empty());
        assert(pviews(ps.push(p)) =~= seq![pview(p)]);
    } else {
        lemma_pviews_push(ps.drop_first(), p);
        assert(ps.push(p).drop_first() =~= ps.drop_first().push(p));
        assert(pviews(ps.push(p)) =~= pviews(ps).push(pview(p)));
    }
}

/// Adding an arm whose body has a value to arms with values adds its value.
proof fn lemma_armviews_push(arms: Seq<MatchArm>, a: MatchArm)
    requires
        armviews(arms) is Some,
        eview(a.body) is Some,
    ensures
        armviews(arms.push(a)) == Some(armviews(arms)->0.push(ArmV { pat: pview(a.pattern), body: eview(a.body)->0, span: a.span })),
    decreases arms.len(),
{
    let av = ArmV { pat: pview(a.pattern), body: eview(a.body)->0, span: a.span };
    if arms.len() == 0 {
        assert(arms.push(a).drop_first() =~= Seq::<MatchArm>::empty());
        assert(armviews(Seq::<MatchArm>::empty()) == Some(Seq::<ArmV>::empty()));
        assert(armviews(arms.push(a))->0 =~= seq![av]);
    } else {
        lemma_armviews_push(arms.drop_first(), a);
        assert(arms.push(a).drop_first() =~= arms.drop_first().push(a));
        assert(arms.push(a)[0] == arms[0]);
        let rest = armviews(arms.drop_first())->0;
        let h = ArmV { pat: pview(arms[0].pattern), body: eview(arms[0].body)->0, span: arms[0].span };
        assert(seq![h] + rest.push(av) =~= (seq![h] + rest).push(av));
    }
}

/// Adding an expression with a value to a list with values adds its value.
proof fn lemma_eviews_push(es: Seq<Expr>, e: Expr)
    requires
        eviews(es) is Some,
        eview(e) is Some,
    ensures
        eviews(es.push(e)) == Some(eviews(es)->0.push(eview(e)->0)),
    decreases es.len(),
{
    if es.len() == 0 {
        assert(es.push(e).drop_first() =~= Seq::<Expr>::empty());
        assert(eviews(Seq::<Expr>::empty()) == Some(Seq::<SExpr>::empty()));
        assert(eviews(es.push(e)) == Some(seq![eview(e)->0] + Seq::<SExpr>::empty()));
        assert(seq![eview(e)->0] + Seq::<SExpr>::empty() =~= Seq::<SExpr>::empty().push(eview(e)->0));
    } else {
        lemma_eviews_push(es.drop_first(), e);
        assert(es.push(e).drop_first() =~= es.drop_first().push(e));
        assert(es.push(e)[0] == es[0]);
        let rest = eviews(es.drop_first())->0;
        assert(seq![eview(es[0])->0] + rest.push(eview(e)->0) =~= (seq![eview(es[0])->0] + rest).push(eview(e)->0));
    }
}

/// Nothing added is growth by nothing.
pub proof fn lemma_grows_none(a: Seq<Diagnostic>)
    ensures
        grows_by(a, a, seq![]),
{
    assert(a.subrange(0, a.len() as int) =~= a);
    assert(dviews(a.subrange(a.len() as int, a.len() as int)) =~= Seq::<DiagV>::empty());
}

/// One diagnostic pushed is growth by its view.
pub proof fn lemma_grows_push(a: Seq<Diagnostic>, d: Diagnostic)
    ensures
        grows_by(a, a.push(d), seq![dview(d)]),
{
    assert(a.push(d).subrange(0, a.len() as int) =~= a);
    assert(dviews(a.push(d).subrange(a.len() as int, a.len() + 1 as int)) =~= seq![dview(d)]);
}

/// Growth by `acc` followed by one pushed diagnostic is growth by `acc`
/// and its view.
pub proof fn lemma_grows_append(a: Seq<Diagnostic>, b: Seq<Diagnostic>, c: Seq<Diagnostic>, acc: Seq<DiagV>)
    requires
        grows_by(a, b, acc),
        c == b.push(c.last()),
    ensures
        grows_by(a, c, acc.push(dview(c.last()))),
{
    lemma_grows_push(b, c.last());
    lemma_grows_trans(a, b, c, acc, seq![dview(c.last())]);
    assert(acc + seq![dview(c.last())] =~= acc.push(dview(c.last())));
}

/// Growth adds up.
pub proof fn lemma_grows_trans(a: Seq<Diagnostic>, b: Seq<Diagnostic>, c: Seq<Diagnostic>, d1: Seq<DiagV>, d2: Seq<DiagV>)
    requires
        grows_by(a, b, d1),
        grows_by(b, c, d2),
    ensures
        grows_by(a, c, d1 + d2),
{
    assert(c.subrange(0, a.len() as int) =~= b.subrange(0, a.len() as int));
    assert(c.subrange(a.len() as int, c.len() as int)
        =~= b.subrange(a.len() as int, b.len() as int) + c.subrange(b.len() as int, c.len() as int));
    assert(dviews(c.subrange(a.len() as int, c.len() as int)) =~= d1 + d2);
}

/// What reading an atom at token `i` of `ts` (with `Eof` at `eof`) gives:
/// the expression `r`, the position `p1` after it, and diagnostics grown
/// from `d0` to `d1`. A literal token gives that literal (an out-of-range
/// integer an error expression and E0100), `()` the unit literal, an
/// identifier a variable or a variant construction of that name, `let`,
/// `if`, `match`, `[` and `{` an expression of that form, `(` a
/// parenthesized expression spanning to its closing token; any other token
/// gives nothing and an E0101 at it, with nothing consumed.
pub open spec fn atom_ok(ts: Seq<Token>, i: int, eof: int, r: Option<Expr>, p1: int, d0: Seq<Diagnostic>, d1: Seq<Diagnostic>) -> bool {
    let t = ts[i];
    let j = step(i, eof);
    if t.kind == TokenKind::IntLit {
        &&& r matches Some(e) && e.span == t.span
        &&& p1 == j
        &&& match parse_i64_spec(t.text@) {
            Some(v) => r->0.kind == (ExprKind::Literal { value: LitValue::Int(v) }) && d1 == d0,
            None => r->0.kind is Error && grows_by(d0, d1, seq![range_diag(t.text@, t.span)]),
        }
    } else if t.kind == TokenKind::FloatLit {
        &&& r matches Some(e) && e.span == t.span && (e.kind matches ExprKind::Literal { value: LitValue::Float(x) } && x@ == t.text@)
        &&& p1 == j && d1 == d0
    } else if t.kind == TokenKind::StringLit {
        &&& r matches Some(e) && e.span == t.span
            && (e.kind matches ExprKind::Literal { value: LitValue::String(x) } && x@ == string_value(t.text@))
        &&& p1 == j && d1 == d0
    } else if t.kind == TokenKind::BoolLit {
        &&& r matches Some(e) && e.span == t.span && e.kind == (ExprKind::Literal { value: LitValue::Bool(t.text@ == "true"@) })
        &&& p1 == j && d1 == d0
    } else if t.kind == TokenKind::Ident {
        r matches Some(e) && ((e.kind matches ExprKind::Ident { name } && name@ == t.text@)
            || (e.kind matches ExprKind::VariantConstruct { name, .. } && name@ == t.text@))
    } else if t.kind == TokenKind::Let {
        r matches Some(e) ==> e.kind is LetExpr
    } else if t.kind == TokenKind::If {
        r matches Some(e) ==> e.kind is IfElse
    } else if t.kind == TokenKind::Match {
        r matches Some(e) ==> e.kind is Match
    } else if t.kind == TokenKind::LBracket {
        r matches Some(e) ==> e.kind is ListLiteral
    } else if t.kind == TokenKind::LBrace {
        r matches Some(e) ==> e.kind is Block
    } else if t.kind == TokenKind::LParen {
        if ts[j].kind == TokenKind::RParen {
            &&& r matches Some(e) && e.kind == (ExprKind::Literal { value: LitValue::Unit })
                && e.span == t.span.spec_merge(ts[j].span)
            &&& p1 == step(j, eof) && d1 == d0
        } else {
            r matches Some(e) ==> e.span == t.span.spec_merge(ts[p1 - 1].span)
        }
    } else {
        &&& r is None && p1 == i
        &&& grows_by(d0, d1, seq![DiagV { code: "E0101"@, message: "expected expression, found `"@ + t.text@ + "`"@, span: t.span }])
    }
}

/// What parsing the tokens `ts` gives: the program `p` and the parse
/// errors `ds`. The program's span is the first token's span when it has no
/// declaration, else that span merged with the `Eof` token's; a stream that
/// is only `Eof` gives no declaration and no diagnostic.
pub open spec fn parse_outcome(ts: Seq<Token>, p: Program, ds: Seq<Diagnostic>) -> bool {
    &&& forall|k: int| 0 <= k < ds.len() ==> is_parse_error(#[trigger] ds[k])
    &&& p.decls@.len() == 0 ==> p.span == ts[0].span
    &&& p.decls@.len() > 0 ==> p.span == ts[0].span.spec_merge(ts[first_eof(ts)].span)
    &&& ts[0].kind == TokenKind::Eof ==> p.decls@.len() == 0 && ds.len() == 0
    &&& program_at(ts, 0, first_eof(ts), seq![], seq![]) matches Some((lets, dv)) ==> {
        &&& p.decls@.len() == lets.len()
        &&& forall|k: int| 0 <= k < lets.len() ==> decl_is(#[trigger] p.decls@[k], lets[k])
        &&& dviews(ds) == dv
    }
}

/// A token kind that begins an expression.
pub open spec fn starts_expr(k: TokenKind) -> bool {
    k == TokenKind::IntLit || k == TokenKind::FloatLit || k == TokenKind::StringLit || k == TokenKind::BoolLit
        || k == TokenKind::Ident || k == TokenKind::Let || k == TokenKind::If || k == TokenKind::Match
        || k == TokenKind::LBracket || k == TokenKind::LBrace || k == TokenKind::LParen
        || k == TokenKind::Bang || k == TokenKind::Minus
}

/// A literal token kind.
pub open spec fn literal_kind(k: TokenKind) -> bool {
    k == TokenKind::IntLit || k == TokenKind::FloatLit || k == TokenKind::StringLit || k == TokenKind::BoolLit
}

/// A literal's value, with strings by their characters.
pub enum LitV {
    Int(i64),
    Float(Seq<char>),
    Str(Seq<char>),
    Bool(bool),
    Unit,
}

/// The value of a literal.
pub open spec fn lit_view(v: LitValue) -> LitV {
    match v {
        LitValue::Int(n) => LitV::Int(n),
        LitValue::Float(t) => LitV::Float(t@),
        LitValue::String(t) => LitV::Str(t@),
        LitValue::Bool(b) => LitV::Bool(b),
        LitValue::Unit => LitV::Unit,
    }
}

/// A top-level `let`: its name, its type annotation if any, the value's
/// value and the declaration's span.
pub struct LetV {
    pub name: Seq<char>,
    pub annotation: Option<STy>,
    pub value: SExpr,
    pub span: Span,
}

/// A function parameter: its name, its type annotation if any and its span.
pub struct ParamV {
    pub name: Seq<char>,
    pub annotation: Option<STy>,
    pub span: Span,
}

/// The name, annotation and span of a parameter.
pub open spec fn param_view(p: Param) -> ParamV {
    ParamV { name: p.name@, annotation: opt_ann_view(p.type_annotation), span: p.span }
}

/// A function definition: its name, effect, parameters, return type if any, the block's
/// expressions and span, and the definition's span.
pub struct FnV {
    pub name: Seq<char>,
    pub effect: Effect,
    pub params: Seq<ParamV>,
    pub ret: Option<STy>,
    pub body: Seq<SExpr>,
    pub body_span: Span,
    pub span: Span,
}

/// A variant of a type definition: its name, field types and span.
pub struct VariantV {
    pub name: Seq<char>,
    pub fields: Seq<STy>,
    pub span: Span,
}

/// The name, field types and span of a variant.
pub open spec fn variant_view(v: Variant) -> VariantV {
    VariantV { name: v.name@, fields: ann_views(v.fields@), span: v.span }
}

/// A type definition: its name, type parameters, variants and span.
pub struct TypeV {
    pub name: Seq<char>,
    pub params: Seq<Seq<char>>,
    pub variants: Seq<VariantV>,
    pub span: Span,
}

/// A top-level declaration of a form that [`simple_decl_at`] reads.
pub enum DeclV {
    Let(LetV),
    Fn(FnV),
    Type(TypeV),
}

/// Declaration `d` is what `dv` describes.
pub open spec fn decl_is(d: Decl, dv: DeclV) -> bool {
    match dv {
        DeclV::Let(lv) => {
            &&& d.kind matches DeclKind::LetDef { name, type_annotation, value }
            &&& d.kind->LetDef_name@ == lv.name
            &&& opt_ann_view(d.kind->LetDef_type_annotation) == lv.annotation
            &&& eview(d.kind->LetDef_value) == Some(lv.value)
            &&& d.span == lv.span
        },
        DeclV::Fn(fv) => {
            &&& d.kind matches DeclKind::FnDef { name, effect, params, return_type, body }
            &&& d.kind->FnDef_name@ == fv.name
            &&& d.kind->FnDef_effect == fv.effect
            &&& d.kind->FnDef_params@.map_values(|p: Param| param_view(p)) == fv.params
            &&& opt_ann_view(d.kind->FnDef_return_type) == fv.ret
            &&& d.kind->FnDef_body.kind matches ExprKind::Block { exprs }
            &&& eviews(d.kind->FnDef_body.kind->Block_exprs@) == Some(fv.body)
            &&& d.kind->FnDef_body.span == fv.body_span
            &&& d.span == fv.span
        },
        DeclV::Type(tv) => {
            &&& d.kind matches DeclKind::TypeDef { name, type_params, variants }
            &&& d.kind->TypeDef_name@ == tv.name
            &&& d.kind->TypeDef_type_params@.map_values(|t: String| t@) == tv.params
            &&& d.kind->TypeDef_variants@.map_values(|v: Variant| variant_view(v)) == tv.variants
            &&& d.span == tv.span
        },
    }
}

/// Reading a variant at token `q`: a name (E0100 when missing, nothing
/// consumed) with optional parenthesized, comma-separated field types
/// ([`types_at`]; E0104 when `)` is missing). Gives the variant (none on
/// an error), the position after it and the diagnostics.
pub open spec fn variant_at(ts: Seq<Token>, q: int, eof: int) -> (Option<VariantV>, int, Seq<DiagV>) {
    let t = ts[q];
    if t.kind != TokenKind::Ident || q >= eof {
        (None, q, seq![DiagV { code: "E0100"@, message: "expected variant name"@, span: t.span }])
    } else if ts[q + 1].kind == TokenKind::LParen {
        let (fs, e, d) = types_at(ts, q + 2, eof, seq![], seq![], TokenKind::RParen);
        let closed = ts[e].kind == TokenKind::RParen;
        let end = if closed { step(e, eof) } else { e };
        let d1 = if closed {
            d
        } else {
            d.push(DiagV { code: "E0104"@, message: "unclosed `(` in variant fields"@, span: ts[e].span })
        };
        (Some(VariantV { name: t.text@, fields: fs, span: t.span.spec_merge(ts[if end > 0 { end - 1 } else { 0 }].span) }), end, d1)
    } else {
        (Some(VariantV { name: t.text@, fields: seq![], span: t.span.spec_merge(t.span) }), q + 1, seq![])
    }
}

/// The variants read from token `j`, after those `acc` and the diagnostics
/// `ds`, up to the end or a token that begins a declaration: a failed one
/// is left out, and `|` leads to the next. Gives the variants, the position
/// where they end and the diagnostics.
pub open spec fn variants_at(ts: Seq<Token>, j: int, eof: int, acc: Seq<VariantV>, ds: Seq<DiagV>) -> (Seq<VariantV>, int, Seq<DiagV>)
    decreases eof - j,
{
    if j >= eof || decl_keyword(ts[j].kind) {
        (acc, j, ds)
    } else {
        let (v, k, d) = variant_at(ts, j, eof);
        let acc2 = match v { Some(x) => acc.push(x), None => acc };
        if ts[k].kind == TokenKind::Pipe && j <= k && k < eof {
            variants_at(ts, k + 1, eof, acc2, ds + d)
        } else {
            (acc2, k, ds + d)
        }
    }
}

/// The type parameter names read from token `j`, after those `acc`, up to
/// `>` or the end: identifiers separated by commas (any other token ends
/// them). Gives the names and the position where they end.
pub open spec fn tparams_at(ts: Seq<Token>, j: int, eof: int, acc: Seq<Seq<char>>) -> (Seq<Seq<char>>, int)
    decreases eof - j,
{
    if ts[j].kind == TokenKind::Gt || j >= eof {
        (acc, j)
    } else {
        let acc2 = if ts[j].kind == TokenKind::Ident { acc.push(ts[j].text@) } else { acc };
        let k = if ts[j].kind == TokenKind::Ident { j + 1 } else { j };
        if ts[k].kind == TokenKind::Comma && k < eof {
            tparams_at(ts, k + 1, eof, acc2)
        } else {
            (acc2, k)
        }
    }
}

/// Reading a type definition from its `type` at token `i`: a name (E0100
/// when missing), optional `<`-bracketed parameters ([`tparams_at`]; E0104
/// when `>` is missing), `=` (E0107 when missing), an optional leading `|`
/// and the variants ([`variants_at`]). Its span reaches the last variant,
/// or the last token read when there is none.
pub open spec fn type_decl_at(ts: Seq<Token>, i: int, eof: int) -> Option<(Option<DeclV>, int, Seq<DiagV>)> {
    let j = step(i, eof);
    let n = ts[j];
    if n.kind != TokenKind::Ident {
        Some((None, j, seq![DiagV { code: "E0100"@, message: "expected type name"@, span: n.span }]))
    } else if j >= eof {
        None
    } else {
        let k = j + 1;
        let has_params = ts[k].kind == TokenKind::Lt && k < eof;
        let (tps, e) = tparams_at(ts, k + 1, eof, seq![]);
        let tclosed = ts[e].kind == TokenKind::Gt;
        let k2 = if !has_params { k } else if tclosed { step(e, eof) } else { e };
        let dtp = if !has_params || tclosed {
            Seq::<DiagV>::empty()
        } else {
            seq![DiagV { code: "E0104"@, message: "unclosed `<` in type parameters"@, span: ts[e].span }]
        };
        if ts[k2].kind != TokenKind::Eq {
            Some((None, k2, dtp.push(DiagV { code: "E0107"@, message: "expected `=` after type name"@, span: ts[k2].span })))
        } else if k2 >= eof {
            None
        } else {
            let v0 = if ts[k2 + 1].kind == TokenKind::Pipe { k2 + 2 } else { k2 + 1 };
            let (vs, ve, dv) = variants_at(ts, v0, eof, seq![], seq![]);
            let span = if vs.len() > 0 {
                ts[i].span.spec_merge(vs.last().span)
            } else {
                ts[i].span.spec_merge(ts[if ve > 0 { ve - 1 } else { 0 }].span)
            };
            Some((Some(DeclV::Type(TypeV { name: n.text@, params: if has_params { tps } else { seq![] }, variants: vs, span })),
                ve, dtp + dv))
        }
    }
}

/// Where statement recovery inside a block from token `k` stops: at the
/// end, at `;` or at `}`.
pub open spec fn skip_stmt(ts: Seq<Token>, k: int, eof: int) -> int
    decreases eof - k,
{
    if k >= eof || ts[k].kind == TokenKind::Semi || ts[k].kind == TokenKind::RBrace {
        k
    } else {
        skip_stmt(ts, k + 1, eof)
    }
}

/// The expressions of a block read from token `j`, after those `acc` and
/// the diagnostics `ds`, up to `}` or the end: each is an expression
/// ([`frag_bp`]), a failed one is left out and recovery skips to `;` or `}`,
/// and `;` leads to the next. Gives the expressions, the position of the
/// token that ends them and the diagnostics; none when reading an
/// expression gives none.
#[verifier::opaque]
pub open spec fn block_items_at(ts: Seq<Token>, j: int, eof: int, acc: Seq<SExpr>, ds: Seq<DiagV>)
    -> Option<(Seq<SExpr>, int, Seq<DiagV>)>
    decreases eof - j, 3nat,
{
    if ts[j].kind == TokenKind::RBrace || j >= eof {
        Some((acc, j, ds))
    } else {
        match frag_bp(ts, j, eof, 0) {
            None => None,
            Some((a, k, d)) => {
                let acc2 = match a { Some(x) => acc.push(x), None => acc };
                let k2 = match a { Some(_) => k, None => skip_stmt(ts, k, eof) };
                if ts[k2].kind == TokenKind::Semi && j <= k2 && k2 < eof {
                    block_items_at(ts, k2 + 1, eof, acc2, ds + d)
                } else {
                    Some((acc2, k2, ds + d))
                }
            },
        }
    }
}

/// The rest of a block opened by a `{` at `open`, from token `j`: its
/// expressions ([`block_items_at`]) and `}` (E0104 when missing). Gives the
/// expressions and the block's span, the position after it and the
/// diagnostics; none when [`block_items_at`] gives none.
#[verifier::opaque]
pub open spec fn block_rest(ts: Seq<Token>, j: int, eof: int, open: Span) -> Option<(Option<(Seq<SExpr>, Span)>, int, Seq<DiagV>)>
    decreases eof - j, 4nat,
{
    match block_items_at(ts, j, eof, seq![], seq![]) {
        None => None,
        Some((es, e, d)) => {
            let closed = ts[e].kind == TokenKind::RBrace;
            let end = if closed { step(e, eof) } else { e };
            let d1 = if closed { d } else { d.push(DiagV { code: "E0104"@, message: "unclosed `{`"@, span: ts[e].span }) };
            Some((Some((es, open.spec_merge(ts[if end > 0 { end - 1 } else { 0 }].span))), end, d1))
        },
    }
}

/// Reading a block at token `i`: `{` (E0104 when missing, nothing
/// consumed) and the rest ([`block_rest`]).
pub open spec fn block_at(ts: Seq<Token>, i: int, eof: int) -> Option<(Option<(Seq<SExpr>, Span)>, int, Seq<DiagV>)> {
    if ts[i].kind != TokenKind::LBrace {
        Some((None, i, seq![DiagV { code: "E0104"@, message: "expected `{`"@, span: ts[i].span }]))
    } else if i < eof {
        block_rest(ts, i + 1, eof, ts[i].span)
    } else {
        None
    }
}

/// A block's expressions and span as an expression.
pub open spec fn block_expr(es: Seq<SExpr>, sp: Span) -> SExpr {
    SExpr { kind: ExprV::Block(es), span: sp }
}

/// The rest of a `let` expression starting at `start`, from token `j`
/// after `let`: a name (`_` too; E0100 when missing), an optional `: T`, and
/// the rest from `=` ([`let_eq_rest`]).
#[verifier::opaque]
pub open spec fn let_rest(ts: Seq<Token>, j: int, eof: int, start: Span) -> Option<(Option<SExpr>, int, Seq<DiagV>)>
    decreases eof - j, 5nat,
{
    let n = ts[j];
    if n.kind != TokenKind::Ident && n.kind != TokenKind::Underscore {
        Some((None, j, seq![DiagV { code: "E0100"@, message: "expected variable name after `let`"@, span: n.span }]))
    } else if j >= eof {
        None
    } else if ts[j + 1].kind == TokenKind::Colon {
        let (ty, p, d) = type_at(ts, j + 2, eof);
        match ty {
            None => Some((None, p, d)),
            Some(a) => if j < p <= eof { let_eq_rest(ts, p, eof, n.text@, Some(a), start, d) } else { None },
        }
    } else {
        let_eq_rest(ts, j + 1, eof, n.text@, None, start, seq![])
    }
}

/// The rest of a `let` expression named `name` from its `=` at token `q`,
/// after the diagnostics `dpre`: `=` (E0107 when missing), the value, `;`
/// (E0105 when missing, and reading goes on) and the body, both operator
/// expressions ([`frag_bp`]).
#[verifier::opaque]
pub open spec fn let_eq_rest(ts: Seq<Token>, q: int, eof: int, name: Seq<char>, ann: Option<STy>, start: Span,
    dpre: Seq<DiagV>) -> Option<(Option<SExpr>, int, Seq<DiagV>)>
    decreases eof - q, 6nat,
{
    if ts[q].kind != TokenKind::Eq {
        Some((None, q, dpre.push(DiagV { code: "E0107"@, message: "expected `=` in let expression"@, span: ts[q].span })))
    } else if q >= eof {
        None
    } else {
        match frag_bp(ts, q + 1, eof, 0) {
            None => None,
            Some((None, p, d)) => Some((None, p, dpre + d)),
            Some((Some(v), p, d)) => {
                let semi = ts[p].kind == TokenKind::Semi;
                let r = if semi { step(p, eof) } else { p };
                let d1 = if semi {
                    dpre + d
                } else {
                    (dpre + d).push(DiagV { code: "E0105"@, message: "expected `;` after let expression value"@, span: ts[p].span })
                };
                if q < r <= eof {
                    match frag_bp(ts, r, eof, 0) {
                        None => None,
                        Some((None, p2, d2)) => Some((None, p2, d1 + d2)),
                        Some((Some(b), p2, d2)) => Some((Some(SExpr { kind: ExprV::Let(name, ann, Box::new(v), Box::new(b)),
                            span: start.spec_merge(b.span) }), p2, d1 + d2)),
                    }
                } else {
                    None
                }
            },
        }
    }
}

/// The rest of an `if` expression starting at `start`, from its condition
/// at token `j`: the condition (an expression), the `then` block (E0104
/// when `{` is missing), `else` (E0108 when missing), and an `else if` or an `else`
/// block.
#[verifier::opaque]
pub open spec fn if_rest(ts: Seq<Token>, j: int, eof: int, start: Span) -> Option<(Option<SExpr>, int, Seq<DiagV>)>
    decreases eof - j, 5nat,
{
    match frag_bp(ts, j, eof, 0) {
        None => None,
        Some((None, p, d)) => Some((None, p, d)),
        Some((Some(c), p, d)) => if ts[p].kind != TokenKind::LBrace {
            Some((None, p, d.push(DiagV { code: "E0104"@, message: "expected `{`"@, span: ts[p].span })))
        } else if j <= p && p < eof {
            match block_rest(ts, p + 1, eof, ts[p].span) {
                None => None,
                Some((None, q, d2)) => Some((None, q, d + d2)),
                Some((Some((tes, tsp)), q, d2)) => {
                    let d3 = d + d2;
                    if ts[q].kind != TokenKind::Else {
                        Some((None, q, d3.push(DiagV { code: "E0108"@, message: "missing `else` branch in if expression"@, span: ts[q].span })))
                    } else if q >= eof || q <= j {
                        None
                    } else if ts[q + 1].kind == TokenKind::If && q + 1 < eof {
                        match if_rest(ts, q + 2, eof, ts[q + 1].span) {
                            None => None,
                            Some((None, r, d4)) => Some((None, r, d3 + d4)),
                            Some((Some(f), r, d4)) => Some((Some(SExpr { kind: ExprV::If(Box::new(c), Box::new(block_expr(tes, tsp)), Box::new(f)),
                                span: start.spec_merge(f.span) }), r, d3 + d4)),
                        }
                    } else if ts[q + 1].kind != TokenKind::LBrace {
                        Some((None, q + 1, d3.push(DiagV { code: "E0104"@, message: "expected `{`"@, span: ts[q + 1].span })))
                    } else if q + 1 < eof {
                        match block_rest(ts, q + 2, eof, ts[q + 1].span) {
                            None => None,
                            Some((None, r, d4)) => Some((None, r, d3 + d4)),
                            Some((Some((fes, fsp)), r, d4)) => Some((Some(SExpr { kind: ExprV::If(Box::new(c), Box::new(block_expr(tes, tsp)),
                                Box::new(block_expr(fes, fsp))), span: start.spec_merge(fsp) }), r, d3 + d4)),
                        }
                    } else {
                        None
                    }
                },
            }
        } else {
            None
        },
    }
}

/// Reading a match arm at token `j`: a pattern ([`pattern_at`]), `->`
/// (E0106 when missing) and an expression as its body. Gives the arm (none
/// on an error), the position after it and the diagnostics; none when
/// reading the body gives none or no token was read.
#[verifier::opaque]
pub open spec fn arm_at(ts: Seq<Token>, j: int, eof: int) -> Option<(Option<ArmV>, int, Seq<DiagV>)>
    decreases eof - j, 2nat,
{
    let (pat, p1, dp) = pattern_at(ts, j, eof);
    match pat {
        None => Some((None, p1, dp)),
        Some(pv) => if ts[p1].kind != TokenKind::Arrow {
            Some((None, p1, dp.push(DiagV { code: "E0106"@, message: "expected `->` in match arm"@, span: ts[p1].span })))
        } else if j <= p1 && p1 < eof {
            match frag_bp(ts, p1 + 1, eof, 0) {
                None => None,
                Some((None, p2, d2)) => Some((None, p2, dp + d2)),
                Some((Some(b), p2, d2)) => Some((Some(ArmV { pat: pv, body: b, span: ts[j].span.spec_merge(b.span) }), p2, dp + d2)),
            }
        } else {
            None
        },
    }
}

/// Where recovery from a failed match arm at token `k` stops: at the end,
/// at `,` or at `}`.
pub open spec fn skip_arm(ts: Seq<Token>, k: int, eof: int) -> int
    decreases eof - k,
{
    if k >= eof || ts[k].kind == TokenKind::Comma || ts[k].kind == TokenKind::RBrace {
        k
    } else {
        skip_arm(ts, k + 1, eof)
    }
}

/// The arms of a match read from token `j`, after those `acc` and the
/// diagnostics `ds`, up to `}` or the end: a failed arm is left out and
/// recovery skips to `,` or `}`, and a `,` after an arm is consumed.
#[verifier::opaque]
pub open spec fn arms_at(ts: Seq<Token>, j: int, eof: int, acc: Seq<ArmV>, ds: Seq<DiagV>) -> Option<(Seq<ArmV>, int, Seq<DiagV>)>
    decreases eof - j, 3nat,
{
    if ts[j].kind == TokenKind::RBrace || j >= eof {
        Some((acc, j, ds))
    } else {
        match arm_at(ts, j, eof) {
            None => None,
            Some((a, k, d)) => {
                let acc2 = match a { Some(x) => acc.push(x), None => acc };
                let k2 = match a { Some(_) => k, None => skip_arm(ts, k, eof) };
                let k3 = if ts[k2].kind == TokenKind::Comma && k2 < eof { k2 + 1 } else { k2 };
                if j < k3 <= eof { arms_at(ts, k3, eof, acc2, ds + d) } else { None }
            },
        }
    }
}

/// The rest of a `match` expression starting at `start`, from its
/// scrutinee at token `j`: the scrutinee (an expression), `{`
/// (E0104 when missing), the arms ([`arms_at`]) and `}` (E0104 when
/// missing).
#[verifier::opaque]
pub open spec fn match_rest(ts: Seq<Token>, j: int, eof: int, start: Span) -> Option<(Option<SExpr>, int, Seq<DiagV>)>
    decreases eof - j, 5nat,
{
    match frag_bp(ts, j, eof, 0) {
        None => None,
        Some((None, p, d)) => Some((None, p, d)),
        Some((Some(sc), p, d)) => if ts[p].kind != TokenKind::LBrace {
            Some((None, p, d.push(DiagV { code: "E0104"@, message: "expected `{` after match scrutinee"@, span: ts[p].span })))
        } else if j <= p && p < eof {
            match arms_at(ts, p + 1, eof, seq![], seq![]) {
                None => None,
                Some((arms, e, d2)) => {
                    let closed = ts[e].kind == TokenKind::RBrace;
                    let end = if closed { step(e, eof) } else { e };
                    let d3 = if closed {
                        d + d2
                    } else {
                        (d + d2).push(DiagV { code: "E0104"@, message: "unclosed `{` in match expression"@, span: ts[e].span })
                    };
                    Some((Some(SExpr { kind: ExprV::Match(Box::new(sc), arms),
                        span: start.spec_merge(ts[if end > 0 { end - 1 } else { 0 }].span) }), end, d3))
                },
            }
        } else {
            None
        },
    }
}

/// Reading a block gave `r`, moved to `p1` and grew the diagnostics from
/// `d0` to `d1`, as `res` (from [`block_at`]) says.
pub open spec fn block_read(r: Option<Expr>, p1: int, d0: Seq<Diagnostic>, d1: Seq<Diagnostic>,
    res: (Option<(Seq<SExpr>, Span)>, int, Seq<DiagV>)) -> bool
{
    &&& p1 == res.1
    &&& grows_by(d0, d1, res.2)
    &&& match res.0 {
        Some((es, sp)) => r matches Some(e) && e.kind matches ExprKind::Block { exprs }
            && eviews(e.kind->Block_exprs@) == Some(es) && e.span == sp,
        None => r is None,
    }
}

/// Reading a parameter at token `q`: a name (`_` too; E0100 when missing,
/// nothing consumed) with an optional `: T`. Gives the parameter (none on
/// an error), the position after it and the diagnostics.
pub open spec fn param_at(ts: Seq<Token>, q: int, eof: int) -> (Option<ParamV>, int, Seq<DiagV>) {
    let t = ts[q];
    if (t.kind != TokenKind::Ident && t.kind != TokenKind::Underscore) || q >= eof {
        (None, q, seq![DiagV { code: "E0100"@, message: "expected parameter name"@, span: t.span }])
    } else if ts[q + 1].kind == TokenKind::Colon {
        let (ty, p, d) = type_at(ts, q + 2, eof);
        match ty {
            None => (None, p, d),
            Some(a) => (Some(ParamV { name: t.text@, annotation: Some(a),
                span: t.span.spec_merge(ts[if p > 0 { p - 1 } else { 0 }].span) }), p, d),
        }
    } else {
        (Some(ParamV { name: t.text@, annotation: None, span: t.span.spec_merge(t.span) }), q + 1, seq![])
    }
}

/// The parameters read from token `j`, after those `acc` and the
/// diagnostics `ds`, up to `)` or the end: a failed one is left out, and a
/// comma leads to the next. Gives the parameters, the position of the token
/// that ends them and the diagnostics.
pub open spec fn params_at(ts: Seq<Token>, j: int, eof: int, acc: Seq<ParamV>, ds: Seq<DiagV>) -> (Seq<ParamV>, int, Seq<DiagV>)
    decreases eof - j,
{
    if ts[j].kind == TokenKind::RParen || j >= eof {
        (acc, j, ds)
    } else {
        let (pv, k, d) = param_at(ts, j, eof);
        let acc2 = match pv { Some(x) => acc.push(x), None => acc };
        if ts[k].kind == TokenKind::Comma && j <= k && k < eof {
            params_at(ts, k + 1, eof, acc2, ds + d)
        } else {
            (acc2, k, ds + d)
        }
    }
}

/// The body of a function named `name` from token `b`, after the
/// diagnostics `dpre`: a block ([`block_at`]). Gives the definition (none on
/// an error), the position after it and the diagnostics.
pub open spec fn fn_body_at(ts: Seq<Token>, b: int, eof: int, name: Seq<char>, effect: Effect, ps: Seq<ParamV>,
    ret: Option<STy>, start: Span, dpre: Seq<DiagV>) -> Option<(Option<DeclV>, int, Seq<DiagV>)>
{
    match block_at(ts, b, eof) {
        None => None,
        Some((None, p, d)) => Some((None, p, dpre + d)),
        Some((Some((es, bspan)), p, d)) => Some((Some(DeclV::Fn(FnV { name, effect, params: ps, ret, body: es,
            body_span: bspan, span: start.spec_merge(bspan) })), p, dpre + d)),
    }
}

/// Reading a function definition from its `fn` at token `i`, with the
/// effect `effect` and starting at `start`: a name (E0100 when missing),
/// `(` (E0104), the parameters ([`params_at`]), `)` (E0104 when missing,
/// and reading goes on), an optional `-> T` and the body ([`fn_body_at`]).
pub open spec fn fn_at(ts: Seq<Token>, i: int, eof: int, effect: Effect, start: Span) -> Option<(Option<DeclV>, int, Seq<DiagV>)> {
    let j = step(i, eof);
    let n = ts[j];
    if n.kind != TokenKind::Ident {
        Some((None, j, seq![DiagV { code: "E0100"@, message: "expected function name"@, span: n.span }]))
    } else if j >= eof {
        None
    } else if ts[j + 1].kind != TokenKind::LParen {
        Some((None, j + 1, seq![DiagV { code: "E0104"@, message: "expected `(` after function name"@, span: ts[j + 1].span }]))
    } else if j + 1 >= eof {
        None
    } else {
        let (ps, e, d) = params_at(ts, j + 2, eof, seq![], seq![]);
        let closed = ts[e].kind == TokenKind::RParen;
        let r0 = if closed { step(e, eof) } else { e };
        let d1 = if closed {
            d
        } else {
            d.push(DiagV { code: "E0104"@, message: "unclosed `(` in function parameters"@, span: ts[e].span })
        };
        if ts[r0].kind == TokenKind::Arrow && r0 < eof {
            let (ty, p, dt) = type_at(ts, r0 + 1, eof);
            match ty {
                None => Some((None, p, d1 + dt)),
                Some(a) => fn_body_at(ts, p, eof, n.text@, effect, ps, Some(a), start, d1 + dt),
            }
        } else {
            fn_body_at(ts, r0, eof, n.text@, effect, ps, None, start, d1)
        }
    }
}

/// The value of a literal token, as [`atom_ok`] reads it (none for an
/// out-of-range integer).
pub open spec fn literal_token_value(t: Token) -> Option<LitV> {
    if t.kind == TokenKind::IntLit {
        match parse_i64_spec(t.text@) {
            Some(v) => Some(LitV::Int(v)),
            None => None,
        }
    } else if t.kind == TokenKind::FloatLit {
        Some(LitV::Float(t.text@))
    } else if t.kind == TokenKind::StringLit {
        Some(LitV::Str(string_value(t.text@)))
    } else {
        Some(LitV::Bool(t.text@ == "true"@))
    }
}

/// The diagnostics of reading a literal token: the range error of an
/// out-of-range integer.
pub open spec fn literal_token_diags(t: Token) -> Seq<DiagV> {
    if t.kind == TokenKind::IntLit && parse_i64_spec(t.text@) is None {
        seq![range_diag(t.text@, t.span)]
    } else {
        seq![]
    }
}

/// A token kind that begins a top-level declaration.
pub open spec fn decl_keyword(k: TokenKind) -> bool {
    k == TokenKind::Fn || k == TokenKind::Type || k == TokenKind::Let || k == TokenKind::Io || k == TokenKind::Pure
}

/// The rest of a top-level `let` named `name` with annotation `ann`, from
/// its value at token `q`, after the diagnostics `dpre`: the value (an
/// expression, [`frag_bp`]) and `;` (E0105 when missing).
pub open spec fn let_value_at(ts: Seq<Token>, q: int, eof: int, name: Seq<char>, ann: Option<STy>, start: Span,
    dpre: Seq<DiagV>) -> Option<(Option<DeclV>, int, Seq<DiagV>)>
{
    match frag_bp(ts, q, eof, 0) {
        None => None,
        Some((None, p, d)) => Some((None, p, dpre + d)),
        Some((Some(e), p, d)) => if ts[p].kind == TokenKind::Semi {
            Some((Some(DeclV::Let(LetV { name, annotation: ann, value: e, span: start.spec_merge(ts[p].span) })), step(p, eof), dpre + d))
        } else {
            Some((Some(DeclV::Let(LetV { name, annotation: ann, value: e, span: start.spec_merge(ts[if p > 0 { p - 1 } else { 0 }].span) })),
                p, (dpre + d).push(DiagV { code: "E0105"@, message: "expected `;` after let binding"@, span: ts[p].span })))
        },
    }
}

/// Reading a top-level `let` at token `i`: a name (`_` too; E0100 when
/// missing), an optional `: T` ([`type_at`]), `=` (E0107 when missing) and
/// the value ([`let_value_at`]).
pub open spec fn let_decl_at(ts: Seq<Token>, i: int, eof: int) -> Option<(Option<DeclV>, int, Seq<DiagV>)> {
    let t = ts[i];
    if i < eof {
        let n = ts[i + 1];
        if n.kind != TokenKind::Ident && n.kind != TokenKind::Underscore {
            Some((None, i + 1, seq![DiagV { code: "E0100"@, message: "expected variable name after `let`"@, span: n.span }]))
        } else if i + 1 < eof && ts[i + 2].kind == TokenKind::Colon {
            let (ty, p, d) = type_at(ts, i + 3, eof);
            match ty {
                None => Some((None, p, d)),
                Some(a) => if ts[p].kind != TokenKind::Eq {
                    Some((None, p, d.push(DiagV { code: "E0107"@, message: "expected `=` in let binding"@, span: ts[p].span })))
                } else if p < eof {
                    let_value_at(ts, p + 1, eof, n.text@, Some(a), t.span, d)
                } else {
                    None
                },
            }
        } else if i + 1 < eof && ts[i + 2].kind != TokenKind::Eq {
            Some((None, i + 2, seq![DiagV { code: "E0107"@, message: "expected `=` in let binding"@, span: ts[i + 2].span }]))
        } else if i + 2 < eof {
            let_value_at(ts, i + 3, eof, n.text@, None, t.span, seq![])
        } else {
            None
        }
    } else {
        None
    }
}

/// Reading a top-level declaration at token `i` (before `eof`): a token
/// that begins no
/// declaration (an E0100, and it is skipped); `let` without a name (E0100)
/// or without `=` (E0107); and `let name = e;` or `let name: T = e;` whose
/// value `e` is an expression ([`frag_bp`]) and `T` a type
/// ([`type_at`]), with E0105 when `;` is missing; `io` or `pure` not
/// followed by `fn` (E0100); function definitions ([`fn_at`]); and type
/// definitions ([`type_decl_at`]).
/// Gives the declaration read, if any, the position after it, and the
/// diagnostics.
pub open spec fn simple_decl_at(ts: Seq<Token>, i: int, eof: int) -> Option<(Option<DeclV>, int, Seq<DiagV>)> {
    let t = ts[i];
    if !decl_keyword(t.kind) {
        Some((None, step(i, eof), seq![DiagV { code: "E0100"@,
            message: "unexpected token `"@ + t.text@ + "`, expected a declaration (`fn`, `type`, or `let`)"@, span: t.span }]))
    } else if t.kind == TokenKind::Let {
        let_decl_at(ts, i, eof)
    } else if t.kind == TokenKind::Type {
        type_decl_at(ts, i, eof)
    } else if t.kind == TokenKind::Fn {
        fn_at(ts, i, eof, Effect::Pure, t.span)
    } else if (t.kind == TokenKind::Io || t.kind == TokenKind::Pure) && i < eof {
        let eff = if t.kind == TokenKind::Io { Effect::Io } else { Effect::Pure };
        if ts[i + 1].kind == TokenKind::Fn {
            fn_at(ts, i + 1, eof, eff, t.span)
        } else {
            Some((None, i + 1, seq![DiagV { code: "E0100"@,
                message: if t.kind == TokenKind::Io { "expected `fn` after `io`"@ } else { "expected `fn` after `pure`"@ },
                span: ts[i + 1].span }]))
        }
    } else {
        None
    }
}

/// Where top-level error recovery from token `k` stops: at the end, just
/// after a `;` or `}`, or at `fn`, `type`, `let` or `io`.
pub open spec fn sync_at(ts: Seq<Token>, k: int, eof: int) -> int
    decreases eof - k,
{
    if k >= eof {
        k
    } else {
        let prev = ts[if k > 0 { k - 1 } else { 0 }].kind;
        let cur = ts[k].kind;
        if prev == TokenKind::Semi || prev == TokenKind::RBrace {
            k
        } else if cur == TokenKind::Fn || cur == TokenKind::Type || cur == TokenKind::Let || cur == TokenKind::Io {
            k
        } else {
            sync_at(ts, k + 1, eof)
        }
    }
}

/// Reading the declarations from token `i` on, after the declarations `acc` and
/// the diagnostics `ds`: each declaration is read, and after a failed one
/// recovery skips ahead. The declarations read and all diagnostics; none
/// when reading a declaration gives none or does not move ahead.
pub open spec fn program_at(ts: Seq<Token>, i: int, eof: int, acc: Seq<DeclV>, ds: Seq<DiagV>) -> Option<(Seq<DeclV>, Seq<DiagV>)>
    decreases eof - i,
{
    if i >= eof {
        Some((acc, ds))
    } else {
        match simple_decl_at(ts, i, eof) {
            None => None,
            Some((d, j, dd)) => {
                let k = match d { Some(_) => j, None => sync_at(ts, j, eof) };
                if k <= i || k > eof {
                    None
                } else {
                    program_at(ts, k, eof, match d { Some(lv) => acc.push(lv), None => acc }, ds + dd)
                }
            }
        }
    }
}

/// Reading a declaration gave `r`, moved to `p1` and grew the diagnostics
/// from `d0` to `d1`, as `res` (from [`simple_decl_at`]) says.
pub open spec fn decl_read(r: Option<Decl>, p1: int, d0: Seq<Diagnostic>, d1: Seq<Diagnostic>,
    res: (Option<DeclV>, int, Seq<DiagV>)) -> bool
{
    &&& p1 == res.1
    &&& grows_by(d0, d1, res.2)
    &&& match res.0 {
        Some(lv) => r matches Some(d) && decl_is(d, lv),
        None => r is None,
    }
}

/// Growth by `dv` adds `dv` to the views.
pub proof fn lemma_grows_views(a: Seq<Diagnostic>, b: Seq<Diagnostic>, dv: Seq<DiagV>)
    requires
        grows_by(a, b, dv),
    ensures
        dviews(b) == dviews(a) + dv,
{
    assert(b =~= a + b.subrange(a.len() as int, b.len() as int));
    assert(dviews(b) =~= dviews(a) + dviews(b.subrange(a.len() as int, b.len() as int)));
}

/// An expression's value: literals, variables, unary and binary
/// operations, calls, variant constructions, list literals, blocks, `let`,
/// `if` and `match` expressions and the error expression, with strings by
/// their characters.
pub enum ExprV {
    Lit(LitV),
    Var(Seq<char>),
    Un(UnOp, Box<SExpr>),
    Bin(BinOp, Box<SExpr>, Box<SExpr>),
    Call(Box<SExpr>, Seq<SExpr>),
    Variant(Seq<char>, Seq<SExpr>),
    List(Seq<SExpr>),
    Block(Seq<SExpr>),
    Let(Seq<char>, Option<STy>, Box<SExpr>, Box<SExpr>),
    If(Box<SExpr>, Box<SExpr>, Box<SExpr>),
    Match(Box<SExpr>, Seq<ArmV>),
    Error,
}

/// An expression's value with its span.
pub struct SExpr {
    pub kind: ExprV,
    pub span: Span,
}

/// The value of an expression, of every form the parser builds.
pub open spec fn eview(e: Expr) -> Option<SExpr>
    decreases e, 1nat,
{
    match e.kind {
        ExprKind::Literal { value } => Some(SExpr { kind: ExprV::Lit(lit_view(value)), span: e.span }),
        ExprKind::Ident { name } => Some(SExpr { kind: ExprV::Var(name@), span: e.span }),
        ExprKind::Error => Some(SExpr { kind: ExprV::Error, span: e.span }),
        ExprKind::UnaryOp { op, operand } => match eview(*operand) {
            Some(a) => Some(SExpr { kind: ExprV::Un(op, Box::new(a)), span: e.span }),
            None => None,
        },
        ExprKind::BinaryOp { op, lhs, rhs } => match (eview(*lhs), eview(*rhs)) {
            (Some(a), Some(b)) => Some(SExpr { kind: ExprV::Bin(op, Box::new(a), Box::new(b)), span: e.span }),
            _ => None,
        },
        ExprKind::FnCall { callee, args } => match (eview(*callee), eviews(args@)) {
            (Some(c), Some(a)) => Some(SExpr { kind: ExprV::Call(Box::new(c), a), span: e.span }),
            _ => None,
        },
        ExprKind::VariantConstruct { name, args } => match eviews(args@) {
            Some(a) => Some(SExpr { kind: ExprV::Variant(name@, a), span: e.span }),
            None => None,
        },
        ExprKind::ListLiteral { elements } => match eviews(elements@) {
            Some(a) => Some(SExpr { kind: ExprV::List(a), span: e.span }),
            None => None,
        },
        ExprKind::Block { exprs } => match eviews(exprs@) {
            Some(a) => Some(SExpr { kind: ExprV::Block(a), span: e.span }),
            None => None,
        },
        ExprKind::LetExpr { name, type_annotation, value, body } => match (eview(*value), eview(*body)) {
            (Some(v), Some(b)) => Some(SExpr { kind: ExprV::Let(name@, opt_ann_view(type_annotation), Box::new(v), Box::new(b)),
                span: e.span }),
            _ => None,
        },
        ExprKind::Match { scrutinee, arms } => match (eview(*scrutinee), armviews(arms@)) {
            (Some(sc), Some(a)) => Some(SExpr { kind: ExprV::Match(Box::new(sc), a), span: e.span }),
            _ => None,
        },
        ExprKind::IfElse { condition, then_branch, else_branch } => match (eview(*condition), eview(*then_branch), eview(*else_branch)) {
            (Some(c), Some(t), Some(f)) => Some(SExpr { kind: ExprV::If(Box::new(c), Box::new(t), Box::new(f)), span: e.span }),
            _ => None,
        },
    }
}

/// A match arm's value: its pattern, its body and its span.
pub struct ArmV {
    pub pat: SPat,
    pub body: SExpr,
    pub span: Span,
}

/// The values of match arms whose bodies have values (none otherwise).
pub open spec fn armviews(arms: Seq<MatchArm>) -> Option<Seq<ArmV>>
    decreases arms, 0nat,
{
    if arms.len() == 0 {
        Some(seq![])
    } else {
        match (eview(arms[0].body), armviews(arms.drop_first())) {
            (Some(b), Some(rest)) => Some(seq![ArmV { pat: pview(arms[0].pattern), body: b, span: arms[0].span }] + rest),
            _ => None,
        }
    }
}

/// The values of a list of expressions, when each has one.
pub open spec fn eviews(es: Seq<Expr>) -> Option<Seq<SExpr>>
    decreases es, 0nat,
{
    if es.len() == 0 {
        Some(seq![])
    } else {
        match (eview(es[0]), eviews(es.drop_first())) {
            (Some(a), Some(rest)) => Some(seq![a] + rest),
            _ => None,
        }
    }
}

/// The parsed expression `r` is the one `v` describes (none when `v` is).
pub open spec fn expr_is(r: Option<Expr>, v: Option<SExpr>) -> bool {
    match v {
        Some(sv) => r matches Some(e) && eview(e) == Some(sv),
        None => r is None,
    }
}

/// The arguments of a call or variant, or the elements of a list, read from
/// token `j` after those `acc` and the diagnostics `ds` so far, up to the
/// closing token `close` or the end: each is an expression (a failed one
/// is left out), and a comma leads to the next. Gives the arguments, the
/// position of the token that ends them and the diagnostics; none when
/// reading an argument gives none.
pub open spec fn args_at(ts: Seq<Token>, j: int, eof: int, acc: Seq<SExpr>, ds: Seq<DiagV>, close: TokenKind) -> Option<(Seq<SExpr>, int, Seq<DiagV>)>
    decreases eof - j, 3nat,
{
    if ts[j].kind == close || j == eof {
        Some((acc, j, ds))
    } else {
        match frag_bp(ts, j, eof, 0) {
            None => None,
            Some((a, k, d)) => {
                let acc2 = match a { Some(x) => acc.push(x), None => acc };
                if ts[k].kind == TokenKind::Comma && j <= k && k < eof {
                    args_at(ts, k + 1, eof, acc2, ds + d, close)
                } else {
                    Some((acc2, k, ds + d))
                }
            },
        }
    }
}

/// Reading an atom of an expression at token `i`: a literal, a lower-case
/// variable, a variant name with or without parenthesized arguments (E0104
/// when `)` is missing), a bracketed list of elements (E0104 when `]` is
/// missing), `()`, an expression in parentheses (its span widened to them;
/// E0104 when `)` is missing), a block ([`block_rest`]), a `let`
/// ([`let_rest`]), `if` ([`if_rest`]) or `match` ([`match_rest`])
/// expression, or a token that begins no expression (E0101, nothing
/// consumed). None when reading a part gives none.
#[verifier::opaque]
pub open spec fn frag_atom(ts: Seq<Token>, i: int, eof: int) -> Option<(Option<SExpr>, int, Seq<DiagV>)>
    decreases eof - i, 0nat,
{
    let t = ts[i];
    let j = step(i, eof);
    if literal_kind(t.kind) {
        Some((Some(SExpr { kind: match literal_token_value(t) { Some(v) => ExprV::Lit(v), None => ExprV::Error }, span: t.span }),
            j, literal_token_diags(t)))
    } else if t.kind == TokenKind::Ident && !(t.text@.len() > 0 && 'A' <= t.text@[0] <= 'Z') {
        Some((Some(SExpr { kind: ExprV::Var(t.text@), span: t.span }), j, seq![]))
    } else if t.kind == TokenKind::Ident {
        if ts[j].kind == TokenKind::LParen && i < eof && j < eof {
            match args_at(ts, j + 1, eof, seq![], seq![], TokenKind::RParen) {
                None => None,
                Some((args, e, d2)) => {
                    let closed = ts[e].kind == TokenKind::RParen;
                    let end = if closed { step(e, eof) } else { e };
                    let d3 = if closed {
                        d2
                    } else {
                        d2.push(DiagV { code: "E0104"@, message: "unclosed `(` in variant constructor"@, span: ts[e].span })
                    };
                    Some((Some(SExpr { kind: ExprV::Variant(t.text@, args), span: t.span.spec_merge(ts[if end > 0 { end - 1 } else { 0 }].span) }),
                        end, d3))
                },
            }
        } else {
            Some((Some(SExpr { kind: ExprV::Variant(t.text@, seq![]), span: t.span }), j, seq![]))
        }
    } else if t.kind == TokenKind::LBracket && i < eof {
        match args_at(ts, j, eof, seq![], seq![], TokenKind::RBracket) {
            None => None,
            Some((elems, e, d2)) => {
                let closed = ts[e].kind == TokenKind::RBracket;
                let end = if closed { step(e, eof) } else { e };
                let d3 = if closed {
                    d2
                } else {
                    d2.push(DiagV { code: "E0104"@, message: "unclosed `[` in list literal"@, span: ts[e].span })
                };
                Some((Some(SExpr { kind: ExprV::List(elems), span: t.span.spec_merge(ts[if end > 0 { end - 1 } else { 0 }].span) }),
                    end, d3))
            },
        }
    } else if t.kind == TokenKind::LParen && ts[j].kind == TokenKind::RParen && i < eof {
        Some((Some(SExpr { kind: ExprV::Lit(LitV::Unit), span: t.span.spec_merge(ts[j].span) }), step(j, eof), seq![]))
    } else if t.kind == TokenKind::LParen && i < eof {
        match frag_bp(ts, i + 1, eof, 0) {
            None => None,
            Some((None, p, d)) => Some((None, p, d)),
            Some((Some(e), p, d)) => if ts[p].kind == TokenKind::RParen {
                Some((Some(SExpr { kind: e.kind, span: t.span.spec_merge(ts[p].span) }), step(p, eof), d))
            } else {
                Some((Some(SExpr { kind: e.kind, span: t.span.spec_merge(ts[if p > 0 { p - 1 } else { 0 }].span) }), p,
                    d.push(DiagV { code: "E0104"@, message: "unclosed `(`"@, span: ts[p].span })))
            },
        }
    } else if t.kind == TokenKind::LBrace && i < eof {
        match block_rest(ts, i + 1, eof, t.span) {
            None => None,
            Some((None, p, d)) => Some((None, p, d)),
            Some((Some((es, sp)), p, d)) => Some((Some(block_expr(es, sp)), p, d)),
        }
    } else if t.kind == TokenKind::Let && i < eof {
        let_rest(ts, i + 1, eof, t.span)
    } else if t.kind == TokenKind::If && i < eof {
        if_rest(ts, i + 1, eof, t.span)
    } else if t.kind == TokenKind::Match && i < eof {
        match_rest(ts, i + 1, eof, t.span)
    } else if !starts_expr(t.kind) {
        Some((None, i, seq![DiagV { code: "E0101"@, message: "expected expression, found `"@ + t.text@ + "`"@, span: t.span }]))
    } else {
        None
    }
}

/// Reading a prefix expression at token `i`: `!` or `-` applied to an
/// operand that binds tighter than any infix operator, or an atom.
pub open spec fn frag_prefix(ts: Seq<Token>, i: int, eof: int) -> Option<(Option<SExpr>, int, Seq<DiagV>)>
    decreases eof - i, 1nat,
{
    let t = ts[i];
    if (t.kind == TokenKind::Bang || t.kind == TokenKind::Minus) && i < eof {
        let op = if t.kind == TokenKind::Bang { UnOp::Not } else { UnOp::Neg };
        match frag_bp(ts, i + 1, eof, 16) {
            None => None,
            Some((None, p, d)) => Some((None, p, d)),
            Some((Some(o), p, d)) => Some((Some(SExpr { kind: ExprV::Un(op, Box::new(o)), span: t.span.spec_merge(o.span) }), p, d)),
        }
    } else {
        frag_atom(ts, i, eof)
    }
}

/// Reading an expression at token `i` whose infix operators bind at least
/// as tightly as `bp` (Pratt parsing with the powers of [`infix_spec`]): the
/// expression, if any, the position after it and the diagnostics. None when
/// reading a part gives none or does not move ahead.
pub open spec fn frag_bp(ts: Seq<Token>, i: int, eof: int, bp: int) -> Option<(Option<SExpr>, int, Seq<DiagV>)>
    decreases eof - i, 2nat,
{
    match frag_prefix(ts, i, eof) {
        None => None,
        Some((None, p, d)) => Some((None, p, d)),
        Some((Some(l), p, d)) => if i < p <= eof { infix_loop(ts, p, eof, bp, l, d) } else { None },
    }
}

/// Continuing an expression with left operand `lhs` at token `p`: `(`
/// makes a call of it with the arguments after it ([`args_at`]; E0104 when
/// `)` is missing), and an infix operator binding at least as tightly as
/// `bp` takes the expression after it (binding one step tighter) as its
/// right operand; a missing right operand is an E0101 and ends the
/// expression.
pub open spec fn infix_loop(ts: Seq<Token>, p: int, eof: int, bp: int, lhs: SExpr, ds: Seq<DiagV>) -> Option<(Option<SExpr>, int, Seq<DiagV>)>
    decreases eof - p, 0nat,
{
    let k = ts[p].kind;
    if k == TokenKind::LParen {
        if bp > 18 {
            Some((Some(lhs), p, ds))
        } else if p < eof {
            match args_at(ts, p + 1, eof, seq![], seq![], TokenKind::RParen) {
                None => None,
                Some((args, e, d2)) => {
                    let closed = ts[e].kind == TokenKind::RParen;
                    let end = if closed { step(e, eof) } else { e };
                    let d3 = if closed {
                        d2
                    } else {
                        d2.push(DiagV { code: "E0104"@, message: "unclosed `(` in function call"@, span: ts[e].span })
                    };
                    if p < end <= eof {
                        infix_loop(ts, end, eof, bp, SExpr { kind: ExprV::Call(Box::new(lhs), args),
                            span: lhs.span.spec_merge(ts[end - 1].span) }, ds + d3)
                    } else {
                        None
                    }
                },
            }
        } else {
            None
        }
    } else {
        match infix_spec(k) {
            None => Some((Some(lhs), p, ds)),
            Some((op, left)) => if left < bp {
                Some((Some(lhs), p, ds))
            } else if p < eof {
                match frag_bp(ts, p + 1, eof, left + 1) {
                    None => None,
                    Some((Some(rhs), p2, d2)) => if p < p2 <= eof {
                        infix_loop(ts, p2, eof, bp, SExpr { kind: ExprV::Bin(op, Box::new(lhs), Box::new(rhs)),
                            span: lhs.span.spec_merge(rhs.span) }, ds + d2)
                    } else {
                        None
                    },
                    Some((None, p2, d2)) => Some((Some(lhs), p2, (ds + d2).push(DiagV { code: "E0101"@,
                        message: "expected expression after `"@ + crate::lexer::kind_name(k) + "`"@, span: ts[p2].span }))),
                }
            } else {
                None
            },
        }
    }
}

/// Reading an expression gave `r`, moved to `p1` and grew the diagnostics
/// from `d0` to `d1`, as `res` says.
pub open spec fn expr_read(r: Option<Expr>, p1: int, d0: Seq<Diagnostic>, d1: Seq<Diagnostic>,
    res: (Option<SExpr>, int, Seq<DiagV>)) -> bool
{
    &&& expr_is(r, res.0)
    &&& p1 == res.1
    &&& grows_by(d0, d1, res.2)
}

/// A type annotation's value, with names by their characters.
pub enum TyAnnV {
    Name(Seq<char>),
    App(Seq<char>, Seq<STy>),
    Fn(Seq<STy>, Box<STy>),
}

/// A type annotation's value with its span.
pub struct STy {
    pub kind: TyAnnV,
    pub span: Span,
}

/// The value of a type annotation.
pub open spec fn ann_view(a: TypeAnnotation) -> STy
    decreases a, 1nat,
{
    STy {
        kind: match a.kind {
            TypeKind::Name { name } => TyAnnV::Name(name@),
            TypeKind::App { name, args } => TyAnnV::App(name@, ann_views(args@)),
            TypeKind::Fn { params, ret } => TyAnnV::Fn(ann_views(params@), Box::new(ann_view(*ret))),
        },
        span: a.span,
    }
}

/// The values of a list of type annotations.
pub open spec fn ann_views(ts: Seq<TypeAnnotation>) -> Seq<STy>
    decreases ts, 0nat,
{
    if ts.len() == 0 {
        seq![]
    } else {
        seq![ann_view(ts[0])] + ann_views(ts.drop_first())
    }
}

/// The value of a parsed type annotation, if any.
pub open spec fn opt_ann_view(r: Option<TypeAnnotation>) -> Option<STy> {
    match r {
        Some(a) => Some(ann_view(a)),
        None => None,
    }
}

/// The type grammar, read from token `i`: a name, a name applied to
/// `<`-bracketed, comma-separated types (E0104 when `>` is missing), or a
/// function type `(T, ...) -> T` (E0104 when `)` is missing, E0102 when
/// `->` is); any other token is an E0102 with nothing consumed. Gives the
/// type (none on an error), the position after it and the diagnostics.
pub open spec fn type_at(ts: Seq<Token>, i: int, eof: int) -> (Option<STy>, int, Seq<DiagV>)
    decreases eof - i, 1nat,
{
    let t = ts[i];
    if t.kind == TokenKind::LParen && i < eof {
        let (ps, e, d) = types_at(ts, i + 1, eof, seq![], seq![], TokenKind::RParen);
        let closed = ts[e].kind == TokenKind::RParen;
        let p1 = if closed { step(e, eof) } else { e };
        let d1 = if closed {
            d
        } else {
            d.push(DiagV { code: "E0104"@, message: "unclosed `(` in function type"@, span: ts[e].span })
        };
        if ts[p1].kind != TokenKind::Arrow {
            (None, p1, d1.push(DiagV { code: "E0102"@, message: "expected `->` in function type"@, span: ts[p1].span }))
        } else if i < p1 < eof {
            let (rt, p2, d2) = type_at(ts, p1 + 1, eof);
            match rt {
                None => (None, p2, d1 + d2),
                Some(r) => (Some(STy { kind: TyAnnV::Fn(ps, Box::new(r)), span: t.span.spec_merge(r.span) }), p2, d1 + d2),
            }
        } else {
            (None, p1, d1)
        }
    } else if t.kind != TokenKind::Ident {
        (None, i, seq![DiagV { code: "E0102"@, message: "expected type annotation"@, span: t.span }])
    } else {
        let j = step(i, eof);
        if ts[j].kind == TokenKind::Lt && i < eof && j < eof {
            let (args, e, d) = types_at(ts, j + 1, eof, seq![], seq![], TokenKind::Gt);
            let closed = ts[e].kind == TokenKind::Gt;
            let end = if closed { step(e, eof) } else { e };
            let d1 = if closed {
                d
            } else {
                d.push(DiagV { code: "E0104"@, message: "unclosed `<` in type application"@, span: ts[e].span })
            };
            (Some(STy { kind: TyAnnV::App(t.text@, args), span: t.span.spec_merge(ts[if end > 0 { end - 1 } else { 0 }].span) }), end, d1)
        } else {
            (Some(STy { kind: TyAnnV::Name(t.text@), span: t.span.spec_merge(ts[if j > 0 { j - 1 } else { 0 }].span) }), j, seq![])
        }
    }
}

/// A comma-separated list of types, read from token `j` after the types
/// `acc` and the diagnostics `ds`, up to `close` or the end (a failed type
/// is left out): the types, the position of the token that ends them and
/// the diagnostics.
pub open spec fn types_at(ts: Seq<Token>, j: int, eof: int, acc: Seq<STy>, ds: Seq<DiagV>, close: TokenKind) -> (Seq<STy>, int, Seq<DiagV>)
    decreases eof - j, 2nat,
{
    if ts[j].kind == close || j == eof {
        (acc, j, ds)
    } else {
        let (a, k, d) = type_at(ts, j, eof);
        let acc2 = match a { Some(x) => acc.push(x), None => acc };
        if ts[k].kind == TokenKind::Comma && j <= k && k < eof {
            types_at(ts, k + 1, eof, acc2, ds + d, close)
        } else {
            (acc2, k, ds + d)
        }
    }
}

/// Adding an annotation to a list adds its value to the list's values.
proof fn lemma_ann_views_push(ts: Seq<TypeAnnotation>, t: TypeAnnotation)
    ensures
        ann_views(ts.push(t)) == ann_views(ts).push(ann_view(t)),
    decreases ts.len(),
{
    if ts.len() == 0 {
        assert(ts.push(t).drop_first() =~= Seq::<TypeAnnotation>::empty());
        assert(ann_views(Seq::<TypeAnnotation>::empty()) =~= Seq::<STy>::empty());
        assert(ann_views(ts.push(t)) =~= seq![ann_view(t)]);
    } else {
        lemma_ann_views_push(ts.drop_first(), t);
        assert(ts.push(t).drop_first() =~= ts.drop_first().push(t));
        assert(ann_views(ts.push(t)) =~= ann_views(ts).push(ann_view(t)));
    }
}

/// The parser `b` has the tokens of `a` and is at or after its position.
spec fn moved(a: Parser, b: Parser) -> bool {
    &&& a.tokens == b.tokens
    &&& a.eof == b.eof
    &&& a.pos <= b.pos
    &&& b.pos <= b.eof@
    &&& b.eof@ < b.tokens@.len()
}

impl Parser {
    #[verifier::type_invariant]
    spec fn inv(&self) -> bool {
        &&& 0 <= self.eof@ < self.tokens@.len()
        &&& self.tokens@[self.eof@].kind == TokenKind::Eof
        &&& forall|k: int| 0 <= k < self.eof@ ==> self.tokens@[k].kind != TokenKind::Eof
        &&& self.pos <= self.eof@
        &&& forall|k: int| 0 <= k < self.diagnostics@.len() ==> is_parse_error(#[trigger] self.diagnostics@[k])
    }

    /// The token stream.
    pub closed spec fn token_seq(&self) -> Seq<Token> {
        self.tokens@
    }

    /// A parser at the start of its tokens with no diagnostics.
    pub closed spec fn at_start(&self) -> bool {
        self.pos == 0 && self.diagnostics@.len() == 0
    }

    /// Create a new parser from a token stream, which must hold an `Eof`
    /// token (the lexer's streams end with one).
    pub fn new(tokens: Vec<Token>) -> (r: Parser)
        requires
            has_eof(tokens@),
        ensures
            r.token_seq() == tokens@,
            r.at_start(),
    {
        proof { lemma_first_eof(tokens@, 0); }
        Parser { tokens, pos: 0, eof: Ghost(first_eof(tokens@)), diagnostics: Vec::new() }
    }

    // ---------------------------------------------------------------
    // Token stream helpers
    // ---------------------------------------------------------------

    /// The current token.
    fn current(&self) -> (r: &Token)
        ensures
            *r == self.tokens@[self.pos as int],
            self.pos < self.tokens@.len(),
    {
        proof { use_type_invariant(self); }
        &self.tokens[self.pos]
    }

    /// The kind of the current token.
    fn kind(&self) -> (r: TokenKind)
        ensures
            r == self.tokens@[self.pos as int].kind,
            r == TokenKind::Eof <==> self.pos == self.eof@,
    {
        proof { use_type_invariant(self); }
        self.tokens[self.pos].kind
    }

    /// The span of the current token.
    fn current_span(&self) -> (r: Span)
        ensures
            r == self.tokens@[self.pos as int].span,
    {
        self.current().span
    }

    /// Whether the current token is the `Eof` token.
    fn at_eof(&self) -> (r: bool)
        ensures
            r == (self.pos == self.eof@),
    {
        self.kind() == TokenKind::Eof
    }

    /// Whether the current token can name a binding: an identifier or the
    /// wildcard `_`.
    fn check_binder(&self) -> (r: bool)
        ensures
            r == (self.tokens@[self.pos as int].kind == TokenKind::Ident
                || self.tokens@[self.pos as int].kind == TokenKind::Underscore),
            r ==> self.pos < self.eof@,
    {
        proof { use_type_invariant(self); }
        let k = self.kind();
        k == TokenKind::Ident || k == TokenKind::Underscore
    }

    /// Whether the current token is of the given kind.
    fn check(&self, kind: TokenKind) -> (r: bool)
        ensures
            r == (self.tokens@[self.pos as int].kind == kind),
            r && kind != TokenKind::Eof ==> self.pos < self.eof@,
    {
        proof { use_type_invariant(self); }
        self.kind() == kind
    }

    /// Advance past the current token (never past `Eof`).
    fn advance(&mut self)
        ensures
            moved(*old(self), *final(self)),
            final(self).diagnostics == old(self).diagnostics,
            final(self).pos == if old(self).pos < old(self).eof@ { old(self).pos + 1 } else { old(self).pos as int },
    {
        proof { use_type_invariant(&*self); }
        let _n = self.tokens.len();
        if self.tokens[self.pos].kind != TokenKind::Eof {
            self.pos = self.pos + 1;
        }
    }

    /// If the current token matches `kind`, advance and return `true`.
    fn eat(&mut self, kind: TokenKind) -> (r: bool)
        requires
            kind != TokenKind::Eof,
        ensures
            moved(*old(self), *final(self)),
            final(self).diagnostics == old(self).diagnostics,
            r == (old(self).tokens@[old(self).pos as int].kind == kind),
            r ==> final(self).pos == old(self).pos + 1,
            !r ==> final(self).pos == old(self).pos,
    {
        proof { use_type_invariant(&*self); }
        if self.check(kind) {
            self.advance();
            true
        } else {
            false
        }
    }

    /// Records a diagnostic.
    fn report(&mut self, d: Diagnostic)
        requires
            is_parse_error(d),
        ensures
            moved(*old(self), *final(self)),
            final(self).pos == old(self).pos,
            final(self).diagnostics@ == old(self).diagnostics@.push(d),
    {
        proof { use_type_invariant(&*self); }
        let mut ds: Vec<Diagnostic> = Vec::new();
        std::mem::swap(&mut ds, &mut self.diagnostics);
        ds.push(d);
        self.diagnostics = ds;
    }

    /// Consume a token of the expected kind, or emit a diagnostic.
    fn expect(&mut self, kind: TokenKind, error_code: &str, message: &str) -> (r: bool)
        requires
            kind != TokenKind::Eof,
            is_parse_code(error_code@),
        ensures
            moved(*old(self), *final(self)),
            r == (old(self).tokens@[old(self).pos as int].kind == kind),
            r ==> final(self).pos == old(self).pos + 1,
            !r ==> final(self).pos == old(self).pos,
            r ==> final(self).diagnostics@ == old(self).diagnostics@,
            !r ==> final(self).diagnostics@ == old(self).diagnostics@.push(final(self).diagnostics@.last())
                && dview(final(self).diagnostics@.last())
                    == (DiagV { code: error_code@, message: message@, span: old(self).tokens@[old(self).pos as int].span }),
    {
        if self.check(kind) {
            self.advance();
            true
        } else {
            let span = self.current_span();
            let label = cat(cat(owned("expected `"), kind.name()), "`");
            let d = Diagnostic::error(error_code, message, span).with_label(Label::with_message(span, label));
            self.report(d);
            false
        }
    }

    /// The token just consumed (the first one when none was).
    fn previous(&self) -> (r: &Token)
        ensures
            *r == self.tokens@[if self.pos > 0 { self.pos - 1 } else { 0 }],
    {
        proof { use_type_invariant(self); }
        if self.pos > 0 { &self.tokens[self.pos - 1] } else { &self.tokens[0] }
    }

    /// The text of the current token.
    fn current_text(&self) -> (r: String)
        ensures
            r@ == self.tokens@[self.pos as int].text@,
    {
        self.current().text.clone()
    }
}


impl Parser {
    // ---------------------------------------------------------------
    // Type annotations
    // ---------------------------------------------------------------

    /// Parse a type annotation.
    fn parse_type_annotation(&mut self) -> (r: Option<TypeAnnotation>)
        ensures
            moved(*old(self), *final(self)),
            r is Some ==> old(self).pos < final(self).pos,
            ({
                let res = type_at(old(self).tokens@, old(self).pos as int, old(self).eof@);
                &&& opt_ann_view(r) == res.0
                &&& final(self).pos == res.1
                &&& grows_by(old(self).diagnostics@, final(self).diagnostics@, res.2)
            }),
        decreases old(self).eof@ - old(self).pos, 2nat,
    {
        proof { use_type_invariant(&*self); }
        let ghost ts = self.tokens@;
        let ghost eof = self.eof@;
        let ghost d0 = self.diagnostics@;
        proof { lemma_grows_none(d0); }
        if self.check(TokenKind::LParen) {
            return self.parse_fn_type();
        }
        let start = self.current_span();
        if !self.check(TokenKind::Ident) {
            let span = self.current_span();
            self.report(Diagnostic::error("E0102", "expected type annotation", span)
                .with_label(Label::new(span, "expected a type name")));
            proof { lemma_grows_push(d0, self.diagnostics@.last()); }
            return None;
        }
        let name = self.current_text();
        self.advance();
        if self.check(TokenKind::Lt) {
            self.advance();
            let ghost j1 = self.pos as int;
            let ghost whole = types_at(ts, j1, eof, seq![], seq![], TokenKind::Gt);
            let mut args: Vec<TypeAnnotation> = Vec::new();
            proof { assert(ann_views(args@) =~= Seq::<STy>::empty()); }
            loop
                invariant_except_break
                    whole == types_at(ts, self.pos as int, eof, ann_views(args@),
                        dviews(self.diagnostics@.subrange(d0.len() as int, self.diagnostics@.len() as int)), TokenKind::Gt),
                invariant
                    moved(*old(self), *self),
                    old(self).pos < self.pos,
                    self.tokens@ == ts,
                    self.eof@ == eof,
                    whole == types_at(ts, j1, eof, seq![], seq![], TokenKind::Gt),
                    grows_by(d0, self.diagnostics@,
                        dviews(self.diagnostics@.subrange(d0.len() as int, self.diagnostics@.len() as int))),
                ensures
                    whole == (ann_views(args@), self.pos as int,
                        dviews(self.diagnostics@.subrange(d0.len() as int, self.diagnostics@.len() as int))),
                decreases self.eof@ - self.pos,
            {
                proof { use_type_invariant(&*self); }
                if self.check(TokenKind::Gt) || self.at_eof() {
                    break;
                }
                let ghost p0 = self.pos as int;
                let ghost before = self.diagnostics@;
                let ghost as0 = args@;
                let ghost acc_d = dviews(before.subrange(d0.len() as int, before.len() as int));
                let sub = self.parse_type_annotation();
                let ghost res = type_at(ts, p0, eof);
                let ghost after = self.diagnostics@;
                if let Some(ty) = sub {
                    args.push(ty);
                    proof { lemma_ann_views_push(as0, ty); }
                }
                proof {
                    lemma_grows_trans(d0, before, after, acc_d, res.2);
                    assert(dviews(after.subrange(d0.len() as int, after.len() as int)) == acc_d + res.2);
                }
                if !self.eat(TokenKind::Comma) {
                    break;
                }
            }
            let ghost e = self.pos as int;
            let ghost mid = self.diagnostics@;
            self.expect(TokenKind::Gt, "E0104", "unclosed `<` in type application");
            proof {
                let dm = dviews(mid.subrange(d0.len() as int, mid.len() as int));
                if ts[e].kind != TokenKind::Gt {
                    lemma_grows_append(d0, mid, self.diagnostics@, dm);
                } else {
                    assert(self.diagnostics@ == mid);
                }
            }
            let span = start.merge(self.previous().span);
            Some(TypeAnnotation { kind: TypeKind::App { name, args }, span })
        } else {
            let span = start.merge(self.previous().span);
            Some(TypeAnnotation { kind: TypeKind::Name { name }, span })
        }
    }

    /// Parse a function type: `(T1, T2) -> T3`.
    fn parse_fn_type(&mut self) -> (r: Option<TypeAnnotation>)
        requires
            old(self).tokens@[old(self).pos as int].kind == TokenKind::LParen,
        ensures
            moved(*old(self), *final(self)),
            r is Some ==> old(self).pos < final(self).pos,
            ({
                let res = type_at(old(self).tokens@, old(self).pos as int, old(self).eof@);
                &&& opt_ann_view(r) == res.0
                &&& final(self).pos == res.1
                &&& grows_by(old(self).diagnostics@, final(self).diagnostics@, res.2)
            }),
        decreases old(self).eof@ - old(self).pos, 1nat,
    {
        proof { use_type_invariant(&*self); }
        let ghost ts = self.tokens@;
        let ghost eof = self.eof@;
        let ghost d0 = self.diagnostics@;
        proof { lemma_grows_none(d0); }
        let start = self.current_span();
        self.advance();
        let ghost j1 = self.pos as int;
        let ghost whole = types_at(ts, j1, eof, seq![], seq![], TokenKind::RParen);
        let mut params: Vec<TypeAnnotation> = Vec::new();
        proof { assert(ann_views(params@) =~= Seq::<STy>::empty()); }
        while !self.check(TokenKind::RParen) && !self.at_eof()
            invariant_except_break
                whole == types_at(ts, self.pos as int, eof, ann_views(params@),
                    dviews(self.diagnostics@.subrange(d0.len() as int, self.diagnostics@.len() as int)), TokenKind::RParen),
            invariant
                moved(*old(self), *self),
                old(self).pos < self.pos,
                self.tokens@ == ts,
                self.eof@ == eof,
                whole == types_at(ts, j1, eof, seq![], seq![], TokenKind::RParen),
                grows_by(d0, self.diagnostics@,
                    dviews(self.diagnostics@.subrange(d0.len() as int, self.diagnostics@.len() as int))),
            ensures
                whole == (ann_views(params@), self.pos as int,
                    dviews(self.diagnostics@.subrange(d0.len() as int, self.diagnostics@.len() as int))),
            decreases self.eof@ - self.pos,
        {
            proof { use_type_invariant(&*self); }
            let ghost p0 = self.pos as int;
            let ghost before = self.diagnostics@;
            let ghost ps0 = params@;
            let ghost acc_d = dviews(before.subrange(d0.len() as int, before.len() as int));
            let sub = self.parse_type_annotation();
            let ghost res = type_at(ts, p0, eof);
            let ghost after = self.diagnostics@;
            if let Some(ty) = sub {
                params.push(ty);
                proof { lemma_ann_views_push(ps0, ty); }
            }
            proof {
                lemma_grows_trans(d0, before, after, acc_d, res.2);
                assert(dviews(after.subrange(d0.len() as int, after.len() as int)) == acc_d + res.2);
            }
            if !self.eat(TokenKind::Comma) {
                break;
            }
        }
        let ghost e = self.pos as int;
        let ghost mid = self.diagnostics@;
        self.expect(TokenKind::RParen, "E0104", "unclosed `(` in function type");
        let ghost d1 = self.diagnostics@;
        proof {
            let dm = dviews(mid.subrange(d0.len() as int, mid.len() as int));
            if ts[e].kind != TokenKind::RParen {
                lemma_grows_append(d0, mid, d1, dm);
            } else {
                assert(d1 == mid);
            }
        }
        let ghost p1 = self.pos as int;
        if !self.expect(TokenKind::Arrow, "E0102", "expected `->` in function type") {
            proof {
                let dd = dviews(d1.subrange(d0.len() as int, d1.len() as int));
                lemma_grows_append(d0, d1, self.diagnostics@, dd);
            }
            return None;
        }
        let ret = match self.parse_type_annotation() {
            Some(t) => t,
            None => {
                proof {
                    let dd = dviews(d1.subrange(d0.len() as int, d1.len() as int));
                    lemma_grows_trans(d0, d1, self.diagnostics@, dd, type_at(ts, p1 + 1, eof).2);
                }
                return None;
            }
        };
        proof {
            let dd = dviews(d1.subrange(d0.len() as int, d1.len() as int));
            lemma_grows_trans(d0, d1, self.diagnostics@, dd, type_at(ts, p1 + 1, eof).2);
        }
        let span = start.merge(ret.span);
        Some(TypeAnnotation { kind: TypeKind::Fn { params, ret: Box::new(ret) }, span })
    }
}


/// The operator and the left binding power of an infix token, by
/// precedence level from `||` (loosest) to `*`, `/`, `%` (tightest).
pub open spec fn infix_spec(kind: TokenKind) -> Option<(BinOp, u8)> {
    match kind {
        TokenKind::PipePipe => Some((BinOp::Or, 2u8)),
        TokenKind::AmpAmp => Some((BinOp::And, 4u8)),
        TokenKind::EqEq => Some((BinOp::Eq, 6u8)),
        TokenKind::BangEq => Some((BinOp::Ne, 6u8)),
        TokenKind::Lt => Some((BinOp::Lt, 8u8)),
        TokenKind::LtEq => Some((BinOp::Le, 8u8)),
        TokenKind::Gt => Some((BinOp::Gt, 8u8)),
        TokenKind::GtEq => Some((BinOp::Ge, 8u8)),
        TokenKind::PlusPlus => Some((BinOp::Concat, 10u8)),
        TokenKind::Plus => Some((BinOp::Add, 12u8)),
        TokenKind::Minus => Some((BinOp::Sub, 12u8)),
        TokenKind::Star => Some((BinOp::Mul, 14u8)),
        TokenKind::Slash => Some((BinOp::Div, 14u8)),
        TokenKind::Percent => Some((BinOp::Mod, 14u8)),
        _ => None,
    }
}

/// Each infix token stands for the operator its own text denotes: the
/// symbol of the operator that [`infix_spec`] gives a token is the token
/// kind's text (`>=` gives `>=`, `<` gives `<`, and so on), so two different
/// infix tokens never give the same operator.
pub proof fn lemma_infix_operator_is_its_token(k: TokenKind, k2: TokenKind)
    ensures
        infix_spec(k) matches Some((op, _)) ==> crate::infer::binop_text(op) == crate::lexer::kind_name(k),
        infix_spec(k) is Some && infix_spec(k2) is Some && k != k2 ==> ({
            let a = infix_spec(k)->0;
            let b = infix_spec(k2)->0;
            a.0 != b.0
        }),
{
    reveal_strlit("||");
    reveal_strlit("&&");
    reveal_strlit("==");
    reveal_strlit("!=");
    reveal_strlit("<");
    reveal_strlit("<=");
    reveal_strlit(">");
    reveal_strlit(">=");
    reveal_strlit("++");
    reveal_strlit("+");
    reveal_strlit("-");
    reveal_strlit("*");
    reveal_strlit("/");
    reveal_strlit("%");
}

/// The binding power of an infix token (none for another token).
pub open spec fn infix_power(k: TokenKind) -> int {
    match infix_spec(k) {
        Some((_, p)) => p as int,
        None => -1,
    }
}

/// The binding powers of the infix operators, loosest first: `||`, `&&`,
/// `==` and `!=`, the comparisons `<` `<=` `>` `>=`, `++`, `+` and `-`,
/// then `*` `/` `%`; operators of one group bind alike.
pub proof fn lemma_infix_precedence()
    ensures
        infix_power(TokenKind::PipePipe) < infix_power(TokenKind::AmpAmp),
        infix_power(TokenKind::AmpAmp) < infix_power(TokenKind::EqEq),
        infix_power(TokenKind::EqEq) == infix_power(TokenKind::BangEq),
        infix_power(TokenKind::BangEq) < infix_power(TokenKind::Lt),
        infix_power(TokenKind::Lt) == infix_power(TokenKind::LtEq),
        infix_power(TokenKind::Lt) == infix_power(TokenKind::Gt),
        infix_power(TokenKind::Lt) == infix_power(TokenKind::GtEq),
        infix_power(TokenKind::GtEq) < infix_power(TokenKind::PlusPlus),
        infix_power(TokenKind::PlusPlus) < infix_power(TokenKind::Plus),
        infix_power(TokenKind::Plus) == infix_power(TokenKind::Minus),
        infix_power(TokenKind::Minus) < infix_power(TokenKind::Star),
        infix_power(TokenKind::Star) == infix_power(TokenKind::Slash),
        infix_power(TokenKind::Star) == infix_power(TokenKind::Percent),
{
}

/// The operator, left and right binding powers of an infix token.
/// Every operator is left-associative: the right power is one above the left.
fn infix_op(kind: TokenKind) -> (r: Option<(BinOp, u8, u8)>)
    ensures
        r matches Some(t) ==> t.2 == t.1 + 1 && t.1 <= 14 && kind != TokenKind::Eof,
        r is Some <==> infix_spec(kind) is Some,
        r matches Some(t) ==> infix_spec(kind) == Some((t.0, t.1)),
{
    match kind {
        TokenKind::PipePipe => Some((BinOp::Or, 2, 3)),
        TokenKind::AmpAmp => Some((BinOp::And, 4, 5)),
        TokenKind::EqEq => Some((BinOp::Eq, 6, 7)),
        TokenKind::BangEq => Some((BinOp::Ne, 6, 7)),
        TokenKind::Lt => Some((BinOp::Lt, 8, 9)),
        TokenKind::LtEq => Some((BinOp::Le, 8, 9)),
        TokenKind::Gt => Some((BinOp::Gt, 8, 9)),
        TokenKind::GtEq => Some((BinOp::Ge, 8, 9)),
        TokenKind::PlusPlus => Some((BinOp::Concat, 10, 11)),
        TokenKind::Plus => Some((BinOp::Add, 12, 13)),
        TokenKind::Minus => Some((BinOp::Sub, 12, 13)),
        TokenKind::Star => Some((BinOp::Mul, 14, 15)),
        TokenKind::Slash => Some((BinOp::Div, 14, 15)),
        TokenKind::Percent => Some((BinOp::Mod, 14, 15)),
        _ => None,
    }
}

/// Whether the first character of `s` is an ASCII capital letter.
fn starts_upper(s: &String) -> (r: bool)
    ensures
        r == (s@.len() > 0 && 'A' <= s@[0] <= 'Z'),
{
    let t = s.as_str();
    if t.unicode_len() == 0 {
        false
    } else {
        let c = t.get_char(0);
        'A' <= c && c <= 'Z'
    }
}

impl Parser {
    /// Parse an integer literal and report range errors instead of silently
    /// changing the program value.
    fn parse_i64_literal(&mut self, text: &String, span: Span) -> (r: Option<i64>)
        ensures
            moved(*old(self), *final(self)),
            final(self).pos == old(self).pos,
            r == parse_i64_spec(text@),
            r is Some ==> final(self).diagnostics@ == old(self).diagnostics@,
            r is None ==> reports_range(old(self).diagnostics@, final(self).diagnostics@, text@, span),
    {
        proof { use_type_invariant(&*self); }
        match parse_i64(text.as_str()) {
            Some(v) => Some(v),
            None => {
                let msg = cat(cat(owned("integer literal `"), text.as_str()), "` is out of range for Int");
                self.report(Diagnostic::with_severity("E0100", Severity::Error, msg, span)
                    .with_label(Label::new(span, "out of range"))
                    .with_help("Int values must fit in a signed 64-bit integer"));
                None
            }
        }
    }

    /// Parse a negated integer literal, allowing `-9223372036854775808`.
    fn parse_negative_i64_literal(&mut self, text: &String, span: Span) -> (r: Option<i64>)
        ensures
            moved(*old(self), *final(self)),
            final(self).pos == old(self).pos,
            r == parse_i64_spec(seq!['-'] + text@),
            r is Some ==> final(self).diagnostics@ == old(self).diagnostics@,
            r is None ==> reports_range(old(self).diagnostics@, final(self).diagnostics@, seq!['-'] + text@, span),
    {
        proof { use_type_invariant(&*self); }
        let signed = cat(owned("-"), text.as_str());
        proof { reveal_strlit("-"); assert(signed@ =~= seq!['-'] + text@); }
        match parse_i64(signed.as_str()) {
            Some(v) => Some(v),
            None => {
                let msg = cat(cat(owned("integer literal `"), signed.as_str()), "` is out of range for Int");
                self.report(Diagnostic::with_severity("E0100", Severity::Error, msg, span)
                    .with_label(Label::new(span, "out of range"))
                    .with_help("Int values must fit in a signed 64-bit integer"));
                None
            }
        }
    }

    // ---------------------------------------------------------------
    // Patterns
    // ---------------------------------------------------------------

    /// Parse a pattern, as [`pattern_at`] reads it from the current token.
    fn parse_pattern(&mut self) -> (r: Option<Pattern>)
        ensures
            moved(*old(self), *final(self)),
            r is Some ==> old(self).pos < final(self).pos,
            ({
                let res = pattern_at(old(self).tokens@, old(self).pos as int, old(self).eof@);
                &&& opt_pview(r) == res.0
                &&& final(self).pos == res.1
                &&& grows_by(old(self).diagnostics@, final(self).diagnostics@, res.2)
            }),
        decreases old(self).eof@ - old(self).pos,
    {
        proof { use_type_invariant(&*self); }
        let ghost ts = self.tokens@;
        let ghost eof = self.eof@;
        let ghost i0 = self.pos as int;
        let ghost d0 = self.diagnostics@;
        proof { lemma_grows_none(d0); }
        let k = self.kind();
        if k == TokenKind::IntLit {
            let span = self.current_span();
            let text = self.current_text();
            self.advance();
            let value = match self.parse_i64_literal(&text, span) {
                Some(v) => v,
                None => {
                    proof { lemma_grows_push(d0, self.diagnostics@.last()); }
                    return None;
                }
            };
            Some(Pattern { kind: PatternKind::Literal { value: LitValue::Int(value) }, span })
        } else if k == TokenKind::FloatLit {
            let span = self.current_span();
            let text = self.current_text();
            self.advance();
            Some(Pattern { kind: PatternKind::Literal { value: LitValue::Float(text) }, span })
        } else if k == TokenKind::StringLit {
            let span = self.current_span();
            let raw = self.current_text();
            self.advance();
            let content = unescape_string(raw.as_str());
            Some(Pattern { kind: PatternKind::Literal { value: LitValue::String(content) }, span })
        } else if k == TokenKind::BoolLit {
            let span = self.current_span();
            let value = eq_lit(&self.current().text, "true");
            self.advance();
            Some(Pattern { kind: PatternKind::Literal { value: LitValue::Bool(value) }, span })
        } else if k == TokenKind::Ident {
            let span = self.current_span();
            let name = self.current_text();
            self.advance();
            if starts_upper(&name) {
                if self.eat(TokenKind::LParen) {
                    let ghost j1 = self.pos as int;
                    let mut fields: Vec<Pattern> = Vec::new();
                    proof {
                        lemma_grows_none(d0);
                        assert(pviews(fields@) =~= Seq::<SPat>::empty());
                    }
                    while !self.check(TokenKind::RParen) && !self.at_eof()
                        invariant_except_break
                            fields_at(ts, j1, eof, seq![], seq![]) == fields_at(ts, self.pos as int, eof, pviews(fields@),
                                dviews(self.diagnostics@.subrange(d0.len() as int, self.diagnostics@.len() as int))),
                        invariant
                            moved(*old(self), *self),
                            old(self).pos < self.pos,
                            self.tokens@ == ts,
                            self.eof@ == eof,
                            0 <= eof < ts.len(),
                            grows_by(d0, self.diagnostics@,
                                dviews(self.diagnostics@.subrange(d0.len() as int, self.diagnostics@.len() as int))),
                        ensures
                            fields_at(ts, j1, eof, seq![], seq![]) == (pviews(fields@), self.pos as int,
                                dviews(self.diagnostics@.subrange(d0.len() as int, self.diagnostics@.len() as int))),
                        decreases self.eof@ - self.pos,
                    {
                        let ghost p0 = self.pos as int;
                        let ghost before = self.diagnostics@;
                        let ghost fs0 = fields@;
                        let ghost acc_d = dviews(before.subrange(d0.len() as int, before.len() as int));
                        let sub = self.parse_pattern();
                        let ghost res = pattern_at(ts, p0, eof);
                        let ghost after = self.diagnostics@;
                        if let Some(p) = sub {
                            fields.push(p);
                            proof { lemma_pviews_push(fs0, p); }
                        }
                        proof {
                            lemma_grows_trans(d0, before, after, acc_d, res.2);
                            assert(dviews(after.subrange(d0.len() as int, after.len() as int)) == acc_d + res.2);
                        }
                        if !self.eat(TokenKind::Comma) {
                            break;
                        }
                    }
                    let ghost e = self.pos as int;
                    let ghost mid = self.diagnostics@;
                    self.expect(TokenKind::RParen, "E0104", "unclosed `(` in variant pattern");
                    proof {
                        let dm = dviews(mid.subrange(d0.len() as int, mid.len() as int));
                        if ts[e].kind == TokenKind::RParen {
                            assert(self.diagnostics@ == mid);
                        } else {
                            lemma_grows_push(mid, self.diagnostics@.last());
                            lemma_grows_trans(d0, mid, self.diagnostics@, dm, seq![dview(self.diagnostics@.last())]);
                            assert(dm + seq![dview(self.diagnostics@.last())] =~= dm.push(
                                DiagV { code: "E0104"@, message: "unclosed `(` in variant pattern"@, span: ts[e].span }));
                        }
                    }
                    let end = self.previous().span;
                    Some(Pattern { kind: PatternKind::Variant { name, fields }, span: span.merge(end) })
                } else {
                    proof { assert(pviews(Seq::<Pattern>::empty()) =~= Seq::<SPat>::empty()); }
                    Some(Pattern { kind: PatternKind::Variant { name, fields: Vec::new() }, span })
                }
            } else {
                Some(Pattern { kind: PatternKind::Ident { name }, span })
            }
        } else if k == TokenKind::Underscore {
            let span = self.current_span();
            self.advance();
            Some(Pattern { kind: PatternKind::Wildcard, span })
        } else if k == TokenKind::Minus {
            let start = self.current_span();
            self.advance();
            if self.check(TokenKind::IntLit) {
                let text = self.current_text();
                let end = self.current_span();
                self.advance();
                let value = match self.parse_negative_i64_literal(&text, start.merge(end)) {
                    Some(v) => v,
                    None => {
                        proof { lemma_grows_push(d0, self.diagnostics@.last()); }
                        return None;
                    }
                };
                Some(Pattern { kind: PatternKind::Literal { value: LitValue::Int(value) }, span: start.merge(end) })
            } else if self.check(TokenKind::FloatLit) {
                let text = self.current_text();
                let end = self.current_span();
                self.advance();
                let negated = cat(owned("-"), text.as_str());
                Some(Pattern { kind: PatternKind::Literal { value: LitValue::Float(negated) }, span: start.merge(end) })
            } else {
                let span = self.current_span();
                self.report(Diagnostic::error("E0103", "expected a number after `-` in pattern", span)
                    .with_label(Label::new(span, "expected a number literal")));
                proof { lemma_grows_push(d0, self.diagnostics@.last()); }
                None
            }
        } else {
            let span = self.current_span();
            let msg = cat(cat(owned("expected pattern, found `"), self.current().text.as_str()), "`");
            self.report(Diagnostic::with_severity("E0103", Severity::Error, msg, span)
                .with_label(Label::new(span, "expected a pattern")));
            proof { lemma_grows_push(d0, self.diagnostics@.last()); }
            None
        }
    }
}


impl Parser {
    // ---------------------------------------------------------------
    // Expressions (Pratt parsing)
    // ---------------------------------------------------------------

    /// Parse an expression.
    fn parse_expr(&mut self) -> (r: Option<Expr>)
        ensures
            moved(*old(self), *final(self)),
            r is Some ==> old(self).pos < final(self).pos,
            frag_bp(old(self).tokens@, old(self).pos as int, old(self).eof@, 0) matches Some(res)
                ==> expr_read(r, final(self).pos as int, old(self).diagnostics@, final(self).diagnostics@, res),
        decreases old(self).eof@ - old(self).pos, 9nat,
    {
        proof { use_type_invariant(&*self); }
        self.parse_expr_bp(0)
    }

    /// Parse an expression whose operators bind at least as tightly as
    /// `min_bp`.
    #[verifier::rlimit(40)]
    #[verifier::spinoff_prover]
    fn parse_expr_bp(&mut self, min_bp: u8) -> (r: Option<Expr>)
        ensures
            moved(*old(self), *final(self)),
            r is Some ==> old(self).pos < final(self).pos,
            frag_bp(old(self).tokens@, old(self).pos as int, old(self).eof@, min_bp as int) matches Some(res)
                ==> expr_read(r, final(self).pos as int, old(self).diagnostics@, final(self).diagnostics@, res),
        decreases old(self).eof@ - old(self).pos, 8nat,
    {
        proof { use_type_invariant(&*self); }
        let ghost ts = self.tokens@;
        let ghost eof = self.eof@;
        let ghost d0 = self.diagnostics@;
        let ghost whole = frag_bp(ts, self.pos as int, eof, min_bp as int);
        let mut lhs = match self.parse_prefix() {
            Some(e) => e,
            None => return None,
        };
        let ghost mut acc: Seq<DiagV> = if whole is Some {
            let rs = frag_prefix(ts, old(self).pos as int, eof)->0;
            rs.2
        } else {
            seq![]
        };
        loop
            invariant
                moved(*old(self), *self),
                old(self).pos < self.pos,
                ts == self.tokens@,
                eof == self.eof@,
                d0 == old(self).diagnostics@,
                whole == frag_bp(ts, old(self).pos as int, eof, min_bp as int),
                whole is Some ==> eview(lhs) is Some && grows_by(d0, self.diagnostics@, acc)
                    && whole == infix_loop(ts, self.pos as int, eof, min_bp as int, eview(lhs)->0, acc),
            ensures
                whole is Some ==> eview(lhs) is Some && grows_by(d0, self.diagnostics@, acc)
                    && whole == Some((Some(eview(lhs)->0), self.pos as int, acc)),
            decreases self.eof@ - self.pos,
        {
                let ghost p_call = self.pos as int;
            if self.check(TokenKind::LParen) {
                if min_bp > 18 {
                    break;
                }
                let ghost before = self.diagnostics@;
                lhs = self.parse_fn_call(lhs);
                proof {
                    if whole is Some {
                        let rs = args_at(ts, p_call + 1, eof, seq![], seq![], TokenKind::RParen)->0;
                        let closed = ts[rs.1].kind == TokenKind::RParen;
                        let d3 = if closed {
                            rs.2
                        } else {
                            rs.2.push(DiagV { code: "E0104"@, message: "unclosed `(` in function call"@, span: ts[rs.1].span })
                        };
                        lemma_grows_trans(d0, before, self.diagnostics@, acc, d3);
                        acc = acc + d3;
                    }
                }
                continue;
            }
            let kind = self.kind();
            match infix_op(kind) {
                Some((op, left, right)) => {
                    if left < min_bp {
                        break;
                    }
                    let op_span = self.current_span();
                    let ghost p = self.pos as int;
                    let ghost before = self.diagnostics@;
                    self.advance();
                    match self.parse_expr_bp(right) {
                        Some(rhs) => {
                            proof {
                                if whole is Some {
                                    let rs = frag_bp(ts, p + 1, eof, right as int)->0;
                                    lemma_grows_trans(d0, before, self.diagnostics@, acc, rs.2);
                                    acc = acc + rs.2;
                                }
                            }
                            let span = lhs.span.merge(rhs.span);
                            lhs = Expr { kind: ExprKind::BinaryOp { op, lhs: Box::new(lhs), rhs: Box::new(rhs) }, span };
                        }
                        None => {
                            let span = self.current_span();
                            let msg = cat(cat(owned("expected expression after `"), kind.name()), "`");
                            let ghost mid = self.diagnostics@;
                            self.report(Diagnostic::with_severity("E0101", Severity::Error, msg, span)
                                .with_label(Label::new(op_span, "operator here"))
                                .with_label(Label::new(span, "expected an expression")));
                            proof {
                                if whole is Some {
                                    let rs = frag_bp(ts, p + 1, eof, right as int)->0;
                                    lemma_grows_trans(d0, before, mid, acc, rs.2);
                                    lemma_grows_push(mid, self.diagnostics@.last());
                                    lemma_grows_trans(d0, mid, self.diagnostics@, acc + rs.2, seq![dview(self.diagnostics@.last())]);
                                    assert((acc + rs.2) + seq![dview(self.diagnostics@.last())] =~= (acc + rs.2).push(
                                        DiagV { code: "E0101"@, message: "expected expression after `"@ + crate::lexer::kind_name(kind) + "`"@,
                                            span: ts[self.pos as int].span }));
                                }
                            }
                            return Some(lhs);
                        }
                    }
                }
                None => {
                    break;
                }
            }
        }
        Some(lhs)
    }

    /// Parse a prefix expression or atom.
    #[verifier::spinoff_prover]
    fn parse_prefix(&mut self) -> (r: Option<Expr>)
        ensures
            moved(*old(self), *final(self)),
            r is Some ==> old(self).pos < final(self).pos,
            old(self).tokens@[old(self).pos as int].kind != TokenKind::Bang
                && old(self).tokens@[old(self).pos as int].kind != TokenKind::Minus
                ==> atom_ok(old(self).tokens@, old(self).pos as int, old(self).eof@, r, final(self).pos as int,
                    old(self).diagnostics@, final(self).diagnostics@),
            frag_prefix(old(self).tokens@, old(self).pos as int, old(self).eof@) matches Some(res)
                ==> expr_read(r, final(self).pos as int, old(self).diagnostics@, final(self).diagnostics@, res),
        decreases old(self).eof@ - old(self).pos, 7nat,
    {
        proof { use_type_invariant(&*self); }
        let kind = self.kind();
        if kind == TokenKind::Bang || kind == TokenKind::Minus {
            let op = if kind == TokenKind::Bang { UnOp::Not } else { UnOp::Neg };
            let start = self.current_span();
            self.advance();
            let operand = match self.parse_expr_bp(16) {
                Some(e) => e,
                None => return None,
            };
            let span = start.merge(operand.span);
            return Some(Expr { kind: ExprKind::UnaryOp { op, operand: Box::new(operand) }, span });
        }
        proof {
            assert(frag_prefix(self.tokens@, self.pos as int, self.eof@) == frag_atom(self.tokens@, self.pos as int, self.eof@));
        }
        self.parse_atom()
    }

    /// Parse an atomic expression (literals, identifiers, let, if, match,
    /// lists, blocks, parenthesized expressions).
    #[verifier::spinoff_prover]
    #[verifier::rlimit(100)]
    fn parse_atom(&mut self) -> (r: Option<Expr>)
        ensures
            moved(*old(self), *final(self)),
            r is Some ==> old(self).pos < final(self).pos,
            atom_ok(old(self).tokens@, old(self).pos as int, old(self).eof@, r, final(self).pos as int,
                old(self).diagnostics@, final(self).diagnostics@),
            frag_atom(old(self).tokens@, old(self).pos as int, old(self).eof@) matches Some(res)
                ==> expr_read(r, final(self).pos as int, old(self).diagnostics@, final(self).diagnostics@, res),
        decreases old(self).eof@ - old(self).pos, 6nat,
    {
        proof { reveal_with_fuel(frag_atom, 1); }
        proof {
            use_type_invariant(&*self);
            lemma_grows_none(self.diagnostics@);
        }
        let k = self.kind();
        if k == TokenKind::IntLit {
            let span = self.current_span();
            let text = self.current_text();
            self.advance();
            let ghost d0 = self.diagnostics@;
            let kind = match self.parse_i64_literal(&text, span) {
                Some(value) => ExprKind::Literal { value: LitValue::Int(value) },
                None => {
                    proof { lemma_grows_push(d0, self.diagnostics@.last()); }
                    ExprKind::Error
                }
            };
            Some(Expr { kind, span })
        } else if k == TokenKind::FloatLit {
            let span = self.current_span();
            let text = self.current_text();
            self.advance();
            Some(Expr { kind: ExprKind::Literal { value: LitValue::Float(text) }, span })
        } else if k == TokenKind::StringLit {
            let span = self.current_span();
            let raw = self.current_text();
            self.advance();
            let content = unescape_string(raw.as_str());
            Some(Expr { kind: ExprKind::Literal { value: LitValue::String(content) }, span })
        } else if k == TokenKind::BoolLit {
            let span = self.current_span();
            let value = eq_lit(&self.current().text, "true");
            self.advance();
            Some(Expr { kind: ExprKind::Literal { value: LitValue::Bool(value) }, span })
        } else if k == TokenKind::Ident {
            self.parse_ident_or_variant()
        } else if k == TokenKind::Let {
            self.parse_let_expr()
        } else if k == TokenKind::If {
            self.parse_if_else()
        } else if k == TokenKind::Match {
            self.parse_match()
        } else if k == TokenKind::LBracket {
            self.parse_list_literal()
        } else if k == TokenKind::LBrace {
            let r = self.parse_block_expr();
                r
        } else if k == TokenKind::LParen {
            let start = self.current_span();
            self.advance();
            if self.check(TokenKind::RParen) {
                self.advance();
                let span = start.merge(self.previous().span);
                Some(Expr { kind: ExprKind::Literal { value: LitValue::Unit }, span })
            } else {
                let ghost d0 = old(self).diagnostics@;
                let inner = match self.parse_expr() {
                    Some(e) => e,
                    None => return None,
                };
                let ghost mid = self.diagnostics@;
                let ghost p = self.pos as int;
                self.expect(TokenKind::RParen, "E0104", "unclosed `(`");
                proof {
                    let ts = self.tokens@;
                    let eof = self.eof@;
                    if frag_bp(ts, old(self).pos + 1, eof, 0) is Some && ts[p].kind != TokenKind::RParen {
                        let rs = frag_bp(ts, old(self).pos + 1, eof, 0)->0;
                        lemma_grows_append(d0, mid, self.diagnostics@, rs.2);
                    }
                }
                let span = start.merge(self.previous().span);
                Some(Expr { kind: inner.kind, span })
            }
        } else {
            let span = self.current_span();
            let msg = cat(cat(owned("expected expression, found `"), self.current().text.as_str()), "`");
            let ghost d0 = self.diagnostics@;
            self.report(Diagnostic::with_severity("E0101", Severity::Error, msg, span)
                .with_label(Label::new(span, "expected an expression")));
            proof { lemma_grows_push(d0, self.diagnostics@.last()); }
            None
        }
    }

    /// Parse an identifier, which might be a variant constructor: a name
    /// starting with a capital letter.
    fn parse_ident_or_variant(&mut self) -> (r: Option<Expr>)
        requires
            old(self).tokens@[old(self).pos as int].kind == TokenKind::Ident,
        ensures
            ({
                let t = old(self).tokens@[old(self).pos as int];
                let upper = t.text@.len() > 0 && 'A' <= t.text@[0] <= 'Z';
                let j = step(old(self).pos as int, old(self).eof@);
                &&& r matches Some(e)
                &&& upper ==> (r->0.kind matches ExprKind::VariantConstruct { name, .. } && name@ == t.text@)
                &&& !upper ==> (r->0.kind matches ExprKind::Ident { name } && name@ == t.text@)
                    && r->0.span == t.span && final(self).pos == j && final(self).diagnostics == old(self).diagnostics
                &&& upper && old(self).tokens@[j].kind != TokenKind::LParen ==> r->0.kind->VariantConstruct_args@.len() == 0
                    && r->0.span == t.span && final(self).pos == j && final(self).diagnostics == old(self).diagnostics
            }),
            moved(*old(self), *final(self)),
            r is Some ==> old(self).pos < final(self).pos,
            frag_atom(old(self).tokens@, old(self).pos as int, old(self).eof@) matches Some(res)
                ==> expr_read(r, final(self).pos as int, old(self).diagnostics@, final(self).diagnostics@, res),
        decreases old(self).eof@ - old(self).pos, 5nat,
    {
        proof { reveal_with_fuel(frag_atom, 1); }
        proof { use_type_invariant(&*self); }
        let ghost ts = self.tokens@;
        let ghost eof = self.eof@;
        let ghost d0 = self.diagnostics@;
        proof { lemma_grows_none(d0); }
        let span = self.current_span();
        let name = self.current_text();
        self.advance();
        let is_upper = starts_upper(&name);
        if is_upper && self.check(TokenKind::LParen) {
            self.advance();
            let ghost j1 = self.pos as int;
            let mut args: Vec<Expr> = Vec::new();
            let ghost whole = args_at(ts, j1, eof, seq![], seq![], TokenKind::RParen);
            proof { assert(eviews(args@) == Some(Seq::<SExpr>::empty())); }
            while !self.check(TokenKind::RParen) && !self.at_eof()
                invariant_except_break
                    whole is Some ==> eviews(args@) is Some && whole == args_at(ts, self.pos as int, eof, eviews(args@)->0,
                        dviews(self.diagnostics@.subrange(d0.len() as int, self.diagnostics@.len() as int)), TokenKind::RParen),
                invariant
                    moved(*old(self), *self),
                    old(self).pos < self.pos,
                    self.tokens@ == ts,
                    self.eof@ == eof,
                    0 <= eof < ts.len(),
                    whole == args_at(ts, j1, eof, seq![], seq![], TokenKind::RParen),
                    whole is Some ==> grows_by(d0, self.diagnostics@,
                        dviews(self.diagnostics@.subrange(d0.len() as int, self.diagnostics@.len() as int))),
                ensures
                    whole is Some ==> eviews(args@) is Some && whole == Some((eviews(args@)->0, self.pos as int,
                        dviews(self.diagnostics@.subrange(d0.len() as int, self.diagnostics@.len() as int)))),
                decreases self.eof@ - self.pos,
            {
                        let ghost p0 = self.pos as int;
                let ghost before = self.diagnostics@;
                let ghost es0 = args@;
                let ghost acc_d = dviews(before.subrange(d0.len() as int, before.len() as int));
                let sub = self.parse_expr();
                let ghost res = frag_bp(ts, p0, eof, 0);
                let ghost after = self.diagnostics@;
                if let Some(e) = sub {
                    args.push(e);
                    proof {
                        if whole is Some {
                            lemma_eviews_push(es0, e);
                        }
                    }
                }
                proof {
                    if whole is Some {
                        let rs = res->0;
                        lemma_grows_trans(d0, before, after, acc_d, rs.2);
                        assert(dviews(after.subrange(d0.len() as int, after.len() as int)) == acc_d + rs.2);
                    }
                }
                if !self.eat(TokenKind::Comma) {
                    break;
                }
            }
            let ghost e = self.pos as int;
            let ghost mid = self.diagnostics@;
            self.expect(TokenKind::RParen, "E0104", "unclosed `(` in variant constructor");
            proof {
                let dm = dviews(mid.subrange(d0.len() as int, mid.len() as int));
                if whole is Some {
                    if ts[e].kind != TokenKind::RParen {
                        lemma_grows_append(d0, mid, self.diagnostics@, dm);
                    } else {
                        assert(self.diagnostics@ == mid);
                    }
                }
            }
            let end = self.previous().span;
            Some(Expr { kind: ExprKind::VariantConstruct { name, args }, span: span.merge(end) })
        } else if is_upper {
            proof { assert(eviews(Seq::<Expr>::empty()) == Some(Seq::<SExpr>::empty())); }
            Some(Expr { kind: ExprKind::VariantConstruct { name, args: Vec::new() }, span })
        } else {
            Some(Expr { kind: ExprKind::Ident { name }, span })
        }
    }

    /// Parse a function call: `callee(arg1, arg2, ...)`.
    fn parse_fn_call(&mut self, callee: Expr) -> (r: Expr)
        requires
            old(self).tokens@[old(self).pos as int].kind == TokenKind::LParen,
        ensures
            moved(*old(self), *final(self)),
            old(self).pos < final(self).pos,
            args_at(old(self).tokens@, old(self).pos + 1, old(self).eof@, seq![], seq![], TokenKind::RParen) matches Some(res) ==> ({
                let ts = old(self).tokens@;
                let eof = old(self).eof@;
                let closed = ts[res.1].kind == TokenKind::RParen;
                let end = if closed { step(res.1, eof) } else { res.1 };
                let d3 = if closed {
                    res.2
                } else {
                    res.2.push(DiagV { code: "E0104"@, message: "unclosed `(` in function call"@, span: ts[res.1].span })
                };
                &&& final(self).pos == end
                &&& grows_by(old(self).diagnostics@, final(self).diagnostics@, d3)
                &&& eview(callee) is Some ==> eview(r) == Some(SExpr { kind: ExprV::Call(Box::new(eview(callee)->0), res.0),
                    span: callee.span.spec_merge(ts[end - 1].span) })
            }),
        decreases old(self).eof@ - old(self).pos, 5nat,
    {
        proof { use_type_invariant(&*self); }
        let ghost ts = self.tokens@;
        let ghost eof = self.eof@;
        let ghost d0 = self.diagnostics@;
        self.advance();
        let ghost j1 = self.pos as int;
        let mut args: Vec<Expr> = Vec::new();
        let ghost whole = args_at(ts, j1, eof, seq![], seq![], TokenKind::RParen);
        proof {
            lemma_grows_none(d0);
            assert(eviews(args@) == Some(Seq::<SExpr>::empty()));
        }
        while !self.check(TokenKind::RParen) && !self.at_eof()
            invariant_except_break
                whole is Some ==> eviews(args@) is Some && whole == args_at(ts, self.pos as int, eof, eviews(args@)->0,
                    dviews(self.diagnostics@.subrange(d0.len() as int, self.diagnostics@.len() as int)), TokenKind::RParen),
            invariant
                moved(*old(self), *self),
                old(self).pos < self.pos,
                self.tokens@ == ts,
                self.eof@ == eof,
                0 <= eof < ts.len(),
                whole == args_at(ts, j1, eof, seq![], seq![], TokenKind::RParen),
                whole is Some ==> grows_by(d0, self.diagnostics@,
                    dviews(self.diagnostics@.subrange(d0.len() as int, self.diagnostics@.len() as int))),
            ensures
                whole is Some ==> eviews(args@) is Some && whole == Some((eviews(args@)->0, self.pos as int,
                    dviews(self.diagnostics@.subrange(d0.len() as int, self.diagnostics@.len() as int)))),
            decreases self.eof@ - self.pos,
        {
                let ghost p0 = self.pos as int;
            let ghost before = self.diagnostics@;
            let ghost es0 = args@;
            let ghost acc_d = dviews(before.subrange(d0.len() as int, before.len() as int));
            let sub = self.parse_expr();
            let ghost res = frag_bp(ts, p0, eof, 0);
            let ghost after = self.diagnostics@;
            if let Some(e) = sub {
                args.push(e);
                proof {
                    if whole is Some {
                        lemma_eviews_push(es0, e);
                    }
                }
            }
            proof {
                if whole is Some {
                    let rs = res->0;
                    lemma_grows_trans(d0, before, after, acc_d, rs.2);
                    assert(dviews(after.subrange(d0.len() as int, after.len() as int)) == acc_d + rs.2);
                }
            }
            if !self.eat(TokenKind::Comma) {
                break;
            }
        }
        let ghost e = self.pos as int;
        let ghost mid = self.diagnostics@;
        self.expect(TokenKind::RParen, "E0104", "unclosed `(` in function call");
        proof {
            let dm = dviews(mid.subrange(d0.len() as int, mid.len() as int));
            if whole is Some {
                if ts[e].kind != TokenKind::RParen {
                    lemma_grows_append(d0, mid, self.diagnostics@, dm);
                } else {
                    assert(self.diagnostics@ == mid);
                }
            }
        }
        let span = callee.span.merge(self.previous().span);
        Expr { kind: ExprKind::FnCall { callee: Box::new(callee), args }, span }
    }

    /// Parse a list literal: `[expr, expr, ...]` or `[]`.
    fn parse_list_literal(&mut self) -> (r: Option<Expr>)
        requires
            old(self).tokens@[old(self).pos as int].kind == TokenKind::LBracket,
        ensures
            r matches Some(e) ==> e.kind is ListLiteral,
            moved(*old(self), *final(self)),
            r is Some ==> old(self).pos < final(self).pos,
            frag_atom(old(self).tokens@, old(self).pos as int, old(self).eof@) matches Some(res)
                ==> expr_read(r, final(self).pos as int, old(self).diagnostics@, final(self).diagnostics@, res),
        decreases old(self).eof@ - old(self).pos, 5nat,
    {
        proof { reveal_with_fuel(frag_atom, 1); }
        proof { use_type_invariant(&*self); }
        let ghost ts = self.tokens@;
        let ghost eof = self.eof@;
        let ghost d0 = self.diagnostics@;
        let start = self.current_span();
        self.advance();
        let ghost j1 = self.pos as int;
        let mut elements: Vec<Expr> = Vec::new();
        let ghost whole = args_at(ts, j1, eof, seq![], seq![], TokenKind::RBracket);
        proof {
            lemma_grows_none(d0);
            assert(eviews(elements@) == Some(Seq::<SExpr>::empty()));
        }
        while !self.check(TokenKind::RBracket) && !self.at_eof()
            invariant_except_break
                whole is Some ==> eviews(elements@) is Some && whole == args_at(ts, self.pos as int, eof, eviews(elements@)->0,
                    dviews(self.diagnostics@.subrange(d0.len() as int, self.diagnostics@.len() as int)), TokenKind::RBracket),
            invariant
                moved(*old(self), *self),
                old(self).pos < self.pos,
                self.tokens@ == ts,
                self.eof@ == eof,
                0 <= eof < ts.len(),
                whole == args_at(ts, j1, eof, seq![], seq![], TokenKind::RBracket),
                whole is Some ==> grows_by(d0, self.diagnostics@,
                    dviews(self.diagnostics@.subrange(d0.len() as int, self.diagnostics@.len() as int))),
            ensures
                whole is Some ==> eviews(elements@) is Some && whole == Some((eviews(elements@)->0, self.pos as int,
                    dviews(self.diagnostics@.subrange(d0.len() as int, self.diagnostics@.len() as int)))),
            decreases self.eof@ - self.pos,
        {
                let ghost p0 = self.pos as int;
            let ghost before = self.diagnostics@;
            let ghost es0 = elements@;
            let ghost acc_d = dviews(before.subrange(d0.len() as int, before.len() as int));
            let sub = self.parse_expr();
            let ghost res = frag_bp(ts, p0, eof, 0);
            let ghost after = self.diagnostics@;
            if let Some(e) = sub {
                elements.push(e);
                proof {
                    if whole is Some {
                        lemma_eviews_push(es0, e);
                    }
                }
            }
            proof {
                if whole is Some {
                    let rs = res->0;
                    lemma_grows_trans(d0, before, after, acc_d, rs.2);
                    assert(dviews(after.subrange(d0.len() as int, after.len() as int)) == acc_d + rs.2);
                }
            }
            if !self.eat(TokenKind::Comma) {
                break;
            }
        }
        let ghost e = self.pos as int;
        let ghost mid = self.diagnostics@;
        self.expect(TokenKind::RBracket, "E0104", "unclosed `[` in list literal");
        proof {
            let dm = dviews(mid.subrange(d0.len() as int, mid.len() as int));
            if whole is Some {
                if ts[e].kind != TokenKind::RBracket {
                    lemma_grows_append(d0, mid, self.diagnostics@, dm);
                } else {
                    assert(self.diagnostics@ == mid);
                }
            }
        }
        let span = start.merge(self.previous().span);
        Some(Expr { kind: ExprKind::ListLiteral { elements }, span })
    }

    /// Parse a let expression: `let name = value; body`.
    #[verifier::spinoff_prover]
    #[verifier::rlimit(60)]
    fn parse_let_expr(&mut self) -> (r: Option<Expr>)
        requires
            old(self).tokens@[old(self).pos as int].kind == TokenKind::Let,
        ensures
            r matches Some(e) ==> e.kind is LetExpr,
            moved(*old(self), *final(self)),
            r is Some ==> old(self).pos < final(self).pos,
            let_rest(old(self).tokens@, old(self).pos + 1, old(self).eof@, old(self).tokens@[old(self).pos as int].span) matches Some(res)
                ==> expr_read(r, final(self).pos as int, old(self).diagnostics@, final(self).diagnostics@, res),
        decreases old(self).eof@ - old(self).pos, 5nat,
    {
        proof { use_type_invariant(&*self); reveal_with_fuel(let_rest, 1); }
        let ghost ts = self.tokens@;
        let ghost eof = self.eof@;
        let ghost d0 = self.diagnostics@;
        let start = self.current_span();
        self.advance();
        let name = if self.check_binder() {
            let n = self.current_text();
            self.advance();
            n
        } else {
            let span = self.current_span();
            self.report(Diagnostic::error("E0100", "expected variable name after `let`", span)
                .with_label(Label::new(span, "expected an identifier")));
            proof { lemma_grows_push(d0, self.diagnostics@.last()); }
            return None;
        };
        proof { lemma_grows_none(d0); }
        let ghost mut dpre: Seq<DiagV> = seq![];
        let type_annotation = if self.eat(TokenKind::Colon) {
            let ghost q = self.pos as int;
            match self.parse_type_annotation() {
                Some(t) => {
                    proof { dpre = type_at(ts, q, eof).2; }
                    Some(t)
                }
                None => return None,
            }
        } else {
            None
        };
        self.parse_let_from_eq(start, name, type_annotation, Ghost(d0), Ghost(dpre))
    }

    /// Parse the rest of a let expression from its `=`: the value, `;` and
    /// the body, after the diagnostics `dpre` that reading it from `d0` gave
    /// so far.
    #[verifier::spinoff_prover]
    #[verifier::rlimit(100)]
    fn parse_let_from_eq(&mut self, start: Span, name: String, type_annotation: Option<TypeAnnotation>,
        Ghost(d0): Ghost<Seq<Diagnostic>>, Ghost(dpre): Ghost<Seq<DiagV>>) -> (r: Option<Expr>)
        requires
            grows_by(d0, old(self).diagnostics@, dpre),
        ensures
            r matches Some(e) ==> e.kind is LetExpr,
            moved(*old(self), *final(self)),
            r is Some ==> old(self).pos < final(self).pos,
            let_eq_rest(old(self).tokens@, old(self).pos as int, old(self).eof@, name@, opt_ann_view(type_annotation), start, dpre)
                matches Some(res) ==> expr_read(r, final(self).pos as int, d0, final(self).diagnostics@, res),
        decreases old(self).eof@ - old(self).pos, 4nat,
    {
        proof { use_type_invariant(&*self); reveal_with_fuel(let_eq_rest, 1); }
        let ghost ts = self.tokens@;
        let ghost eof = self.eof@;
        let ghost d1 = self.diagnostics@;
        if !self.expect(TokenKind::Eq, "E0107", "expected `=` in let expression") {
            proof { lemma_grows_append(d0, d1, self.diagnostics@, dpre); }
            return None;
        }
        let ghost q = self.pos as int;
        let ghost rv = frag_bp(ts, q, eof, 0);
        let ghost dv: Seq<DiagV> = if rv is Some { let rvs = rv->0; rvs.2 } else { seq![] };
        let value = match self.parse_expr() {
            Some(e) => e,
            None => {
                proof {
                    if rv is Some {
                        lemma_grows_trans(d0, d1, self.diagnostics@, dpre, dv);
                    }
                }
                return None;
            }
        };
        let ghost mid = self.diagnostics@;
        let ghost p = self.pos as int;
        proof {
            if rv is Some {
                lemma_grows_trans(d0, d1, mid, dpre, dv);
            }
        }
        self.expect(TokenKind::Semi, "E0105", "expected `;` after let expression value");
        let ghost after = self.diagnostics@;
        let ghost rr = self.pos as int;
        let ghost d1x: Seq<DiagV> = if ts[p].kind == TokenKind::Semi { dpre + dv } else {
            (dpre + dv).push(DiagV { code: "E0105"@, message: "expected `;` after let expression value"@, span: ts[p].span }) };
        proof {
            if rv is Some && ts[p].kind != TokenKind::Semi {
                lemma_grows_append(d0, mid, after, dpre + dv);
            }
        }
        let ghost rb = frag_bp(ts, rr, eof, 0);
        let r = self.parse_let_body(start, name, type_annotation, value);
        proof {
            if rv is Some && rb is Some {
                let rbs = rb->0;
                lemma_grows_trans(d0, after, self.diagnostics@, d1x, rbs.2);
            }
        }
        r
    }

    /// Parse the body of a let expression after its `;` and build the let
    /// expression of `name`, `type_annotation` and `value` from it.
    #[verifier::spinoff_prover]
    fn parse_let_body(&mut self, start: Span, name: String, type_annotation: Option<TypeAnnotation>, value: Expr) -> (r: Option<Expr>)
        ensures
            r matches Some(e) ==> e.kind is LetExpr,
            moved(*old(self), *final(self)),
            r is Some ==> old(self).pos < final(self).pos,
            frag_bp(old(self).tokens@, old(self).pos as int, old(self).eof@, 0) matches Some(res) ==> {
                &&& final(self).pos == res.1
                &&& grows_by(old(self).diagnostics@, final(self).diagnostics@, res.2)
                &&& match res.0 {
                    None => r is None,
                    Some(b) => r matches Some(e) && (eview(value) matches Some(v) ==> eview(e) == Some(SExpr {
                        kind: ExprV::Let(name@, opt_ann_view(type_annotation), Box::new(v), Box::new(b)),
                        span: start.spec_merge(b.span) })),
                }
            },
        decreases old(self).eof@ - old(self).pos, 10nat,
    {
        let body = match self.parse_expr() {
            Some(e) => e,
            None => return None,
        };
        let span = start.merge(body.span);
        Some(Expr {
            kind: ExprKind::LetExpr { name, type_annotation, value: Box::new(value), body: Box::new(body) },
            span,
        })
    }

    /// Parse an if-else expression: `if cond { then } else { else_ }`.
    #[verifier::spinoff_prover]
    #[verifier::rlimit(100)]
    fn parse_if_else(&mut self) -> (r: Option<Expr>)
        requires
            old(self).tokens@[old(self).pos as int].kind == TokenKind::If,
        ensures
            r matches Some(e) ==> e.kind is IfElse,
            moved(*old(self), *final(self)),
            r is Some ==> old(self).pos < final(self).pos,
            if_rest(old(self).tokens@, old(self).pos + 1, old(self).eof@, old(self).tokens@[old(self).pos as int].span) matches Some(res)
                ==> expr_read(r, final(self).pos as int, old(self).diagnostics@, final(self).diagnostics@, res),
        decreases old(self).eof@ - old(self).pos, 5nat,
    {
        proof { reveal_with_fuel(if_rest, 1); }
        proof { use_type_invariant(&*self); }
        let ghost ts = self.tokens@;
        let ghost eof = self.eof@;
        let ghost d0 = self.diagnostics@;
        let ghost whole = if_rest(ts, self.pos + 1, eof, ts[self.pos as int].span);
        let start = self.current_span();
        self.advance();
        let ghost j = self.pos as int;
        let ghost rc = frag_bp(ts, j, eof, 0);
        let ghost dcond: Seq<DiagV> = if rc is Some { let rcs = rc->0; rcs.2 } else { seq![] };
        let condition = match self.parse_expr() {
            Some(e) => e,
            None => return None,
        };
        let ghost p = self.pos as int;
        let ghost dc = self.diagnostics@;
        let ghost rt = block_at(ts, p, eof);
        let ghost dthen: Seq<DiagV> = if rt is Some { let rts = rt->0; rts.2 } else { seq![] };
        let then_branch = match self.parse_block_expr() {
            Some(e) => e,
            None => {
                proof {
                    if rc is Some && rt is Some {
                        lemma_grows_trans(d0, dc, self.diagnostics@, dcond, dthen);
                        if ts[p].kind != TokenKind::LBrace {
                            let x = DiagV { code: "E0104"@, message: "expected `{`"@, span: ts[p].span };
                            assert(dthen =~= seq![x]);
                            assert(dcond + dthen =~= dcond.push(x));
                        }
                    }
                }
                return None;
            }
        };
        let ghost q = self.pos as int;
        let ghost dt = self.diagnostics@;
        let ghost d3: Seq<DiagV> = dcond + dthen;
        proof {
            if rc is Some && rt is Some {
                lemma_grows_trans(d0, dc, dt, dcond, dthen);
            }
        }
        if !self.eat(TokenKind::Else) {
            let span = self.current_span();
            self.report(Diagnostic::error("E0108", "missing `else` branch in if expression", span)
                .with_label(Label::new(span, "expected `else` here"))
                .with_help("in LM, `if` is an expression and must have both `then` and `else` branches"));
            proof {
                if rc is Some && rt is Some {
                    lemma_grows_append(d0, dt, self.diagnostics@, d3);
                }
            }
            return None;
        }
        proof {
            if rc is Some && rt is Some {
                assert(j <= p && p < q && q < eof);
            }
        }
        let ghost rf_some: bool = if ts[q + 1].kind == TokenKind::If { if_rest(ts, q + 2, eof, ts[q + 1].span) is Some } else {
            block_at(ts, q + 1, eof) is Some };
        let ghost dfe: Seq<DiagV> = if ts[q + 1].kind == TokenKind::If {
            match if_rest(ts, q + 2, eof, ts[q + 1].span) { Some(x) => x.2, None => seq![] }
        } else {
            match block_at(ts, q + 1, eof) { Some(x) => x.2, None => seq![] }
        };
        let else_branch = if self.check(TokenKind::If) {
            match self.parse_if_else() {
                Some(e) => e,
                None => {
                    proof {
                        if rc is Some && rt is Some && rf_some {
                            lemma_grows_trans(d0, dt, self.diagnostics@, d3, dfe);
                        }
                    }
                    return None;
                }
            }
        } else {
            match self.parse_block_expr() {
                Some(e) => e,
                None => {
                    proof {
                        if rc is Some && rt is Some && rf_some {
                            lemma_grows_trans(d0, dt, self.diagnostics@, d3, dfe);
                            if ts[q + 1].kind != TokenKind::LBrace {
                                let x = DiagV { code: "E0104"@, message: "expected `{`"@, span: ts[q + 1].span };
                                assert(dfe =~= seq![x]);
                                assert(d3 + dfe =~= d3.push(x));
                            }
                        }
                    }
                    return None;
                }
            }
        };
        proof {
            if rc is Some && rt is Some && rf_some {
                lemma_grows_trans(d0, dt, self.diagnostics@, d3, dfe);
            }
        }
        let span = start.merge(else_branch.span);
        proof {
            if rc is Some && rt is Some && rf_some {
                let rts = rt->0;
                let tb = rts.0->0;
                assert(eview(condition) is Some);
                assert(eview(then_branch) == Some(block_expr(tb.0, tb.1)));
                assert(eview(else_branch) is Some);
                assert(self.pos as int == if ts[q + 1].kind == TokenKind::If {
                    let rfs = if_rest(ts, q + 2, eof, ts[q + 1].span)->0; rfs.1 } else { let rfs = block_at(ts, q + 1, eof)->0; rfs.1 });
            }
        }
        Some(Expr {
            kind: ExprKind::IfElse {
                condition: Box::new(condition),
                then_branch: Box::new(then_branch),
                else_branch: Box::new(else_branch),
            },
            span,
        })
    }

    /// Parse a match expression: `match scrutinee { arm1, arm2, ... }`.
    #[verifier::spinoff_prover]
    fn parse_match(&mut self) -> (r: Option<Expr>)
        requires
            old(self).tokens@[old(self).pos as int].kind == TokenKind::Match,
        ensures
            r matches Some(e) ==> e.kind is Match,
            moved(*old(self), *final(self)),
            r is Some ==> old(self).pos < final(self).pos,
            match_rest(old(self).tokens@, old(self).pos + 1, old(self).eof@, old(self).tokens@[old(self).pos as int].span) matches Some(res)
                ==> expr_read(r, final(self).pos as int, old(self).diagnostics@, final(self).diagnostics@, res),
        decreases old(self).eof@ - old(self).pos, 5nat,
    {
        proof { reveal_with_fuel(match_rest, 1); reveal_with_fuel(arms_at, 1); }
        proof { use_type_invariant(&*self); }
        let ghost ts = self.tokens@;
        let ghost eof = self.eof@;
        let ghost d0 = self.diagnostics@;
        let ghost whole0 = match_rest(ts, self.pos + 1, eof, ts[self.pos as int].span);
        let start = self.current_span();
        self.advance();
        let ghost j = self.pos as int;
        let ghost rs = frag_bp(ts, j, eof, 0);
        let ghost dsc: Seq<DiagV> = if rs is Some { let rss = rs->0; rss.2 } else { seq![] };
        let scrutinee = match self.parse_expr() {
            Some(e) => e,
            None => return None,
        };
        let ghost p = self.pos as int;
        let ghost dp = self.diagnostics@;
        if !self.expect(TokenKind::LBrace, "E0104", "expected `{` after match scrutinee") {
            proof {
                if rs is Some {
                    lemma_grows_append(d0, dp, self.diagnostics@, dsc);
                }
            }
            return None;
        }
        let ghost j1 = self.pos as int;
        let ghost dl = self.diagnostics@;
        let ghost whole = arms_at(ts, j1, eof, seq![], seq![]);
        let mut arms: Vec<MatchArm> = Vec::new();
        proof {
            lemma_grows_none(dl);
            assert(armviews(arms@) == Some(Seq::<ArmV>::empty()));
            assert(dviews(dl.subrange(dl.len() as int, dl.len() as int)) =~= Seq::<DiagV>::empty());
        }
        while !self.check(TokenKind::RBrace) && !self.at_eof()
            invariant
                moved(*old(self), *self),
                old(self).pos < self.pos,
                self.tokens@ == ts,
                self.eof@ == eof,
                0 <= eof < ts.len(),
                ts[eof].kind == TokenKind::Eof,
                whole == arms_at(ts, j1, eof, seq![], seq![]),
                whole is Some ==> armviews(arms@) is Some && whole == arms_at(ts, self.pos as int, eof, armviews(arms@)->0,
                    dviews(self.diagnostics@.subrange(dl.len() as int, self.diagnostics@.len() as int))),
                whole is Some ==> grows_by(dl, self.diagnostics@,
                    dviews(self.diagnostics@.subrange(dl.len() as int, self.diagnostics@.len() as int))),
            decreases self.eof@ - self.pos,
        {
            proof { reveal_with_fuel(arms_at, 1); }
            let ghost p0 = self.pos;
            let ghost before = self.diagnostics@;
            let ghost as0 = arms@;
            let ghost acc_d = dviews(before.subrange(dl.len() as int, before.len() as int));
            let ghost ra = arm_at(ts, p0 as int, eof);
            match self.parse_match_arm() {
                Some(arm) => {
                    arms.push(arm);
                    proof {
                        if whole is Some {
                            lemma_armviews_push(as0, arm);
                        }
                    }
                }
                None => {
                    let ghost k = self.pos as int;
                    let ghost after0 = self.diagnostics@;
                    while !self.check(TokenKind::Comma) && !self.check(TokenKind::RBrace) && !self.at_eof()
                        invariant
                            moved(*old(self), *self),
                            old(self).pos < self.pos,
                            p0 <= self.pos,
                            self.pos == p0 ==> self.tokens@[self.pos as int].kind != TokenKind::RBrace
                                && self.pos != self.eof@,
                            self.tokens@ == ts,
                            self.eof@ == eof,
                            self.diagnostics@ == after0,
                            skip_arm(ts, self.pos as int, eof) == skip_arm(ts, k, eof),
                        decreases self.eof@ - self.pos,
                    {
                        proof { reveal_with_fuel(arms_at, 1); }
                        self.advance();
                    }
                }
            }
            let ghost after = self.diagnostics@;
            proof {
                if whole is Some {
                    let rsa = ra->0;
                    lemma_grows_trans(dl, before, after, acc_d, rsa.2);
                    assert(dviews(after.subrange(dl.len() as int, after.len() as int)) == acc_d + rsa.2);
                }
            }
            let ghost p1 = self.pos;
            self.eat(TokenKind::Comma);
            proof {
                if self.pos == p0 {
                    assert(p1 == p0);
                }
            }
        }
        let ghost e = self.pos as int;
        let ghost mid = self.diagnostics@;
        self.expect(TokenKind::RBrace, "E0104", "unclosed `{` in match expression");
        proof {
            if rs is Some && whole is Some {
                let dm = dviews(mid.subrange(dl.len() as int, mid.len() as int));
                lemma_grows_trans(d0, dl, mid, dsc, dm);
                if ts[e].kind != TokenKind::RBrace {
                    lemma_grows_append(d0, mid, self.diagnostics@, dsc + dm);
                }
            }
        }
        let span = start.merge(self.previous().span);
        Some(Expr { kind: ExprKind::Match { scrutinee: Box::new(scrutinee), arms }, span })
    }

    /// Parse a match arm: `pattern -> expression`.
    #[verifier::spinoff_prover]
    #[verifier::rlimit(40)]
    fn parse_match_arm(&mut self) -> (r: Option<MatchArm>)
        ensures
            moved(*old(self), *final(self)),
            r is Some ==> old(self).pos < final(self).pos,
            arm_at(old(self).tokens@, old(self).pos as int, old(self).eof@) matches Some(res) ==> {
                &&& final(self).pos == res.1
                &&& grows_by(old(self).diagnostics@, final(self).diagnostics@, res.2)
                &&& match res.0 {
                    Some(av) => r matches Some(a) && pview(a.pattern) == av.pat && eview(a.body) == Some(av.body) && a.span == av.span,
                    None => r is None,
                }
            },
        decreases old(self).eof@ - old(self).pos, 5nat,
    {
        proof { reveal_with_fuel(arm_at, 1); }
        proof { use_type_invariant(&*self); }
        let ghost ts = self.tokens@;
        let ghost eof = self.eof@;
        let ghost d0 = self.diagnostics@;
        let start = self.current_span();
        let ghost rp = pattern_at(ts, self.pos as int, eof);
        let pattern = match self.parse_pattern() {
            Some(p) => p,
            None => return None,
        };
        let ghost p1 = self.pos as int;
        let ghost d1 = self.diagnostics@;
        if !self.expect(TokenKind::Arrow, "E0106", "expected `->` in match arm") {
            proof { lemma_grows_append(d0, d1, self.diagnostics@, rp.2); }
            return None;
        }
        let ghost rb = frag_bp(ts, p1 + 1, eof, 0);
        let ghost db: Seq<DiagV> = if rb is Some { let rbs = rb->0; rbs.2 } else { seq![] };
        let body = match self.parse_expr() {
            Some(e) => e,
            None => {
                proof { if rb is Some { lemma_grows_trans(d0, d1, self.diagnostics@, rp.2, db); } }
                return None;
            }
        };
        proof { if rb is Some { lemma_grows_trans(d0, d1, self.diagnostics@, rp.2, db); } }
        let span = start.merge(body.span);
        Some(MatchArm { pattern, body, span })
    }

    /// Parse a block expression: `{ expr1; expr2; ... exprN }`. The last
    /// expression is the block's value.
    fn parse_block_expr(&mut self) -> (r: Option<Expr>)
        ensures
            r matches Some(e) ==> e.kind is Block,
            moved(*old(self), *final(self)),
            r is Some ==> old(self).pos < final(self).pos,
            block_at(old(self).tokens@, old(self).pos as int, old(self).eof@) matches Some(res)
                ==> block_read(r, final(self).pos as int, old(self).diagnostics@, final(self).diagnostics@, res),
        decreases old(self).eof@ - old(self).pos, 5nat,
    {
        proof { reveal_with_fuel(block_rest, 1); reveal_with_fuel(block_items_at, 1); }
        proof { use_type_invariant(&*self); }
        let ghost ts = self.tokens@;
        let ghost eof = self.eof@;
        let ghost d0 = self.diagnostics@;
        let start = self.current_span();
        if !self.expect(TokenKind::LBrace, "E0104", "expected `{`") {
            proof { lemma_grows_push(d0, self.diagnostics@.last()); }
            return None;
        }
        let ghost j1 = self.pos as int;
        let ghost whole = block_items_at(ts, j1, eof, seq![], seq![]);
        let mut exprs: Vec<Expr> = Vec::new();
        proof {
            lemma_grows_none(d0);
            assert(eviews(exprs@) == Some(Seq::<SExpr>::empty()));
        }
        while !self.check(TokenKind::RBrace) && !self.at_eof()
            invariant_except_break
                whole is Some ==> eviews(exprs@) is Some && whole == block_items_at(ts, self.pos as int, eof, eviews(exprs@)->0,
                    dviews(self.diagnostics@.subrange(d0.len() as int, self.diagnostics@.len() as int))),
                whole is Some && (ts[self.pos as int].kind == TokenKind::RBrace || self.pos == eof) ==> whole == Some((eviews(exprs@)->0,
                    self.pos as int, dviews(self.diagnostics@.subrange(d0.len() as int, self.diagnostics@.len() as int)))),
            invariant
                moved(*old(self), *self),
                old(self).pos < self.pos,
                self.tokens@ == ts,
                self.eof@ == eof,
                0 <= eof < ts.len(),
                ts[eof].kind == TokenKind::Eof,
                whole == block_items_at(ts, j1, eof, seq![], seq![]),
                whole is Some ==> grows_by(d0, self.diagnostics@,
                    dviews(self.diagnostics@.subrange(d0.len() as int, self.diagnostics@.len() as int))),
            ensures
                whole is Some ==> eviews(exprs@) is Some && whole == Some((eviews(exprs@)->0, self.pos as int,
                    dviews(self.diagnostics@.subrange(d0.len() as int, self.diagnostics@.len() as int)))),
            decreases self.eof@ - self.pos,
        {
            proof { reveal_with_fuel(block_items_at, 1); }
            let ghost p0 = self.pos as int;
            let ghost before = self.diagnostics@;
            let ghost es0 = exprs@;
            let ghost acc_d = dviews(before.subrange(d0.len() as int, before.len() as int));
            let ghost res = frag_bp(ts, p0, eof, 0);
            match self.parse_expr() {
                Some(e) => {
                    exprs.push(e);
                    proof {
                        if whole is Some {
                            lemma_eviews_push(es0, e);
                        }
                    }
                }
                None => {
                    let ghost k = self.pos as int;
                    let ghost after0 = self.diagnostics@;
                    while !self.check(TokenKind::Semi) && !self.check(TokenKind::RBrace) && !self.at_eof()
                        invariant
                            moved(*old(self), *self),
                            old(self).pos < self.pos,
                            p0 <= self.pos,
                            self.tokens@ == ts,
                            self.eof@ == eof,
                            self.diagnostics@ == after0,
                            skip_stmt(ts, self.pos as int, eof) == skip_stmt(ts, k, eof),
                        decreases self.eof@ - self.pos,
                    {
                        proof { reveal_with_fuel(block_items_at, 1); }
                        self.advance();
                    }
                }
            }
            let ghost after = self.diagnostics@;
            proof {
                if whole is Some {
                    let rs = res->0;
                    lemma_grows_trans(d0, before, after, acc_d, rs.2);
                    assert(dviews(after.subrange(d0.len() as int, after.len() as int)) == acc_d + rs.2);
                }
            }
            if self.check(TokenKind::Semi) {
                self.advance();
            } else {
                break;
            }
        }
        let ghost e = self.pos as int;
        let ghost mid = self.diagnostics@;
        self.expect(TokenKind::RBrace, "E0104", "unclosed `{`");
        proof {
            if whole is Some {
                let dm = dviews(mid.subrange(d0.len() as int, mid.len() as int));
                if ts[e].kind != TokenKind::RBrace {
                    lemma_grows_append(d0, mid, self.diagnostics@, dm);
                }
            }
        }
        let span = start.merge(self.previous().span);
        Some(Expr { kind: ExprKind::Block { exprs }, span })
    }
}


/// The first `Eof` of `ts` from `i` is the `Eof` at `e` when no token
/// between them is one.
pub proof fn lemma_first_eof_at(ts: Seq<Token>, i: int, e: int)
    requires
        0 <= i <= e < ts.len(),
        ts[e].kind == TokenKind::Eof,
        forall|k: int| i <= k < e ==> ts[k].kind != TokenKind::Eof,
    ensures
        first_eof_from(ts, i) == e,
    decreases e - i,
{
    if i < e {
        lemma_first_eof_at(ts, i + 1, e);
    }
}

impl Parser {
    /// Parse the token stream into a [`Program`].
    ///
    /// Returns the (potentially partial) AST and the diagnostics: parse
    /// errors only. The program's span is the first token's span when it has
    /// no declaration, else that span merged with the `Eof` token's.
    pub fn parse(self) -> (r: (Program, Vec<Diagnostic>))
        requires
            self.at_start(),
        ensures
            parse_outcome(self.token_seq(), r.0, r.1@),
    {
        let mut p = self;
        proof {
            use_type_invariant(&p);
            lemma_first_eof_at(p.tokens@, 0, p.eof@);
        }
        let ghost p_start = p;
        let ghost ts = p.tokens@;
        let ghost eof = p.eof@;
        let ghost whole = program_at(ts, 0, eof, seq![], seq![]);
        let ghost mut lets: Seq<DeclV> = seq![];
        let start_span = p.current_span();
        let mut decls: Vec<Decl> = Vec::new();
        proof { assert(dviews(p.diagnostics@) =~= Seq::<DiagV>::empty()); }
        while !p.at_eof()
            invariant
                moved(p_start, p),
                p_start == self,
                p.pos == 0 ==> decls@.len() == 0 && p.diagnostics@.len() == 0,
                ts == p.tokens@,
                eof == p.eof@,
                whole == program_at(ts, 0, eof, seq![], seq![]),
                whole is Some ==> {
                    &&& lets.len() == decls@.len()
                    &&& forall|k: int| 0 <= k < lets.len() ==> decl_is(#[trigger] decls@[k], lets[k])
                    &&& whole == program_at(ts, p.pos as int, eof, lets, dviews(p.diagnostics@))
                },
            decreases p.eof@ - p.pos,
        {
            let ghost i = p.pos as int;
            let ghost d0 = p.diagnostics@;
            let ghost res = simple_decl_at(ts, i, eof);
            match p.parse_decl() {
                Some(decl) => {
                    proof {
                        if whole is Some {
                            let rs = res->0;
                            let lv = rs.0->0;
                            lemma_grows_views(d0, p.diagnostics@, rs.2);
                            lets = lets.push(lv);
                        }
                    }
                    decls.push(decl);
                }
                None => {
                    let ghost j = p.pos as int;
                    let ghost d1 = p.diagnostics@;
                    p.synchronize_top_level();
                    proof {
                        if whole is Some {
                            let rs = res->0;
                            lemma_grows_views(d0, d1, rs.2);
                        }
                    }
                }
            }
        }
        proof {
            if whole is Some {
                assert(whole == Some((lets, dviews(p.diagnostics@))));
            }
        }
        let end_span = p.current_span();
        let span = if decls.len() == 0 { start_span } else { start_span.merge(end_span) };
        proof { use_type_invariant(&p); }
        (Program { decls, span }, p.diagnostics)
    }

    // ---------------------------------------------------------------
    // Error recovery
    // ---------------------------------------------------------------

    /// Skip tokens until a likely top-level declaration boundary: just after
    /// a `;` or `}`, or at a token that starts a declaration.
    fn synchronize_top_level(&mut self)
        ensures
            moved(*old(self), *final(self)),
            final(self).pos == sync_at(old(self).tokens@, old(self).pos as int, old(self).eof@),
            final(self).diagnostics == old(self).diagnostics,
    {
        proof { use_type_invariant(&*self); }
        while !self.at_eof()
            invariant
                moved(*old(self), *self),
                sync_at(old(self).tokens@, old(self).pos as int, old(self).eof@)
                    == sync_at(self.tokens@, self.pos as int, self.eof@),
                self.diagnostics == old(self).diagnostics,
            decreases self.eof@ - self.pos,
        {
            let prev = self.previous().kind;
            if prev == TokenKind::Semi || prev == TokenKind::RBrace {
                return;
            }
            let k = self.kind();
            if k == TokenKind::Fn || k == TokenKind::Type || k == TokenKind::Let || k == TokenKind::Io {
                return;
            }
            self.advance();
        }
    }

    /// Whether the current token starts a top-level declaration.
    fn is_decl_start(&self) -> (r: bool)
        ensures
            r ==> self.pos < self.eof@,
            r == ({
                let k = self.tokens@[self.pos as int].kind;
                k == TokenKind::Fn || k == TokenKind::Type || k == TokenKind::Let
                    || k == TokenKind::Io || k == TokenKind::Pure
            }),
    {
        proof { use_type_invariant(self); }
        let k = self.kind();
        k == TokenKind::Fn || k == TokenKind::Type || k == TokenKind::Let || k == TokenKind::Io || k == TokenKind::Pure
    }

    // ---------------------------------------------------------------
    // Top-level declarations
    // ---------------------------------------------------------------

    /// Parse a top-level declaration; at least one token is consumed.
    fn parse_decl(&mut self) -> (r: Option<Decl>)
        requires
            old(self).pos < old(self).eof@,
        ensures
            moved(*old(self), *final(self)),
            old(self).pos < final(self).pos,
            simple_decl_at(old(self).tokens@, old(self).pos as int, old(self).eof@) matches Some(res)
                ==> decl_read(r, final(self).pos as int, old(self).diagnostics@, final(self).diagnostics@, res),
    {
        proof { use_type_invariant(&*self); }
        let ghost d0 = self.diagnostics@;
        let k = self.kind();
        if k == TokenKind::Fn {
            self.parse_fn_def(Effect::Pure)
        } else if k == TokenKind::Io {
            let start = self.current_span();
            self.advance();
            if self.check(TokenKind::Fn) {
                self.parse_fn_def_with_effect(Effect::Io, start)
            } else {
                let span = self.current_span();
                self.report(Diagnostic::error("E0100", "expected `fn` after `io`", span)
                    .with_label(Label::new(span, "expected `fn`"))
                    .with_help("`io` can only appear before `fn` to mark a function as IO-performing"));
                proof { lemma_grows_push(d0, self.diagnostics@.last()); }
                None
            }
        } else if k == TokenKind::Pure {
            let start = self.current_span();
            self.advance();
            if self.check(TokenKind::Fn) {
                self.parse_fn_def_with_effect(Effect::Pure, start)
            } else {
                let span = self.current_span();
                self.report(Diagnostic::error("E0100", "expected `fn` after `pure`", span)
                    .with_label(Label::new(span, "expected `fn`")));
                proof { lemma_grows_push(d0, self.diagnostics@.last()); }
                None
            }
        } else if k == TokenKind::Type {
            self.parse_type_def()
        } else if k == TokenKind::Let {
            self.parse_let_def()
        } else {
            let span = self.current_span();
            let msg = cat(cat(owned("unexpected token `"), self.current().text.as_str()),
                "`, expected a declaration (`fn`, `type`, or `let`)");
            self.report(Diagnostic::with_severity("E0100", Severity::Error, msg, span)
                .with_label(Label::new(span, "unexpected token")));
            proof { lemma_grows_push(d0, self.diagnostics@.last()); }
            self.advance();
            None
        }
    }

    /// Parse a function definition starting at `fn`.
    fn parse_fn_def(&mut self, effect: Effect) -> (r: Option<Decl>)
        requires
            old(self).tokens@[old(self).pos as int].kind == TokenKind::Fn,
        ensures
            moved(*old(self), *final(self)),
            old(self).pos < final(self).pos,
            fn_at(old(self).tokens@, old(self).pos as int, old(self).eof@, effect,
                old(self).tokens@[old(self).pos as int].span) matches Some(res)
                ==> decl_read(r, final(self).pos as int, old(self).diagnostics@, final(self).diagnostics@, res),
    {
        let start = self.current_span();
        self.parse_fn_def_with_effect(effect, start)
    }

    /// Parse a function definition with an explicit effect and start span.
    fn parse_fn_def_with_effect(&mut self, effect: Effect, start: Span) -> (r: Option<Decl>)
        requires
            old(self).tokens@[old(self).pos as int].kind == TokenKind::Fn,
        ensures
            moved(*old(self), *final(self)),
            old(self).pos < final(self).pos,
            fn_at(old(self).tokens@, old(self).pos as int, old(self).eof@, effect, start) matches Some(res)
                ==> decl_read(r, final(self).pos as int, old(self).diagnostics@, final(self).diagnostics@, res),
    {
        proof { use_type_invariant(&*self); }
        let ghost ts = self.tokens@;
        let ghost i = self.pos as int;
        let ghost eof = self.eof@;
        let ghost d0 = self.diagnostics@;
        let ghost whole = fn_at(ts, i, eof, effect, start);
        if !self.expect(TokenKind::Fn, "E0100", "expected `fn` keyword") {
            return None;
        }
        let name = if self.check(TokenKind::Ident) {
            let n = self.current_text();
            self.advance();
            n
        } else {
            let span = self.current_span();
            self.report(Diagnostic::error("E0100", "expected function name", span)
                .with_label(Label::new(span, "expected an identifier")));
            proof { lemma_grows_push(d0, self.diagnostics@.last()); }
            return None;
        };
        if !self.expect(TokenKind::LParen, "E0104", "expected `(` after function name") {
            proof { lemma_grows_push(d0, self.diagnostics@.last()); }
            return None;
        }
        let ghost q = self.pos as int;
        let params = self.parse_param_list();
        let ghost e = self.pos as int;
        let ghost dp = self.diagnostics@;
        let ghost pres = params_at(ts, q, eof, seq![], seq![]);
        self.expect(TokenKind::RParen, "E0104", "unclosed `(` in function parameters");
        let ghost r0 = self.pos as int;
        let ghost dr = self.diagnostics@;
        let ghost d1 = if ts[e].kind == TokenKind::RParen { pres.2 } else {
            pres.2.push(DiagV { code: "E0104"@, message: "unclosed `(` in function parameters"@, span: ts[e].span }) };
        proof {
            if ts[e].kind != TokenKind::RParen {
                lemma_grows_append(d0, dp, dr, pres.2);
            }
        }
        let ghost mut dpre: Seq<DiagV> = d1;
        let return_type = if self.eat(TokenKind::Arrow) {
            match self.parse_type_annotation() {
                Some(t) => {
                    proof {
                        let rt = type_at(ts, r0 + 1, eof);
                        lemma_grows_trans(d0, dr, self.diagnostics@, d1, rt.2);
                        dpre = d1 + rt.2;
                    }
                    Some(t)
                }
                None => {
                    proof {
                        let rt = type_at(ts, r0 + 1, eof);
                        lemma_grows_trans(d0, dr, self.diagnostics@, d1, rt.2);
                    }
                    return None;
                }
            }
        } else {
            None
        };
        let ghost b = self.pos as int;
        let ghost db = self.diagnostics@;
        let body = match self.parse_block_expr() {
            Some(bx) => bx,
            None => {
                proof {
                    if block_at(ts, b, eof) is Some {
                        let rb = block_at(ts, b, eof)->0;
                        lemma_grows_trans(d0, db, self.diagnostics@, dpre, rb.2);
                    }
                }
                return None;
            }
        };
        proof {
            if block_at(ts, b, eof) is Some {
                let rb = block_at(ts, b, eof)->0;
                lemma_grows_trans(d0, db, self.diagnostics@, dpre, rb.2);
            }
        }
        let span = start.merge(body.span);
        Some(Decl { kind: DeclKind::FnDef { name, effect, params, return_type, body }, span })
    }

    /// Parse a comma-separated parameter list (without the enclosing parens).
    fn parse_param_list(&mut self) -> (r: Vec<Param>)
        ensures
            moved(*old(self), *final(self)),
            ({
                let res = params_at(old(self).tokens@, old(self).pos as int, old(self).eof@, seq![], seq![]);
                &&& r@.map_values(|p: Param| param_view(p)) == res.0
                &&& final(self).pos == res.1
                &&& grows_by(old(self).diagnostics@, final(self).diagnostics@, res.2)
            }),
    {
        proof { use_type_invariant(&*self); }
        let ghost ts = self.tokens@;
        let ghost eof = self.eof@;
        let ghost d0 = self.diagnostics@;
        let ghost whole = params_at(ts, self.pos as int, eof, seq![], seq![]);
        let mut params: Vec<Param> = Vec::new();
        proof {
            lemma_grows_none(d0);
            assert(params@.map_values(|p: Param| param_view(p)) =~= Seq::<ParamV>::empty());
            assert(dviews(d0.subrange(d0.len() as int, d0.len() as int)) =~= Seq::<DiagV>::empty());
        }
        while !self.check(TokenKind::RParen) && !self.at_eof()
            invariant_except_break
                whole == params_at(ts, self.pos as int, eof, params@.map_values(|p: Param| param_view(p)),
                    dviews(self.diagnostics@.subrange(d0.len() as int, self.diagnostics@.len() as int))),
            invariant
                moved(*old(self), *self),
                self.tokens@ == ts,
                self.eof@ == eof,
                0 <= eof < ts.len(),
                ts[eof].kind == TokenKind::Eof,
                grows_by(d0, self.diagnostics@,
                    dviews(self.diagnostics@.subrange(d0.len() as int, self.diagnostics@.len() as int))),
            ensures
                whole == (params@.map_values(|p: Param| param_view(p)), self.pos as int,
                    dviews(self.diagnostics@.subrange(d0.len() as int, self.diagnostics@.len() as int))),
            decreases self.eof@ - self.pos,
        {
            let ghost p0 = self.pos as int;
            let ghost before = self.diagnostics@;
            let ghost ps0 = params@;
            let ghost acc_d = dviews(before.subrange(d0.len() as int, before.len() as int));
            let sub = self.parse_param();
            let ghost after = self.diagnostics@;
            if let Some(param) = sub {
                params.push(param);
                proof {
                    assert(params@.map_values(|p: Param| param_view(p))
                        =~= ps0.map_values(|p: Param| param_view(p)).push(param_view(param)));
                }
            }
            proof {
                let rs = param_at(ts, p0, eof);
                lemma_grows_trans(d0, before, after, acc_d, rs.2);
                assert(dviews(after.subrange(d0.len() as int, after.len() as int)) == acc_d + rs.2);
            }
            if !self.eat(TokenKind::Comma) {
                break;
            }
        }
        params
    }

    /// Parse a single parameter: `name` or `name: Type`.
    fn parse_param(&mut self) -> (r: Option<Param>)
        ensures
            moved(*old(self), *final(self)),
            ({
                let res = param_at(old(self).tokens@, old(self).pos as int, old(self).eof@);
                &&& res.0 == (match r { Some(p) => Some(param_view(p)), None => None })
                &&& final(self).pos == res.1
                &&& grows_by(old(self).diagnostics@, final(self).diagnostics@, res.2)
            }),
    {
        proof { use_type_invariant(&*self); }
        let ghost d0 = self.diagnostics@;
        let start = self.current_span();
        if !self.check_binder() {
            let span = self.current_span();
            self.report(Diagnostic::error("E0100", "expected parameter name", span)
                .with_label(Label::new(span, "expected an identifier")));
            proof { lemma_grows_push(d0, self.diagnostics@.last()); }
            return None;
        }
        let name = self.current_text();
        self.advance();
        proof { lemma_grows_none(d0); }
        let type_annotation = if self.eat(TokenKind::Colon) {
            match self.parse_type_annotation() {
                Some(t) => Some(t),
                None => return None,
            }
        } else {
            None
        };
        let span = start.merge(self.previous().span);
        Some(Param { name, type_annotation, span })
    }

    /// Parse a type definition: `type Name = | Variant1(...) | Variant2(...)`.
    fn parse_type_def(&mut self) -> (r: Option<Decl>)
        requires
            old(self).tokens@[old(self).pos as int].kind == TokenKind::Type,
        ensures
            moved(*old(self), *final(self)),
            old(self).pos < final(self).pos,
            type_decl_at(old(self).tokens@, old(self).pos as int, old(self).eof@) matches Some(res)
                ==> decl_read(r, final(self).pos as int, old(self).diagnostics@, final(self).diagnostics@, res),
    {
        proof { use_type_invariant(&*self); }
        let ghost ts = self.tokens@;
        let ghost i = self.pos as int;
        let ghost eof = self.eof@;
        let ghost d0 = self.diagnostics@;
        let start = self.current_span();
        self.advance();
        let name = if self.check(TokenKind::Ident) {
            let n = self.current_text();
            self.advance();
            n
        } else {
            let span = self.current_span();
            self.report(Diagnostic::error("E0100", "expected type name", span)
                .with_label(Label::new(span, "expected an identifier")));
            proof { lemma_grows_push(d0, self.diagnostics@.last()); }
            return None;
        };
        let ghost k = self.pos as int;
        let type_params = if self.check(TokenKind::Lt) { self.parse_type_params() } else { Vec::new() };
        let ghost k2 = self.pos as int;
        let ghost dt = self.diagnostics@;
        let ghost dtp: Seq<DiagV> = if self.diagnostics@.len() == d0.len() { seq![] } else { seq![dview(self.diagnostics@.last())] };
        proof {
            if dt.len() == d0.len() {
                lemma_grows_none(d0);
                assert(dt =~= d0);
            } else {
                lemma_grows_push(d0, dt.last());
            }
            assert(type_params@.map_values(|t: String| t@) =~= (if ts[k].kind == TokenKind::Lt && k < eof {
                tparams_at(ts, k + 1, eof, seq![]).0 } else { seq![] }));
        }
        if !self.expect(TokenKind::Eq, "E0107", "expected `=` after type name") {
            proof { lemma_grows_append(d0, dt, self.diagnostics@, dtp); }
            return None;
        }
        let mut variants: Vec<Variant> = Vec::new();
        self.eat(TokenKind::Pipe);
        let ghost v0 = self.pos as int;
        let ghost whole = variants_at(ts, v0, eof, seq![], seq![]);
        proof {
            assert(variants@.map_values(|v: Variant| variant_view(v)) =~= Seq::<VariantV>::empty());
            assert(dviews(dt.subrange(dt.len() as int, dt.len() as int)) =~= Seq::<DiagV>::empty());
            lemma_grows_none(dt);
        }
        loop
            invariant_except_break
                whole == variants_at(ts, self.pos as int, eof, variants@.map_values(|v: Variant| variant_view(v)),
                    dviews(self.diagnostics@.subrange(dt.len() as int, self.diagnostics@.len() as int))),
            invariant
                moved(*old(self), *self),
                old(self).pos < self.pos,
                self.tokens@ == ts,
                self.eof@ == eof,
                0 <= eof < ts.len(),
                ts[eof].kind == TokenKind::Eof,
                whole == variants_at(ts, v0, eof, seq![], seq![]),
                grows_by(dt, self.diagnostics@,
                    dviews(self.diagnostics@.subrange(dt.len() as int, self.diagnostics@.len() as int))),
            ensures
                whole == (variants@.map_values(|v: Variant| variant_view(v)), self.pos as int,
                    dviews(self.diagnostics@.subrange(dt.len() as int, self.diagnostics@.len() as int))),
            decreases self.eof@ - self.pos,
        {
            if self.at_eof() || self.is_decl_start() {
                break;
            }
            let ghost p0 = self.pos as int;
            let ghost before = self.diagnostics@;
            let ghost vs0 = variants@;
            let ghost acc_d = dviews(before.subrange(dt.len() as int, before.len() as int));
            let sub = self.parse_variant();
            let ghost after = self.diagnostics@;
            if let Some(variant) = sub {
                variants.push(variant);
                proof {
                    assert(variants@.map_values(|v: Variant| variant_view(v))
                        =~= vs0.map_values(|v: Variant| variant_view(v)).push(variant_view(variant)));
                }
            }
            proof {
                let rs = variant_at(ts, p0, eof);
                lemma_grows_trans(dt, before, after, acc_d, rs.2);
                assert(dviews(after.subrange(dt.len() as int, after.len() as int)) == acc_d + rs.2);
            }
            if !self.eat(TokenKind::Pipe) {
                break;
            }
        }
        proof {
            lemma_grows_trans(d0, dt, self.diagnostics@, dtp,
                dviews(self.diagnostics@.subrange(dt.len() as int, self.diagnostics@.len() as int)));
        }
        let span = if variants.len() > 0 {
            start.merge(variants[variants.len() - 1].span)
        } else {
            start.merge(self.previous().span)
        };
        Some(Decl { kind: DeclKind::TypeDef { name, type_params, variants }, span })
    }

    /// Parse type parameters: `<T, U>`.
    fn parse_type_params(&mut self) -> (r: Vec<String>)
        requires
            old(self).tokens@[old(self).pos as int].kind == TokenKind::Lt,
        ensures
            moved(*old(self), *final(self)),
            ({
                let (ps, e) = tparams_at(old(self).tokens@, old(self).pos + 1, old(self).eof@, seq![]);
                &&& r@.map_values(|t: String| t@) == ps
                &&& old(self).tokens@[e].kind == TokenKind::Gt ==> final(self).pos == e + 1
                    && final(self).diagnostics@ == old(self).diagnostics@
                &&& old(self).tokens@[e].kind != TokenKind::Gt ==> final(self).pos == e
                    && final(self).diagnostics@ == old(self).diagnostics@.push(final(self).diagnostics@.last())
                    && dview(final(self).diagnostics@.last()) == (DiagV { code: "E0104"@,
                        message: "unclosed `<` in type parameters"@, span: old(self).tokens@[e].span })
            }),
    {
        proof { use_type_invariant(&*self); }
        let ghost ts = self.tokens@;
        let ghost eof = self.eof@;
        let ghost d0 = self.diagnostics@;
        let mut params: Vec<String> = Vec::new();
        self.advance();
        let ghost whole = tparams_at(ts, self.pos as int, eof, seq![]);
        proof { assert(params@.map_values(|t: String| t@) =~= Seq::<Seq<char>>::empty()); }
        loop
            invariant_except_break
                whole == tparams_at(ts, self.pos as int, eof, params@.map_values(|t: String| t@)),
            invariant
                moved(*old(self), *self),
                self.tokens@ == ts,
                self.eof@ == eof,
                0 <= eof < ts.len(),
                ts[eof].kind == TokenKind::Eof,
                self.diagnostics@ == d0,
            ensures
                whole == (params@.map_values(|t: String| t@), self.pos as int),
            decreases self.eof@ - self.pos,
        {
            if self.check(TokenKind::Gt) || self.at_eof() {
                break;
            }
            if self.check(TokenKind::Ident) {
                let ghost ps0 = params@;
                let t = self.current_text();
                params.push(t);
                proof {
                    assert(params@.map_values(|t: String| t@) =~= ps0.map_values(|t: String| t@).push(t@));
                }
                self.advance();
            }
            if !self.eat(TokenKind::Comma) {
                break;
            }
        }
        self.expect(TokenKind::Gt, "E0104", "unclosed `<` in type parameters");
        params
    }

    /// Parse a single variant: `VariantName` or `VariantName(Type1, Type2)`.
    fn parse_variant(&mut self) -> (r: Option<Variant>)
        ensures
            moved(*old(self), *final(self)),
            ({
                let res = variant_at(old(self).tokens@, old(self).pos as int, old(self).eof@);
                &&& res.0 == (match r { Some(v) => Some(variant_view(v)), None => None })
                &&& final(self).pos == res.1
                &&& grows_by(old(self).diagnostics@, final(self).diagnostics@, res.2)
            }),
    {
        proof { use_type_invariant(&*self); }
        let ghost ts = self.tokens@;
        let ghost eof = self.eof@;
        let ghost d0 = self.diagnostics@;
        let start = self.current_span();
        if !self.check(TokenKind::Ident) {
            let span = self.current_span();
            self.report(Diagnostic::error("E0100", "expected variant name", span)
                .with_label(Label::new(span, "expected an identifier")));
            proof { lemma_grows_push(d0, self.diagnostics@.last()); }
            return None;
        }
        let name = self.current_text();
        self.advance();
        proof { lemma_grows_none(d0); }
        let fields = if self.eat(TokenKind::LParen) {
            let ghost j1 = self.pos as int;
            let ghost whole = types_at(ts, j1, eof, seq![], seq![], TokenKind::RParen);
            let mut fields: Vec<TypeAnnotation> = Vec::new();
            proof {
                assert(ann_views(fields@) =~= Seq::<STy>::empty());
                assert(dviews(d0.subrange(d0.len() as int, d0.len() as int)) =~= Seq::<DiagV>::empty());
            }
            while !self.check(TokenKind::RParen) && !self.at_eof()
                invariant_except_break
                    whole == types_at(ts, self.pos as int, eof, ann_views(fields@),
                        dviews(self.diagnostics@.subrange(d0.len() as int, self.diagnostics@.len() as int)), TokenKind::RParen),
                invariant
                    moved(*old(self), *self),
                    self.tokens@ == ts,
                    self.eof@ == eof,
                    0 <= eof < ts.len(),
                    ts[eof].kind == TokenKind::Eof,
                    whole == types_at(ts, j1, eof, seq![], seq![], TokenKind::RParen),
                    grows_by(d0, self.diagnostics@,
                        dviews(self.diagnostics@.subrange(d0.len() as int, self.diagnostics@.len() as int))),
                ensures
                    whole == (ann_views(fields@), self.pos as int,
                        dviews(self.diagnostics@.subrange(d0.len() as int, self.diagnostics@.len() as int))),
                decreases self.eof@ - self.pos,
            {
                let ghost p0 = self.pos as int;
                let ghost before = self.diagnostics@;
                let ghost fs0 = fields@;
                let ghost acc_d = dviews(before.subrange(d0.len() as int, before.len() as int));
                let sub = self.parse_type_annotation();
                let ghost res = type_at(ts, p0, eof);
                let ghost after = self.diagnostics@;
                if let Some(ty) = sub {
                    fields.push(ty);
                    proof { lemma_ann_views_push(fs0, ty); }
                }
                proof {
                    lemma_grows_trans(d0, before, after, acc_d, res.2);
                    assert(dviews(after.subrange(d0.len() as int, after.len() as int)) == acc_d + res.2);
                }
                if !self.eat(TokenKind::Comma) {
                    break;
                }
            }
            let ghost e = self.pos as int;
            let ghost mid = self.diagnostics@;
            self.expect(TokenKind::RParen, "E0104", "unclosed `(` in variant fields");
            proof {
                let dm = dviews(mid.subrange(d0.len() as int, mid.len() as int));
                if ts[e].kind != TokenKind::RParen {
                    lemma_grows_append(d0, mid, self.diagnostics@, dm);
                }
            }
            fields
        } else {
            Vec::new()
        };
        proof { assert(ann_views(Seq::<TypeAnnotation>::empty()) =~= Seq::<STy>::empty()); }
        let span = start.merge(self.previous().span);
        Some(Variant { name, fields, span })
    }

    /// Parse a top-level let binding: `let name = expr;` or
    /// `let name: Type = expr;`.
    fn parse_let_def(&mut self) -> (r: Option<Decl>)
        requires
            old(self).tokens@[old(self).pos as int].kind == TokenKind::Let,
        ensures
            moved(*old(self), *final(self)),
            old(self).pos < final(self).pos,
            let_decl_at(old(self).tokens@, old(self).pos as int, old(self).eof@) matches Some(res)
                ==> decl_read(r, final(self).pos as int, old(self).diagnostics@, final(self).diagnostics@, res),
    {
        proof { use_type_invariant(&*self); }
        let ghost ts = self.tokens@;
        let ghost i = self.pos as int;
        let ghost eof = self.eof@;
        let ghost d0 = self.diagnostics@;
        let start = self.current_span();
        self.advance();
        let name = if self.check_binder() {
            let n = self.current_text();
            self.advance();
            n
        } else {
            let span = self.current_span();
            self.report(Diagnostic::error("E0100", "expected variable name after `let`", span)
                .with_label(Label::new(span, "expected an identifier")));
            proof { lemma_grows_push(d0, self.diagnostics@.last()); }
            return None;
        };
        proof { lemma_grows_none(d0); }
        let ghost mut dpre: Seq<DiagV> = seq![];
        let type_annotation = if self.eat(TokenKind::Colon) {
            let ghost q = self.pos as int;
            match self.parse_type_annotation() {
                Some(t) => {
                    proof { dpre = type_at(ts, q, eof).2; }
                    Some(t)
                }
                None => return None,
            }
        } else {
            None
        };
        let ghost d1 = self.diagnostics@;
        if !self.expect(TokenKind::Eq, "E0107", "expected `=` in let binding") {
            proof { lemma_grows_append(d0, d1, self.diagnostics@, dpre); }
            return None;
        }
        let ghost q = self.pos as int;
        let value = match self.parse_expr() {
            Some(e) => e,
            None => {
                proof {
                    if let_decl_at(ts, i, eof) is Some {
                        let rs = frag_bp(ts, q, eof, 0)->0;
                        lemma_grows_trans(d0, d1, self.diagnostics@, dpre, rs.2);
                    }
                }
                return None;
            }
        };
        let ghost mid = self.diagnostics@;
        let ghost p = self.pos as int;
        proof {
            if let_decl_at(ts, i, eof) is Some {
                let rs = frag_bp(ts, q, eof, 0)->0;
                lemma_grows_trans(d0, d1, mid, dpre, rs.2);
            }
        }
        self.expect(TokenKind::Semi, "E0105", "expected `;` after let binding");
        proof {
            if let_decl_at(ts, i, eof) is Some && ts[p].kind != TokenKind::Semi {
                let rs = frag_bp(ts, q, eof, 0)->0;
                lemma_grows_append(d0, mid, self.diagnostics@, dpre + rs.2);
            }
        }
        let span = start.merge(self.previous().span);
        Some(Decl { kind: DeclKind::LetDef { name, type_annotation, value }, span })
    }
}

} // verus!
