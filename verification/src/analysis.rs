//! Source analysis for editors: the diagnostics of the whole pipeline, the
//! outline of a file, hover texts and go-to-definition links, all in editor
//! ranges.
use vstd::prelude::*;
use crate::ast::{Program, Decl, DeclKind, Effect, Param, TypeAnnotation, TypeKind, Variant, Expr, ExprKind,
    MatchArm, Pattern, PatternKind, lemma_contains_concat};
use crate::diagnostics::{Span, Diagnostic, DiagnosticBag, any_error};
use crate::lexer::{Lexer, Token, lex_from, diags_match, tokens_match, lemma_lex_tokens};
use crate::parser::{Parser, is_parse_error, parse_outcome};
use crate::infer::{TypeChecker, is_check_code, phases_reported};
use vstd::utf8::encode_utf8;
use crate::line_index::{LineIndex, Position, Range, range_of};
use crate::text::{owned, cat, append};

verus! {

/// What kind of declaration a document symbol stands for.
#[derive(Debug, Clone, Copy, PartialEq, Eq, Structural)]
pub enum SymbolKind {
    Function,
    Enum,
    EnumMember,
    Variable,
}

/// An entry of a document's outline.
#[derive(Debug)]
pub struct DocumentSymbol {
    /// The declared name.
    pub name: String,
    /// A short description (a function's signature, a type's parameters).
    pub detail: Option<String>,
    /// The kind of declaration.
    pub kind: SymbolKind,
    /// The range of the whole declaration.
    pub range: Range,
    /// The range to select when the symbol is picked.
    pub selection_range: Range,
    /// The symbols nested in this one (the variants of a type).
    pub children: Option<Vec<DocumentSymbol>>,
}

/// A hover entry mapping a source range to a description.
#[derive(Debug, Clone)]
pub struct HoverEntry {
    /// The range in the source that this hover applies to.
    pub range: Range,
    /// The description to show on hover.
    pub description: String,
}

/// A definition entry mapping a usage range to a definition range.
#[derive(Debug, Clone, Copy, PartialEq, Eq, Structural)]
pub struct DefEntry {
    /// The range of the usage site.
    pub usage_range: Range,
    /// The range of the definition site.
    pub def_range: Range,
}

// ---------------------------------------------------------------
// Display texts of type annotations and signatures
// ---------------------------------------------------------------

/// The display text of a type annotation: `Int`, `Option<Int>`,
/// `(Int, Int) -> Int`.
pub open spec fn ann_text(a: TypeAnnotation) -> Seq<char>
    decreases a, 0nat,
{
    match a.kind {
        TypeKind::Name { name } => name@,
        TypeKind::App { name, args } => name@ + "<"@ + anns_text(args@) + ">"@,
        TypeKind::Fn { params, ret } => "("@ + anns_text(params@) + ") -> "@ + ann_text(*ret),
    }
}

/// The display texts of type annotations, separated by `, `.
pub open spec fn anns_text(s: Seq<TypeAnnotation>) -> Seq<char>
    decreases s, 1nat,
{
    if s.len() == 0 {
        seq![]
    } else if s.len() == 1 {
        ann_text(s[0])
    } else {
        anns_text(s.drop_last()) + ", "@ + ann_text(s.last())
    }
}

/// The display text of a parameter: its name, with `: ` and its type when
/// annotated.
pub open spec fn param_text(p: Param) -> Seq<char> {
    match p.type_annotation {
        Some(a) => p.name@ + ": "@ + ann_text(a),
        None => p.name@,
    }
}

/// The display texts of parameters, separated by `, `.
pub open spec fn params_text(s: Seq<Param>) -> Seq<char>
    decreases s.len(),
{
    if s.len() == 0 {
        seq![]
    } else if s.len() == 1 {
        param_text(s[0])
    } else {
        params_text(s.drop_last()) + ", "@ + param_text(s.last())
    }
}

/// Names separated by `, `.
pub open spec fn names_text(s: Seq<String>) -> Seq<char>
    decreases s.len(),
{
    if s.len() == 0 {
        seq![]
    } else if s.len() == 1 {
        s[0]@
    } else {
        names_text(s.drop_last()) + ", "@ + s.last()@
    }
}

/// The signature of a function: `fn` or `io fn`, the parameters in
/// brackets, and ` -> ` with the return type when annotated.
pub open spec fn fn_detail(effect: Effect, params: Seq<Param>, ret: Option<TypeAnnotation>) -> Seq<char> {
    (if effect == Effect::Pure { "fn"@ } else { "io fn"@ }) + "("@ + params_text(params) + ")"@
        + match ret {
        Some(r) => " -> "@ + ann_text(r),
        None => seq![],
    }
}

/// The display text of the type annotations `anns`, children of `parent`.
fn anns_to_string(parent: &TypeAnnotation, anns: &Vec<TypeAnnotation>) -> (r: String)
    requires
        forall|k: int| 0 <= k < anns@.len() ==> decreases_to!(parent => #[trigger] anns@[k]),
    ensures
        r@ == anns_text(anns@),
    decreases parent, 0nat,
{
    let mut out = String::new();
    let mut i: usize = 0;
    proof { assert(anns@.subrange(0, 0) =~= Seq::<TypeAnnotation>::empty()); }
    while i < anns.len()
        invariant
            i <= anns@.len(),
            forall|k: int| 0 <= k < anns@.len() ==> decreases_to!(parent => #[trigger] anns@[k]),
            out@ == anns_text(anns@.subrange(0, i as int)),
        decreases anns@.len() - i,
    {
        proof { assert(decreases_to!(parent => anns@[i as int])); }
        let t = type_annotation_to_string(&anns[i]);
        let ghost pre = anns@.subrange(0, i as int);
        let ghost next = anns@.subrange(0, i + 1);
        proof {
            assert(next.drop_last() =~= pre);
            assert(next.last() == anns@[i as int]);
        }
        if i > 0 {
            append(&mut out, ", ");
        }
        append(&mut out, t.as_str());
        i = i + 1;
        proof {
            if i == 1 {
                assert(pre.len() == 0);
                assert(out@ =~= anns_text(next));
            } else {
                assert(out@ =~= anns_text(next));
            }
        }
    }
    proof { assert(anns@.subrange(0, anns@.len() as int) =~= anns@); }
    out
}

/// Convert a type annotation to its display text.
pub fn type_annotation_to_string(ann: &TypeAnnotation) -> (r: String)
    ensures
        r@ == ann_text(*ann),
    decreases ann, 1nat,
{
    match &ann.kind {
        TypeKind::Name { name } => name.clone(),
        TypeKind::App { name, args } => {
            proof {
                assert forall|k: int| 0 <= k < args@.len() implies decreases_to!(ann => #[trigger] args@[k]) by {
                    assert(decreases_to!(ann => args@[k]));
                }
            }
            let inner = anns_to_string(ann, args);
            let mut s = cat(name.clone(), "<");
            append(&mut s, inner.as_str());
            append(&mut s, ">");
            s
        },
        TypeKind::Fn { params, ret } => {
            proof {
                assert forall|k: int| 0 <= k < params@.len() implies decreases_to!(ann => #[trigger] params@[k]) by {
                    assert(decreases_to!(ann => params@[k]));
                }
            }
            let inner = anns_to_string(ann, params);
            let r = type_annotation_to_string(ret);
            let mut s = owned("(");
            append(&mut s, inner.as_str());
            append(&mut s, ") -> ");
            append(&mut s, r.as_str());
            s
        },
    }
}

/// The display text of a parameter.
fn param_to_string(p: &Param) -> (r: String)
    ensures
        r@ == param_text(*p),
{
    match &p.type_annotation {
        Some(a) => {
            let t = type_annotation_to_string(a);
            let mut s = cat(p.name.clone(), ": ");
            append(&mut s, t.as_str());
            s
        },
        None => p.name.clone(),
    }
}

/// Build the signature text of a function.
pub fn build_fn_detail(effect: Effect, params: &Vec<Param>, return_type: Option<&TypeAnnotation>) -> (r: String)
    ensures
        r@ == fn_detail(effect, params@, match return_type { Some(a) => Some(*a), None => None }),
{
    let mut out = match effect {
        Effect::Pure => owned("fn("),
        Effect::Io => owned("io fn("),
    };
    let ghost head = if effect == Effect::Pure { "fn"@ } else { "io fn"@ };
    proof {
        reveal_strlit("fn(");
        reveal_strlit("io fn(");
        reveal_strlit("fn");
        reveal_strlit("io fn");
        reveal_strlit("(");
        assert(params@.subrange(0, 0) =~= Seq::<Param>::empty());
        assert(out@ =~= head + "("@ + params_text(params@.subrange(0, 0)));
    }
    let mut i: usize = 0;
    while i < params.len()
        invariant
            i <= params@.len(),
            out@ == head + "("@ + params_text(params@.subrange(0, i as int)),
        decreases params@.len() - i,
    {
        let t = param_to_string(&params[i]);
        let ghost pre = params@.subrange(0, i as int);
        let ghost next = params@.subrange(0, i + 1);
        proof {
            assert(next.drop_last() =~= pre);
            assert(next.last() == params@[i as int]);
        }
        if i > 0 {
            append(&mut out, ", ");
        }
        append(&mut out, t.as_str());
        i = i + 1;
        proof {
            if i == 1 {
                assert(out@ =~= head + "("@ + params_text(next));
            } else {
                assert(out@ =~= head + "("@ + params_text(next));
            }
        }
    }
    proof { assert(params@.subrange(0, params@.len() as int) =~= params@); }
    append(&mut out, ")");
    match return_type {
        Some(r) => {
            let t = type_annotation_to_string(r);
            append(&mut out, " -> ");
            append(&mut out, t.as_str());
        },
        None => {},
    }
    proof {
        let rt = match return_type { Some(a) => Some(*a), None => None };
        assert(out@ =~= fn_detail(effect, params@, rt));
    }
    out
}

/// Names joined by `, `.
fn join_names(names: &Vec<String>) -> (r: String)
    ensures
        r@ == names_text(names@),
{
    let mut out = String::new();
    let mut i: usize = 0;
    proof { assert(names@.subrange(0, 0) =~= Seq::<String>::empty()); }
    while i < names.len()
        invariant
            i <= names@.len(),
            out@ == names_text(names@.subrange(0, i as int)),
        decreases names@.len() - i,
    {
        let ghost pre = names@.subrange(0, i as int);
        let ghost next = names@.subrange(0, i + 1);
        proof {
            assert(next.drop_last() =~= pre);
            assert(next.last() == names@[i as int]);
        }
        if i > 0 {
            append(&mut out, ", ");
        }
        append(&mut out, names[i].as_str());
        i = i + 1;
        proof {
            if i == 1 {
                assert(out@ =~= names_text(next));
            } else {
                assert(out@ =~= names_text(next));
            }
        }
    }
    proof { assert(names@.subrange(0, names@.len() as int) =~= names@); }
    out
}

// ---------------------------------------------------------------
// Document symbols
// ---------------------------------------------------------------

/// `sym` is the outline entry of the variant `v`.
pub open spec fn variant_symbol(sym: DocumentSymbol, v: Variant, cs: Seq<char>) -> bool {
    &&& sym.name@ == v.name@
    &&& sym.detail is None
    &&& sym.kind == SymbolKind::EnumMember
    &&& sym.range == range_of(cs, v.span)
    &&& sym.selection_range == sym.range
    &&& sym.children is None
}

/// `sym` is the outline entry of the declaration `d`: a function with its
/// signature, a type with its parameters and one child per variant, or a
/// variable; each over the declaration's range.
pub open spec fn decl_symbol(sym: DocumentSymbol, d: Decl, cs: Seq<char>) -> bool {
    &&& sym.range == range_of(cs, d.span)
    &&& sym.selection_range == sym.range
    &&& match d.kind {
        DeclKind::FnDef { name, effect, params, return_type, .. } => {
            &&& sym.name@ == name@
            &&& sym.kind == SymbolKind::Function
            &&& sym.detail matches Some(t) && t@ == fn_detail(effect, params@, return_type)
            &&& sym.children is None
        },
        DeclKind::TypeDef { name, type_params, variants } => {
            &&& sym.name@ == name@
            &&& sym.kind == SymbolKind::Enum
            &&& if type_params@.len() == 0 {
                sym.detail is None
            } else {
                sym.detail matches Some(t) && t@ == "<"@ + names_text(type_params@) + ">"@
            }
            &&& if variants@.len() == 0 {
                sym.children is None
            } else {
                sym.children matches Some(ch) && ch@.len() == variants@.len()
                    && forall|k: int| 0 <= k < ch@.len() ==> variant_symbol(#[trigger] ch@[k], variants@[k], cs)
            }
        },
        DeclKind::LetDef { name, .. } => {
            &&& sym.name@ == name@
            &&& sym.kind == SymbolKind::Variable
            &&& sym.detail is None
            &&& sym.children is None
        },
    }
}

/// One outline entry per declaration, in order.
pub open spec fn symbols_match(syms: Seq<DocumentSymbol>, ds: Seq<Decl>, cs: Seq<char>) -> bool {
    &&& syms.len() == ds.len()
    &&& forall|k: int| 0 <= k < syms.len() ==> decl_symbol(#[trigger] syms[k], ds[k], cs)
}

/// The outline entry of a declaration.
fn decl_to_symbol(decl: &Decl, index: &LineIndex) -> (r: DocumentSymbol)
    ensures
        decl_symbol(r, *decl, index.text()),
{
    let range = index.span_to_range(decl.span);
    match &decl.kind {
        DeclKind::FnDef { name, effect, params, return_type, .. } => {
            let rt = match return_type { Some(a) => Some(a), None => None };
            let detail = build_fn_detail(*effect, params, rt);
            DocumentSymbol {
                name: name.clone(),
                detail: Some(detail),
                kind: SymbolKind::Function,
                range,
                selection_range: range,
                children: None,
            }
        },
        DeclKind::TypeDef { name, type_params, variants } => {
            let detail = if type_params.len() == 0 {
                None
            } else {
                let mut t = owned("<");
                let inner = join_names(type_params);
                append(&mut t, inner.as_str());
                append(&mut t, ">");
                Some(t)
            };
            let mut children: Vec<DocumentSymbol> = Vec::new();
            let mut i: usize = 0;
            while i < variants.len()
                invariant
                    i <= variants@.len(),
                    children@.len() == i,
                    forall|k: int| 0 <= k < i ==> variant_symbol(#[trigger] children@[k], variants@[k], index.text()),
                decreases variants@.len() - i,
            {
                let v = &variants[i];
                let vrange = index.span_to_range(v.span);
                children.push(DocumentSymbol {
                    name: v.name.clone(),
                    detail: None,
                    kind: SymbolKind::EnumMember,
                    range: vrange,
                    selection_range: vrange,
                    children: None,
                });
                i = i + 1;
            }
            DocumentSymbol {
                name: name.clone(),
                detail,
                kind: SymbolKind::Enum,
                range,
                selection_range: range,
                children: if children.len() == 0 { None } else { Some(children) },
            }
        },
        DeclKind::LetDef { name, .. } => {
            DocumentSymbol {
                name: name.clone(),
                detail: None,
                kind: SymbolKind::Variable,
                range,
                selection_range: range,
                children: None,
            }
        },
    }
}

/// Extract the document symbols of a program for the outline view: one per
/// top-level declaration, in order.
pub fn extract_symbols(program: &Program, index: &LineIndex) -> (r: Vec<DocumentSymbol>)
    ensures
        symbols_match(r@, program.decls@, index.text()),
{
    let mut symbols: Vec<DocumentSymbol> = Vec::new();
    let mut i: usize = 0;
    while i < program.decls.len()
        invariant
            i <= program.decls@.len(),
            symbols@.len() == i,
            forall|k: int| 0 <= k < i ==> decl_symbol(#[trigger] symbols@[k], program.decls@[k], index.text()),
        decreases program.decls@.len() - i,
    {
        let s = decl_to_symbol(&program.decls[i], index);
        symbols.push(s);
        i = i + 1;
    }
    symbols
}

// ---------------------------------------------------------------
// Hover texts
// ---------------------------------------------------------------

/// The hover texts of the annotated parameters among `ps`, in order.
pub open spec fn param_hovers(ps: Seq<Param>) -> Seq<(Span, Seq<char>)>
    decreases ps.len(),
{
    if ps.len() == 0 {
        seq![]
    } else {
        param_hovers(ps.drop_last()) + match ps.last().type_annotation {
            Some(a) => seq![(ps.last().span, param_text(ps.last()))],
            None => seq![],
        }
    }
}

/// The hover texts of a declaration: a function's signature over the whole
/// declaration, then its annotated parameters; `let` and the name (with its
/// annotation) over a top-level binding; nothing for a type.
pub open spec fn decl_hovers(d: Decl) -> Seq<(Span, Seq<char>)> {
    match d.kind {
        DeclKind::FnDef { effect, params, return_type, .. } =>
            seq![(d.span, fn_detail(effect, params@, return_type))] + param_hovers(params@),
        DeclKind::LetDef { name, type_annotation, .. } =>
            seq![(d.span, "let "@ + name@ + match type_annotation {
                Some(a) => ": "@ + ann_text(a),
                None => seq![],
            })],
        DeclKind::TypeDef { .. } => seq![],
    }
}

/// The hover texts of the declarations `ds`, in order.
pub open spec fn program_hovers(ds: Seq<Decl>) -> Seq<(Span, Seq<char>)>
    decreases ds.len(),
{
    if ds.len() == 0 {
        seq![]
    } else {
        decl_hovers(ds[0]) + program_hovers(ds.drop_first())
    }
}

/// `h` shows the text `t` over the range of span `t.0`.
pub open spec fn hover_is(h: HoverEntry, t: (Span, Seq<char>), cs: Seq<char>) -> bool {
    h.range == range_of(cs, t.0) && h.description@ == t.1
}

/// Entry by entry, `hs` show the texts `ts`.
pub open spec fn hovers_match(hs: Seq<HoverEntry>, ts: Seq<(Span, Seq<char>)>, cs: Seq<char>) -> bool {
    &&& hs.len() == ts.len()
    &&& forall|k: int| 0 <= k < hs.len() ==> hover_is(#[trigger] hs[k], ts[k], cs)
}

// ---------------------------------------------------------------
// Go-to-definition links
// ---------------------------------------------------------------

/// The definition of `name` in `scope`: the last binding of that name.
pub open spec fn lookup(scope: Seq<(Seq<char>, Span)>, name: Seq<char>) -> Option<Span>
    decreases scope.len(),
{
    if scope.len() == 0 {
        None
    } else if scope.last().0 == name {
        Some(scope.last().1)
    } else {
        lookup(scope.drop_last(), name)
    }
}

/// The names a pattern binds, with the spans of their patterns, in order.
pub open spec fn pattern_binds(p: Pattern) -> Seq<(Seq<char>, Span)>
    decreases p, 0nat,
{
    match p.kind {
        PatternKind::Ident { name } => seq![(name@, p.span)],
        PatternKind::Variant { fields, .. } => fields_binds(fields@),
        _ => seq![],
    }
}

/// The names bound by the patterns `ps`, in order.
pub open spec fn fields_binds(ps: Seq<Pattern>) -> Seq<(Seq<char>, Span)>
    decreases ps, 1nat,
{
    if ps.len() == 0 {
        seq![]
    } else {
        pattern_binds(ps[0]) + fields_binds(ps.drop_first())
    }
}

/// The link from a use of `name` at `e` to its definition in `scope`, if
/// it has one.
pub open spec fn use_link(e: Expr, name: Seq<char>, scope: Seq<(Seq<char>, Span)>, cs: Seq<char>) -> Seq<DefEntry> {
    match lookup(scope, name) {
        Some(d) => seq![DefEntry { usage_range: range_of(cs, e.span), def_range: range_of(cs, d) }],
        None => seq![],
    }
}

/// The scope after the block element `e`: a `let` adds its name, bound at
/// the `let` expression.
pub open spec fn scope_after(e: Expr, scope: Seq<(Seq<char>, Span)>) -> Seq<(Seq<char>, Span)> {
    match e.kind {
        ExprKind::LetExpr { name, .. } => scope.push((name@, e.span)),
        _ => scope,
    }
}

/// The definition links of the identifiers in `e` under `scope`, in the
/// order of a left-to-right walk. A `let` binds its name in its body, a
/// match arm the names of its pattern, and a block element that is a `let`
/// binds its name in the elements after it.
pub open spec fn expr_links(e: Expr, scope: Seq<(Seq<char>, Span)>, cs: Seq<char>) -> Seq<DefEntry>
    decreases e, 0nat,
{
    match e.kind {
        ExprKind::Ident { name } => use_link(e, name@, scope, cs),
        ExprKind::BinaryOp { lhs, rhs, .. } => expr_links(*lhs, scope, cs) + expr_links(*rhs, scope, cs),
        ExprKind::UnaryOp { operand, .. } => expr_links(*operand, scope, cs),
        ExprKind::FnCall { callee, args } => expr_links(*callee, scope, cs) + list_links(args@, scope, cs),
        ExprKind::LetExpr { name, value, body, .. } =>
            expr_links(*value, scope, cs) + expr_links(*body, scope.push((name@, e.span)), cs),
        ExprKind::IfElse { condition, then_branch, else_branch } =>
            expr_links(*condition, scope, cs) + expr_links(*then_branch, scope, cs) + expr_links(*else_branch, scope, cs),
        ExprKind::Match { scrutinee, arms } => expr_links(*scrutinee, scope, cs) + arms_links(arms@, scope, cs),
        ExprKind::Block { exprs } => block_links(exprs@, scope, cs),
        ExprKind::VariantConstruct { args, .. } => list_links(args@, scope, cs),
        ExprKind::ListLiteral { elements } => list_links(elements@, scope, cs),
        _ => seq![],
    }
}

/// The links of the expressions `es`, all under `scope`.
pub open spec fn list_links(es: Seq<Expr>, scope: Seq<(Seq<char>, Span)>, cs: Seq<char>) -> Seq<DefEntry>
    decreases es, 1nat,
{
    if es.len() == 0 {
        seq![]
    } else {
        expr_links(es[0], scope, cs) + list_links(es.drop_first(), scope, cs)
    }
}

/// The links of the arm bodies, each under `scope` and its pattern's names.
pub open spec fn arms_links(arms: Seq<MatchArm>, scope: Seq<(Seq<char>, Span)>, cs: Seq<char>) -> Seq<DefEntry>
    decreases arms, 1nat,
{
    if arms.len() == 0 {
        seq![]
    } else {
        expr_links(arms[0].body, scope + pattern_binds(arms[0].pattern), cs) + arms_links(arms.drop_first(), scope, cs)
    }
}

/// The links of block elements, the scope growing past each `let`.
pub open spec fn block_links(es: Seq<Expr>, scope: Seq<(Seq<char>, Span)>, cs: Seq<char>) -> Seq<DefEntry>
    decreases es, 1nat,
{
    if es.len() == 0 {
        seq![]
    } else {
        expr_links(es[0], scope, cs) + block_links(es.drop_first(), scope_after(es[0], scope), cs)
    }
}

/// The names and spans of parameters.
pub open spec fn param_binds(ps: Seq<Param>) -> Seq<(Seq<char>, Span)> {
    Seq::new(ps.len(), |k: int| (ps[k].name@, ps[k].span))
}

/// The scope after a top-level declaration: a function or a binding adds
/// its name, bound at the declaration.
pub open spec fn decl_scope(d: Decl, scope: Seq<(Seq<char>, Span)>) -> Seq<(Seq<char>, Span)> {
    match d.kind {
        DeclKind::FnDef { name, .. } => scope.push((name@, d.span)),
        DeclKind::LetDef { name, .. } => scope.push((name@, d.span)),
        DeclKind::TypeDef { .. } => scope,
    }
}

/// The links of a declaration: a function's body under the scope with the
/// function and its parameters; a binding's value under the scope with the
/// binding itself.
pub open spec fn decl_links(d: Decl, scope: Seq<(Seq<char>, Span)>, cs: Seq<char>) -> Seq<DefEntry> {
    match d.kind {
        DeclKind::FnDef { params, body, .. } => expr_links(body, decl_scope(d, scope) + param_binds(params@), cs),
        DeclKind::LetDef { value, .. } => expr_links(value, decl_scope(d, scope), cs),
        DeclKind::TypeDef { .. } => seq![],
    }
}

/// The links of the declarations `ds`, the scope growing past each one.
pub open spec fn program_links(ds: Seq<Decl>, scope: Seq<(Seq<char>, Span)>, cs: Seq<char>) -> Seq<DefEntry>
    decreases ds.len(),
{
    if ds.len() == 0 {
        seq![]
    } else {
        decl_links(ds[0], scope, cs) + program_links(ds.drop_first(), decl_scope(ds[0], scope), cs)
    }
}

/// The names and spans of a scope held as strings.
pub open spec fn scope_view(s: Seq<(String, Span)>) -> Seq<(Seq<char>, Span)> {
    Seq::new(s.len(), |k: int| (s[k].0@, s[k].1))
}

/// A copy of a scope.
fn copy_scope(s: &Vec<(String, Span)>) -> (r: Vec<(String, Span)>)
    ensures
        scope_view(r@) == scope_view(s@),
{
    let mut r: Vec<(String, Span)> = Vec::new();
    let mut i: usize = 0;
    while i < s.len()
        invariant
            i <= s@.len(),
            r@.len() == i,
            scope_view(r@) == scope_view(s@.subrange(0, i as int)),
        decreases s@.len() - i,
    {
        let n = s[i].0.clone();
        let ghost r0 = r@;
        r.push((n, s[i].1));
        proof {
            let a = scope_view(r@);
            let b = scope_view(s@.subrange(0, i + 1));
            assert forall|k: int| 0 <= k < a.len() implies a[k] == b[k] by {
                if k < i {
                    assert(r@[k] == r0[k]);
                    assert(scope_view(r0)[k] == scope_view(s@.subrange(0, i as int))[k]);
                }
            }
            assert(a =~= b);
        }
        i = i + 1;
    }
    assert(s@.subrange(0, s@.len() as int) =~= s@);
    r
}

/// Adds a binding to a scope.
fn bind(s: &mut Vec<(String, Span)>, name: &String, span: Span)
    ensures
        scope_view(final(s)@) == scope_view(old(s)@).push((name@, span)),
{
    s.push((name.clone(), span));
    assert(scope_view(s@) =~= scope_view(old(s)@).push((name@, span)));
}

/// The definition of `name` in `scope` (the last binding wins).
fn find_binding(scope: &Vec<(String, Span)>, name: &String) -> (r: Option<Span>)
    ensures
        r == lookup(scope_view(scope@), name@),
{
    let ghost v = scope_view(scope@);
    let mut i: usize = scope.len();
    proof { assert(v.subrange(0, v.len() as int) =~= v); }
    while i > 0
        invariant
            i <= scope@.len(),
            v == scope_view(scope@),
            lookup(v, name@) == lookup(v.subrange(0, i as int), name@),
        decreases i,
    {
        let ghost sub = v.subrange(0, i as int);
        proof {
            assert(sub.last() == v[i - 1]);
            assert(sub.drop_last() =~= v.subrange(0, i - 1));
        }
        if scope[i - 1].0 == *name {
            return Some(scope[i - 1].1);
        }
        i = i - 1;
    }
    None
}

/// Collect the names a pattern binds into a scope.
fn collect_pattern_bindings(pattern: &Pattern, scope: &mut Vec<(String, Span)>)
    ensures
        scope_view(final(scope)@) == scope_view(old(scope)@) + pattern_binds(*pattern),
    decreases pattern,
{
    match &pattern.kind {
        PatternKind::Ident { name } => {
            bind(scope, name, pattern.span);
            assert(scope_view(old(scope)@).push((name@, pattern.span)) =~= scope_view(old(scope)@) + pattern_binds(*pattern));
        },
        PatternKind::Variant { fields, .. } => {
            let ghost start = scope_view(scope@);
            let mut i: usize = 0;
            proof { assert(start + fields_binds(fields@.subrange(0, 0)) =~= start); }
            assert(fields@.subrange(0, fields@.len() as int) =~= fields@);
            assert forall|k: int| 0 <= k < fields@.len() implies decreases_to!(pattern => #[trigger] fields@[k]) by {
                assert(decreases_to!(pattern => fields@[k]));
            }
            while i < fields.len()
                invariant
                    i <= fields@.len(),
                    forall|k: int| 0 <= k < fields@.len() ==> decreases_to!(pattern => #[trigger] fields@[k]),
                    start + fields_binds(fields@) == scope_view(scope@) + fields_binds(fields@.subrange(i as int, fields@.len() as int)),
                decreases fields@.len() - i,
            {
                let ghost rest = fields@.subrange(i as int, fields@.len() as int);
                proof {
                    assert(rest[0] == fields@[i as int]);
                    assert(rest.drop_first() =~= fields@.subrange(i + 1, fields@.len() as int));
                    assert(decreases_to!(pattern => fields@[i as int]));
                }
                let ghost before = scope_view(scope@);
                collect_pattern_bindings(&fields[i], scope);
                proof {
                    let r2 = fields_binds(fields@.subrange(i + 1, fields@.len() as int));
                    assert(before + (pattern_binds(fields@[i as int]) + r2) =~= (before + pattern_binds(fields@[i as int])) + r2);
                }
                i = i + 1;
            }
            proof {
                assert(fields@.subrange(i as int, fields@.len() as int) =~= Seq::<Pattern>::empty());
                assert(scope_view(scope@) + Seq::<(Seq<char>, Span)>::empty() =~= scope_view(scope@));
            }
        },
        _ => {
            assert(scope_view(scope@) + pattern_binds(*pattern) =~= scope_view(scope@));
        },
    }
}

/// Walk an expression, recording the definition link of each identifier
/// that `scope` binds.
fn walk_expr_for_defs(expr: &Expr, scope: &Vec<(String, Span)>, def_map: &mut Vec<DefEntry>, index: &LineIndex)
    ensures
        final(def_map)@ == old(def_map)@ + expr_links(*expr, scope_view(scope@), index.text()),
    decreases expr, 1nat,
{
    let ghost sv = scope_view(scope@);
    let ghost cs = index.text();
    let ghost start = def_map@;
    match &expr.kind {
        ExprKind::Ident { name } => {
            match find_binding(scope, name) {
                Some(def_span) => {
                    let usage_range = index.span_to_range(expr.span);
                    let def_range = index.span_to_range(def_span);
                    def_map.push(DefEntry { usage_range, def_range });
                    assert(def_map@ =~= start + expr_links(*expr, sv, cs));
                },
                None => {
                    assert(start + expr_links(*expr, sv, cs) =~= start);
                },
            }
        },
        ExprKind::BinaryOp { lhs, rhs, .. } => {
            walk_expr_for_defs(lhs, scope, def_map, index);
            walk_expr_for_defs(rhs, scope, def_map, index);
            assert(def_map@ =~= start + expr_links(*expr, sv, cs));
        },
        ExprKind::UnaryOp { operand, .. } => {
            walk_expr_for_defs(operand, scope, def_map, index);
        },
        ExprKind::FnCall { callee, args } => {
            walk_expr_for_defs(callee, scope, def_map, index);
            proof {
                assert forall|k: int| 0 <= k < args@.len() implies decreases_to!(expr => #[trigger] args@[k]) by {
                    assert(decreases_to!(expr => args@[k]));
                }
            }
            walk_list_for_defs(expr, args, scope, def_map, index);
            assert(def_map@ =~= start + expr_links(*expr, sv, cs));
        },
        ExprKind::LetExpr { name, value, body, .. } => {
            walk_expr_for_defs(value, scope, def_map, index);
            let mut inner = copy_scope(scope);
            bind(&mut inner, name, expr.span);
            walk_expr_for_defs(body, &inner, def_map, index);
            assert(def_map@ =~= start + expr_links(*expr, sv, cs));
        },
        ExprKind::IfElse { condition, then_branch, else_branch } => {
            walk_expr_for_defs(condition, scope, def_map, index);
            walk_expr_for_defs(then_branch, scope, def_map, index);
            walk_expr_for_defs(else_branch, scope, def_map, index);
            assert(def_map@ =~= start + expr_links(*expr, sv, cs));
        },
        ExprKind::Match { scrutinee, arms } => {
            walk_expr_for_defs(scrutinee, scope, def_map, index);
            let ghost mid = def_map@;
            let ghost mut done: Seq<DefEntry> = seq![];
            proof {
                assert forall|k: int| 0 <= k < arms@.len() implies decreases_to!(expr => #[trigger] arms@[k].body) by {
                    assert(decreases_to!(expr => arms@[k]));
                }
                assert(arms@.subrange(0, arms@.len() as int) =~= arms@);
                assert(mid =~= mid + done);
            }
            let mut i: usize = 0;
            while i < arms.len()
                invariant
                    i <= arms@.len(),
                    forall|k: int| 0 <= k < arms@.len() ==> decreases_to!(expr => #[trigger] arms@[k].body),
                    sv == scope_view(scope@),
                    cs == index.text(),
                    def_map@ == mid + done,
                    arms_links(arms@, sv, cs) == done + arms_links(arms@.subrange(i as int, arms@.len() as int), sv, cs),
                decreases arms@.len() - i,
            {
                let ghost rest = arms@.subrange(i as int, arms@.len() as int);
                proof {
                    assert(rest[0] == arms@[i as int]);
                    assert(rest.drop_first() =~= arms@.subrange(i + 1, arms@.len() as int));
                }
                let mut arm_scope = copy_scope(scope);
                collect_pattern_bindings(&arms[i].pattern, &mut arm_scope);
                walk_expr_for_defs(&arms[i].body, &arm_scope, def_map, index);
                proof {
                    let here = expr_links(arms@[i as int].body, sv + pattern_binds(arms@[i as int].pattern), cs);
                    let r2 = arms_links(arms@.subrange(i + 1, arms@.len() as int), sv, cs);
                    assert(done + (here + r2) =~= (done + here) + r2);
                    assert(mid + done + here =~= mid + (done + here));
                    done = done + here;
                }
                i = i + 1;
            }
            proof {
                assert(arms@.subrange(i as int, arms@.len() as int) =~= Seq::<MatchArm>::empty());
                assert(done + Seq::<DefEntry>::empty() =~= done);
                assert(def_map@ =~= start + expr_links(*expr, sv, cs));
            }
        },
        ExprKind::Block { exprs } => {
            let mut block_scope = copy_scope(scope);
            let ghost mut done: Seq<DefEntry> = seq![];
            proof {
                assert forall|k: int| 0 <= k < exprs@.len() implies decreases_to!(expr => #[trigger] exprs@[k]) by {
                    assert(decreases_to!(expr => exprs@[k]));
                }
                assert(exprs@.subrange(0, exprs@.len() as int) =~= exprs@);
                assert(start =~= start + done);
            }
            let mut i: usize = 0;
            while i < exprs.len()
                invariant
                    i <= exprs@.len(),
                    forall|k: int| 0 <= k < exprs@.len() ==> decreases_to!(expr => #[trigger] exprs@[k]),
                    cs == index.text(),
                    def_map@ == start + done,
                    block_links(exprs@, sv, cs) == done + block_links(exprs@.subrange(i as int, exprs@.len() as int),
                        scope_view(block_scope@), cs),
                decreases exprs@.len() - i,
            {
                let ghost rest = exprs@.subrange(i as int, exprs@.len() as int);
                let ghost bs = scope_view(block_scope@);
                proof {
                    assert(rest[0] == exprs@[i as int]);
                    assert(rest.drop_first() =~= exprs@.subrange(i + 1, exprs@.len() as int));
                }
                walk_expr_for_defs(&exprs[i], &block_scope, def_map, index);
                if let ExprKind::LetExpr { name, .. } = &exprs[i].kind {
                    bind(&mut block_scope, name, exprs[i].span);
                }
                proof {
                    let here = expr_links(exprs@[i as int], bs, cs);
                    let r2 = block_links(exprs@.subrange(i + 1, exprs@.len() as int), scope_after(exprs@[i as int], bs), cs);
                    assert(scope_view(block_scope@) == scope_after(exprs@[i as int], bs));
                    assert(done + (here + r2) =~= (done + here) + r2);
                    assert(start + done + here =~= start + (done + here));
                    done = done + here;
                }
                i = i + 1;
            }
            proof {
                assert(exprs@.subrange(i as int, exprs@.len() as int) =~= Seq::<Expr>::empty());
                assert(done + Seq::<DefEntry>::empty() =~= done);
            }
        },
        ExprKind::VariantConstruct { args, .. } => {
            proof {
                assert forall|k: int| 0 <= k < args@.len() implies decreases_to!(expr => #[trigger] args@[k]) by {
                    assert(decreases_to!(expr => args@[k]));
                }
            }
            walk_list_for_defs(expr, args, scope, def_map, index);
        },
        ExprKind::ListLiteral { elements } => {
            proof {
                assert forall|k: int| 0 <= k < elements@.len() implies decreases_to!(expr => #[trigger] elements@[k]) by {
                    assert(decreases_to!(expr => elements@[k]));
                }
            }
            walk_list_for_defs(expr, elements, scope, def_map, index);
        },
        _ => {
            assert(start + expr_links(*expr, sv, cs) =~= start);
        },
    }
}

/// Walk the sub-expressions `es` of `parent`, all under `scope`.
fn walk_list_for_defs(parent: &Expr, es: &Vec<Expr>, scope: &Vec<(String, Span)>, def_map: &mut Vec<DefEntry>,
    index: &LineIndex)
    requires
        forall|k: int| 0 <= k < es@.len() ==> decreases_to!(parent => #[trigger] es@[k]),
    ensures
        final(def_map)@ == old(def_map)@ + list_links(es@, scope_view(scope@), index.text()),
    decreases parent, 0nat,
{
    let ghost sv = scope_view(scope@);
    let ghost cs = index.text();
    let ghost start = def_map@;
    let ghost mut done: Seq<DefEntry> = seq![];
    proof {
        assert(es@.subrange(0, es@.len() as int) =~= es@);
        assert(start =~= start + done);
    }
    let mut i: usize = 0;
    while i < es.len()
        invariant
            i <= es@.len(),
            forall|k: int| 0 <= k < es@.len() ==> decreases_to!(parent => #[trigger] es@[k]),
            sv == scope_view(scope@),
            cs == index.text(),
            def_map@ == start + done,
            list_links(es@, sv, cs) == done + list_links(es@.subrange(i as int, es@.len() as int), sv, cs),
        decreases es@.len() - i,
    {
        let ghost rest = es@.subrange(i as int, es@.len() as int);
        proof {
            assert(rest[0] == es@[i as int]);
            assert(rest.drop_first() =~= es@.subrange(i + 1, es@.len() as int));
            assert(decreases_to!(parent => es@[i as int]));
        }
        walk_expr_for_defs(&es[i], scope, def_map, index);
        proof {
            let here = expr_links(es@[i as int], sv, cs);
            let r2 = list_links(es@.subrange(i + 1, es@.len() as int), sv, cs);
            assert(done + (here + r2) =~= (done + here) + r2);
            assert(start + done + here =~= start + (done + here));
            done = done + here;
        }
        i = i + 1;
    }
    proof {
        assert(es@.subrange(i as int, es@.len() as int) =~= Seq::<Expr>::empty());
        assert(done + Seq::<DefEntry>::empty() =~= done);
    }
}

/// Appends the hover entry showing `text` over `span`.
fn push_hover(hover_map: &mut Vec<HoverEntry>, index: &LineIndex, span: Span, text: String)
    ensures
        final(hover_map)@.len() == old(hover_map)@.len() + 1,
        forall|k: int| 0 <= k < old(hover_map)@.len() ==> #[trigger] final(hover_map)@[k] == old(hover_map)@[k],
        hover_is(final(hover_map)@[old(hover_map)@.len() as int], (span, text@), index.text()),
{
    let range = index.span_to_range(span);
    hover_map.push(HoverEntry { range, description: text });
}

/// Extract hover texts and go-to-definition links from a program.
///
/// Hover: a function's signature over its whole declaration and each
/// annotated parameter with its type; a top-level binding with its
/// annotation. Go-to-definition: each identifier in an expression links to
/// its binding in scope (functions and top-level bindings declared so far,
/// parameters, `let`s and pattern variables; the last binding wins).
pub fn extract_navigation(program: &Program, index: &LineIndex) -> (r: (Vec<HoverEntry>, Vec<DefEntry>))
    ensures
        hovers_match(r.0@, program_hovers(program.decls@), index.text()),
        r.1@ == program_links(program.decls@, seq![], index.text()),
{
    let ghost cs = index.text();
    let ghost ds = program.decls@;
    let mut hover_map: Vec<HoverEntry> = Vec::new();
    let mut def_map: Vec<DefEntry> = Vec::new();
    let mut scope: Vec<(String, Span)> = Vec::new();
    let ghost mut hdone: Seq<(Span, Seq<char>)> = seq![];
    let ghost mut ddone: Seq<DefEntry> = seq![];
    proof {
        assert(ds.subrange(0, ds.len() as int) =~= ds);
        assert(program_hovers(ds) =~= hdone + program_hovers(ds));
        assert(program_links(ds, seq![], cs) =~= ddone + program_links(ds, seq![], cs));
        assert(scope_view(scope@) =~= Seq::<(Seq<char>, Span)>::empty());
    }
    let mut i: usize = 0;
    while i < program.decls.len()
        invariant
            i <= ds.len(),
            ds == program.decls@,
            cs == index.text(),
            hovers_match(hover_map@, hdone, cs),
            program_hovers(ds) == hdone + program_hovers(ds.subrange(i as int, ds.len() as int)),
            def_map@ == ddone,
            program_links(ds, seq![], cs) == ddone + program_links(ds.subrange(i as int, ds.len() as int), scope_view(scope@), cs),
        decreases ds.len() - i,
    {
        let decl = &program.decls[i];
        let ghost rest = ds.subrange(i as int, ds.len() as int);
        let ghost sv = scope_view(scope@);
        let ghost h0 = hover_map@;
        let ghost d0 = def_map@;
        proof {
            assert(rest[0] == ds[i as int]);
            assert(rest.drop_first() =~= ds.subrange(i + 1, ds.len() as int));
        }
        match &decl.kind {
            DeclKind::FnDef { name, effect, params, return_type, body } => {
                let rt = match return_type { Some(a) => Some(a), None => None };
                let detail = build_fn_detail(*effect, params, rt);
                push_hover(&mut hover_map, index, decl.span, detail);
                bind(&mut scope, name, decl.span);
                let mut fn_scope = copy_scope(&scope);
                let mut j: usize = 0;
                proof {
                    assert(params@.subrange(0, 0) =~= Seq::<Param>::empty());
                    assert(param_binds(params@.subrange(0, 0)) =~= Seq::<(Seq<char>, Span)>::empty());
                    assert(scope_view(fn_scope@) =~= decl_scope(ds[i as int], sv) + param_binds(params@.subrange(0, 0)));
                }
                while j < params.len()
                    invariant
                        j <= params@.len(),
                        cs == index.text(),
                        hover_map@.len() == h0.len() + 1 + param_hovers(params@.subrange(0, j as int)).len(),
                        forall|k: int| 0 <= k < h0.len() ==> #[trigger] hover_map@[k] == h0[k],
                        hover_is(hover_map@[h0.len() as int], (decl.span, fn_detail(*effect, params@, *return_type)), cs),
                        forall|k: int| 0 <= k < param_hovers(params@.subrange(0, j as int)).len() ==>
                            hover_is(#[trigger] hover_map@[h0.len() + 1 + k], param_hovers(params@.subrange(0, j as int))[k], cs),
                        scope_view(fn_scope@) == decl_scope(ds[i as int], sv) + param_binds(params@.subrange(0, j as int)),
                        ds[i as int] == *decl,
                    decreases params@.len() - j,
                {
                    let p = &params[j];
                    let ghost pre = params@.subrange(0, j as int);
                    let ghost next = params@.subrange(0, j + 1);
                    let ghost hl = hover_map@.len();
                    proof {
                        assert(next.drop_last() =~= pre);
                        assert(next.last() == params@[j as int]);
                    }
                    bind(&mut fn_scope, &p.name, p.span);
                    proof {
                        assert(param_binds(next) =~= param_binds(pre).push((p.name@, p.span)));
                        assert(scope_view(fn_scope@) =~= decl_scope(ds[i as int], sv) + param_binds(next));
                    }
                    match &p.type_annotation {
                        Some(a) => {
                            let t = param_to_string(p);
                            push_hover(&mut hover_map, index, p.span, t);
                            proof {
                                assert(param_hovers(next) =~= param_hovers(pre) + seq![(p.span, param_text(*p))]);
                            }
                        },
                        None => {
                            proof {
                                assert(param_hovers(next) =~= param_hovers(pre));
                            }
                        },
                    }
                    j = j + 1;
                }
                proof {
                    assert(params@.subrange(0, params@.len() as int) =~= params@);
                }
                walk_expr_for_defs(body, &fn_scope, &mut def_map, index);
                proof {
                    let here = decl_hovers(ds[i as int]);
                    assert(here =~= seq![(decl.span, fn_detail(*effect, params@, *return_type))] + param_hovers(params@));
                    assert forall|k: int| 0 <= k < (hdone + here).len() implies hover_is(#[trigger] hover_map@[k], (hdone + here)[k], cs) by {
                        if k < h0.len() {
                            assert(hover_map@[k] == h0[k]);
                        } else if k == h0.len() {
                        } else {
                            assert(hover_map@[h0.len() + 1 + (k - h0.len() - 1)] == hover_map@[k]);
                        }
                    }
                    let r2 = program_hovers(ds.subrange(i + 1, ds.len() as int));
                    assert(hdone + (here + r2) =~= (hdone + here) + r2);
                    hdone = hdone + here;
                    let dl = decl_links(ds[i as int], sv, cs);
                    let r3 = program_links(ds.subrange(i + 1, ds.len() as int), decl_scope(ds[i as int], sv), cs);
                    assert(ddone + (dl + r3) =~= (ddone + dl) + r3);
                    ddone = ddone + dl;
                }
            },
            DeclKind::LetDef { name, type_annotation, value } => {
                let mut t = cat(owned("let "), name.as_str());
                match type_annotation {
                    Some(a) => {
                        let at = type_annotation_to_string(a);
                        append(&mut t, ": ");
                        append(&mut t, at.as_str());
                    },
                    None => {},
                }
                push_hover(&mut hover_map, index, decl.span, t);
                bind(&mut scope, name, decl.span);
                walk_expr_for_defs(value, &scope, &mut def_map, index);
                proof {
                    let here = decl_hovers(ds[i as int]);
                    assert(here[0].1 =~= t@);
                    assert forall|k: int| 0 <= k < (hdone + here).len() implies hover_is(#[trigger] hover_map@[k], (hdone + here)[k], cs) by {
                        if k < h0.len() {
                            assert(hover_map@[k] == h0[k]);
                        }
                    }
                    let r2 = program_hovers(ds.subrange(i + 1, ds.len() as int));
                    assert(hdone + (here + r2) =~= (hdone + here) + r2);
                    hdone = hdone + here;
                    let dl = decl_links(ds[i as int], sv, cs);
                    let r3 = program_links(ds.subrange(i + 1, ds.len() as int), decl_scope(ds[i as int], sv), cs);
                    assert(ddone + (dl + r3) =~= (ddone + dl) + r3);
                    ddone = ddone + dl;
                }
            },
            DeclKind::TypeDef { .. } => {
                proof {
                    let r2 = program_hovers(ds.subrange(i + 1, ds.len() as int));
                    assert(hdone + (seq![] + r2) =~= hdone + r2);
                    let r3 = program_links(ds.subrange(i + 1, ds.len() as int), sv, cs);
                    assert(ddone + (seq![] + r3) =~= ddone + r3);
                }
            },
        }
        i = i + 1;
    }
    proof {
        assert(ds.subrange(i as int, ds.len() as int) =~= Seq::<Decl>::empty());
        assert(hdone + Seq::<(Span, Seq<char>)>::empty() =~= hdone);
        assert(ddone + Seq::<DefEntry>::empty() =~= ddone);
    }
    (hover_map, def_map)
}

// ---------------------------------------------------------------
// Lookups by position
// ---------------------------------------------------------------

/// Whether `pos` lies in `range`: from its start (inclusive) to its end
/// (exclusive).
pub open spec fn in_range(pos: Position, range: Range) -> bool {
    &&& range.start.line <= pos.line <= range.end.line
    &&& (pos.line == range.start.line ==> range.start.character <= pos.character)
    &&& (pos.line == range.end.line ==> pos.character < range.end.character)
}

/// Check whether a position falls within a range (inclusive start,
/// exclusive end).
pub fn position_in_range(pos: Position, range: Range) -> (r: bool)
    ensures
        r == in_range(pos, range),
{
    if pos.line < range.start.line || pos.line > range.end.line {
        return false;
    }
    if pos.line == range.start.line && pos.character < range.start.character {
        return false;
    }
    if pos.line == range.end.line && pos.character >= range.end.character {
        return false;
    }
    true
}

/// Find the hover entry that contains the given position: the last one
/// when several do.
pub fn find_hover(entries: &[HoverEntry], pos: Position) -> (r: Option<&HoverEntry>)
    ensures
        r is None <==> forall|k: int| 0 <= k < entries@.len() ==> !in_range(pos, #[trigger] entries@[k].range),
        r matches Some(e) ==> exists|k: int| 0 <= k < entries@.len() && *e == #[trigger] entries@[k]
            && in_range(pos, entries@[k].range)
            && forall|j: int| k < j < entries@.len() ==> !in_range(pos, #[trigger] entries@[j].range),
{
    let mut i: usize = entries.len();
    while i > 0
        invariant
            i <= entries@.len(),
            forall|j: int| i <= j < entries@.len() ==> !in_range(pos, #[trigger] entries@[j].range),
        decreases i,
    {
        if position_in_range(pos, entries[i - 1].range) {
            let e = &entries[i - 1];
            assert(*e == entries@[i - 1]);
            return Some(e);
        }
        i = i - 1;
    }
    None
}

/// Find the definition entry whose usage range contains the given
/// position: the first one when several do.
pub fn find_definition(entries: &[DefEntry], pos: Position) -> (r: Option<&DefEntry>)
    ensures
        r is None <==> forall|k: int| 0 <= k < entries@.len() ==> !in_range(pos, #[trigger] entries@[k].usage_range),
        r matches Some(e) ==> exists|k: int| 0 <= k < entries@.len() && *e == #[trigger] entries@[k]
            && in_range(pos, entries@[k].usage_range)
            && forall|j: int| 0 <= j < k ==> !in_range(pos, #[trigger] entries@[j].usage_range),
{
    let mut i: usize = 0;
    while i < entries.len()
        invariant
            i <= entries@.len(),
            forall|j: int| 0 <= j < i ==> !in_range(pos, #[trigger] entries@[j].usage_range),
        decreases entries@.len() - i,
    {
        if position_in_range(pos, entries[i].usage_range) {
            let e = &entries[i];
            assert(*e == entries@[i as int]);
            return Some(e);
        }
        i = i + 1;
    }
    None
}

// ---------------------------------------------------------------
// The whole pipeline
// ---------------------------------------------------------------

/// The result of analyzing a single LM source file.
#[derive(Debug)]
pub struct AnalysisResult {
    /// All diagnostics (lex + parse + type check).
    pub diagnostics: Vec<Diagnostic>,
    /// Top-level symbol information for the document outline.
    pub symbols: Vec<DocumentSymbol>,
    /// Hover information: source ranges with their descriptions.
    pub hover_map: Vec<HoverEntry>,
    /// Definition locations: usage ranges with their definition ranges.
    pub def_map: Vec<DefEntry>,
}

/// `ds` holds, after the `n` diagnostics of the lexer, parse errors up to
/// `m`, then diagnostics of the type checker, which only come when nothing
/// was reported before them.
pub open spec fn staged(ds: Seq<Diagnostic>, n: int, m: int) -> bool {
    &&& n <= m <= ds.len()
    &&& forall|k: int| n <= k < m ==> is_parse_error(#[trigger] ds[k])
    &&& forall|k: int| m <= k < ds.len() ==> is_check_code(#[trigger] ds[k].code.0@)
    &&& m < ds.len() ==> m == 0
}

/// `r` holds the outline, hover texts and definition links of program `p`
/// in the text `cs`.
pub open spec fn outline_of(r: AnalysisResult, p: Program, cs: Seq<char>) -> bool {
    &&& symbols_match(r.symbols@, p.decls@, cs)
    &&& hovers_match(r.hover_map@, program_hovers(p.decls@), cs)
    &&& r.def_map@ == program_links(p.decls@, seq![], cs)
}

/// `r` is the analysis of the text `cs` parsed to `p`, with `m` the number
/// of lexer and parser diagnostics: the diagnostics are staged, the outline
/// is that of `p`, and when the checker ran (nothing reported before it)
/// its effect and match reports are those of `p`.
pub open spec fn analysis_of(r: AnalysisResult, p: Program, cs: Seq<char>, m: int) -> bool {
    &&& staged(r.diagnostics@, lex_from(cs, 0).diags.len() as int, m)
    &&& outline_of(r, p, cs)
    &&& m == 0 ==> exists|a: int, b: int| #[trigger] phases_reported(r.diagnostics@, a, b, p.decls@)
}

/// Moves the diagnostics `ds` into `bag`, in order.
fn add_all(bag: &mut DiagnosticBag, ds: Vec<Diagnostic>)
    ensures
        final(bag)@ == old(bag)@ + ds@,
{
    let mut ds = ds;
    let ghost all = ds@;
    let ghost start = bag@;
    proof { assert(all.subrange(0, 0) =~= Seq::<Diagnostic>::empty()); }
    while ds.len() > 0
        invariant
            ds@.len() <= all.len(),
            ds@ == all.subrange(all.len() - ds@.len(), all.len() as int),
            bag@ == start + all.subrange(0, all.len() - ds@.len()),
        decreases ds@.len(),
    {
        let ghost taken = all.len() - ds@.len();
        let d = ds.remove(0);
        bag.add(d);
        proof {
            assert(d == all[taken]);
            assert(ds@ =~= all.subrange(all.len() - ds@.len(), all.len() as int));
            assert(bag@ =~= start + all.subrange(0, all.len() - ds@.len()));
        }
    }
    proof { assert(all.subrange(0, all.len() as int) =~= all); }
}

/// Analyze a single LM source file.
///
/// Runs the full pipeline: lex, parse, and type check when lexing and
/// parsing reported nothing; then extracts the outline, hover texts and
/// definition links from the parsed program.
pub fn analyze(source: &str) -> (r: AnalysisResult)
    requires
        encode_utf8(source@).len() < usize::MAX,
        lex_from(source@, 0).safe,
    ensures
        ({
            let lx = lex_from(source@, 0);
            &&& lx.diags.len() <= r.diagnostics@.len()
            &&& diags_match(r.diagnostics@.subrange(0, lx.diags.len() as int), lx.diags, source@, 0)
        }),
        exists|ts: Seq<Token>, p: Program, m: int| #![trigger analysis_of(r, p, source@, m), tokens_match(ts, lex_from(source@, 0).tokens, source@, 0)]
            analysis_of(r, p, source@, m)
            && tokens_match(ts, lex_from(source@, 0).tokens, source@, 0)
            && lex_from(source@, 0).diags.len() <= m
            && parse_outcome(ts, p, r.diagnostics@.subrange(lex_from(source@, 0).diags.len() as int, m)),
{
    let line_index = LineIndex::new(source);
    let (tokens, lex_diagnostics) = Lexer::new(source, 0).tokenize();
    let ghost lx = lex_from(source@, 0);
    let ghost n = lex_diagnostics@.len();
    proof {
        lemma_lex_tokens(source@, 0);
        let last = (tokens@.len() - 1) as int;
        assert(tokens@[last].kind == lx.tokens[last].kind);
    }
    let mut bag = DiagnosticBag::new();
    add_all(&mut bag, lex_diagnostics);
    let (program, parse_diagnostics) = Parser::new(tokens).parse();
    let ghost m = n + parse_diagnostics@.len();
    add_all(&mut bag, parse_diagnostics);
    let ghost before = bag@;
    proof {
        assert(before.subrange(0, n as int) =~= lex_diagnostics@);
    }
    if !bag.has_errors() {
        let checker = TypeChecker::new();
        let type_diagnostics = checker.check(&program);
        let ghost td = type_diagnostics@;
        add_all(&mut bag, type_diagnostics);
        proof {
            if before.len() > 0 {
                assert(before[0].severity == crate::diagnostics::Severity::Error);
                assert(any_error(before));
            }
            assert(bag@ =~= td);
            let (a, b) = choose|a: int, b: int| #[trigger] phases_reported(td, a, b, program.decls@);
            assert(phases_reported(bag@, a, b, program.decls@));
        }
    } else {
        proof {
            if m == 0 {
                assert(before.len() == 0);
            }
        }
    }
    let symbols = extract_symbols(&program, &line_index);
    let (hover_map, def_map) = extract_navigation(&program, &line_index);
    let r = AnalysisResult { diagnostics: bag.into_vec(), symbols, hover_map, def_map };
    proof {
        assert(r.diagnostics@.subrange(0, n as int) =~= before.subrange(0, n as int));
        assert(staged(r.diagnostics@, n as int, m as int));
        assert(outline_of(r, program, source@));
        assert(analysis_of(r, program, source@, m as int));
        assert(r.diagnostics@.subrange(n as int, m as int) =~= parse_diagnostics@);
    }
    r
}

/// Whether the pattern `p` binds the name `x`.
pub open spec fn binds_name(p: Pattern, x: Seq<char>) -> bool {
    exists|k: int| 0 <= k < pattern_binds(p).len() && (#[trigger] pattern_binds(p)[k]).0 == x
}

/// Whether `s` is a use of the name `x` in `e` that no binding inside `e`
/// captures: an identifier `x` anywhere in `e` (a call's callee or
/// arguments, an operand, a `let`'s value, an `if`'s condition or either
/// branch, a scrutinee, a block, a variant's arguments, a list), but not in
/// the body of a `let` of `x`, an arm whose pattern binds `x`, or a block
/// element after a `let` of `x`.
pub open spec fn free_use(s: Expr, e: Expr, x: Seq<char>) -> bool
    decreases e, 0nat,
{
    match e.kind {
        ExprKind::Ident { name } => s == e && name@ == x,
        ExprKind::BinaryOp { lhs, rhs, .. } => free_use(s, *lhs, x) || free_use(s, *rhs, x),
        ExprKind::UnaryOp { operand, .. } => free_use(s, *operand, x),
        ExprKind::FnCall { callee, args } => free_use(s, *callee, x) || free_use_list(s, args@, x),
        ExprKind::LetExpr { name, value, body, .. } => free_use(s, *value, x) || (name@ != x && free_use(s, *body, x)),
        ExprKind::IfElse { condition, then_branch, else_branch } =>
            free_use(s, *condition, x) || free_use(s, *then_branch, x) || free_use(s, *else_branch, x),
        ExprKind::Match { scrutinee, arms } => free_use(s, *scrutinee, x) || free_use_arms(s, arms@, x),
        ExprKind::Block { exprs } => free_use_block(s, exprs@, x),
        ExprKind::VariantConstruct { args, .. } => free_use_list(s, args@, x),
        ExprKind::ListLiteral { elements } => free_use_list(s, elements@, x),
        _ => false,
    }
}

/// A free use of `x` in one of `es`.
pub open spec fn free_use_list(s: Expr, es: Seq<Expr>, x: Seq<char>) -> bool
    decreases es, 1nat,
{
    es.len() > 0 && (free_use(s, es[0], x) || free_use_list(s, es.drop_first(), x))
}

/// A free use of `x` in an arm body whose pattern does not bind `x`.
pub open spec fn free_use_arms(s: Expr, arms: Seq<MatchArm>, x: Seq<char>) -> bool
    decreases arms, 1nat,
{
    arms.len() > 0 && ((!binds_name(arms[0].pattern, x) && free_use(s, arms[0].body, x)) || free_use_arms(s, arms.drop_first(), x))
}

/// A free use of `x` in a block element not after a `let` of `x`.
pub open spec fn free_use_block(s: Expr, es: Seq<Expr>, x: Seq<char>) -> bool
    decreases es, 1nat,
{
    es.len() > 0 && (free_use(s, es[0], x)
        || (!(es[0].kind is LetExpr && es[0].kind->LetExpr_name@ == x) && free_use_block(s, es.drop_first(), x)))
}

/// Binding another name leaves the definition of `x` as it was.
pub proof fn lemma_lookup_push_other(scope: Seq<(Seq<char>, Span)>, b: (Seq<char>, Span), x: Seq<char>)
    requires
        b.0 != x,
    ensures
        lookup(scope.push(b), x) == lookup(scope, x),
{
    assert(scope.push(b).drop_last() =~= scope);
}

/// Binding names other than `x` leaves the definition of `x` as it was.
pub proof fn lemma_lookup_append_other(scope: Seq<(Seq<char>, Span)>, bs: Seq<(Seq<char>, Span)>, x: Seq<char>)
    requires
        forall|k: int| 0 <= k < bs.len() ==> (#[trigger] bs[k]).0 != x,
    ensures
        lookup(scope + bs, x) == lookup(scope, x),
    decreases bs.len(),
{
    if bs.len() == 0 {
        assert(scope + bs =~= scope);
    } else {
        assert((scope + bs).drop_last() =~= scope + bs.drop_last());
        assert(bs.last() == bs[bs.len() - 1]);
        lemma_lookup_append_other(scope, bs.drop_last(), x);
    }
}

/// Every use of a name that is defined in scope gets a definition link, to
/// the definition in scope, wherever in the expression it is (a call's
/// callee or arguments, an operand, a `let`'s value or body, an `if`'s
/// condition or either branch, a scrutinee or an arm body, a block, a
/// variant's arguments or a list's elements), unless a binding inside the
/// expression captures it.
pub proof fn lemma_every_use_linked(e: Expr, s: Expr, x: Seq<char>, scope: Seq<(Seq<char>, Span)>, cs: Seq<char>)
    requires
        free_use(s, e, x),
        lookup(scope, x) is Some,
    ensures
        expr_links(e, scope, cs).contains(DefEntry { usage_range: range_of(cs, s.span), def_range: range_of(cs, lookup(scope, x)->0) }),
    decreases e, 0nat,
{
    let l = DefEntry { usage_range: range_of(cs, s.span), def_range: range_of(cs, lookup(scope, x)->0) };
    match e.kind {
        ExprKind::Ident { name } => {
            assert(use_link(e, name@, scope, cs)[0] == l);
        },
        ExprKind::BinaryOp { lhs, rhs, .. } => {
            if free_use(s, *lhs, x) { lemma_every_use_linked(*lhs, s, x, scope, cs); }
            else { lemma_every_use_linked(*rhs, s, x, scope, cs); }
            lemma_contains_concat(expr_links(*lhs, scope, cs), expr_links(*rhs, scope, cs), l);
        },
        ExprKind::UnaryOp { operand, .. } => lemma_every_use_linked(*operand, s, x, scope, cs),
        ExprKind::FnCall { callee, args } => {
            if free_use(s, *callee, x) { lemma_every_use_linked(*callee, s, x, scope, cs); }
            else { lemma_use_linked_list(args@, s, x, scope, cs); }
            lemma_contains_concat(expr_links(*callee, scope, cs), list_links(args@, scope, cs), l);
        },
        ExprKind::LetExpr { name, value, body, .. } => {
            let inner = scope.push((name@, e.span));
            if free_use(s, *value, x) {
                lemma_every_use_linked(*value, s, x, scope, cs);
            } else {
                lemma_lookup_push_other(scope, (name@, e.span), x);
                lemma_every_use_linked(*body, s, x, inner, cs);
            }
            lemma_contains_concat(expr_links(*value, scope, cs), expr_links(*body, inner, cs), l);
        },
        ExprKind::IfElse { condition, then_branch, else_branch } => {
            let a = expr_links(*condition, scope, cs);
            let b = expr_links(*then_branch, scope, cs);
            if free_use(s, *condition, x) { lemma_every_use_linked(*condition, s, x, scope, cs); }
            else if free_use(s, *then_branch, x) { lemma_every_use_linked(*then_branch, s, x, scope, cs); }
            else { lemma_every_use_linked(*else_branch, s, x, scope, cs); }
            lemma_contains_concat(a, b, l);
            lemma_contains_concat(a + b, expr_links(*else_branch, scope, cs), l);
        },
        ExprKind::Match { scrutinee, arms } => {
            if free_use(s, *scrutinee, x) { lemma_every_use_linked(*scrutinee, s, x, scope, cs); }
            else { lemma_use_linked_arms(arms@, s, x, scope, cs); }
            lemma_contains_concat(expr_links(*scrutinee, scope, cs), arms_links(arms@, scope, cs), l);
        },
        ExprKind::Block { exprs } => lemma_use_linked_block(exprs@, s, x, scope, cs),
        ExprKind::VariantConstruct { args, .. } => lemma_use_linked_list(args@, s, x, scope, cs),
        ExprKind::ListLiteral { elements } => lemma_use_linked_list(elements@, s, x, scope, cs),
        _ => {},
    }
}

/// Every free use in one of `es` is linked.
pub proof fn lemma_use_linked_list(es: Seq<Expr>, s: Expr, x: Seq<char>, scope: Seq<(Seq<char>, Span)>, cs: Seq<char>)
    requires
        free_use_list(s, es, x),
        lookup(scope, x) is Some,
    ensures
        list_links(es, scope, cs).contains(DefEntry { usage_range: range_of(cs, s.span), def_range: range_of(cs, lookup(scope, x)->0) }),
    decreases es, 1nat,
{
    let l = DefEntry { usage_range: range_of(cs, s.span), def_range: range_of(cs, lookup(scope, x)->0) };
    if free_use(s, es[0], x) {
        lemma_every_use_linked(es[0], s, x, scope, cs);
    } else {
        lemma_use_linked_list(es.drop_first(), s, x, scope, cs);
    }
    lemma_contains_concat(expr_links(es[0], scope, cs), list_links(es.drop_first(), scope, cs), l);
}

/// Every free use in an arm body whose pattern does not bind the name is linked.
pub proof fn lemma_use_linked_arms(arms: Seq<MatchArm>, s: Expr, x: Seq<char>, scope: Seq<(Seq<char>, Span)>, cs: Seq<char>)
    requires
        free_use_arms(s, arms, x),
        lookup(scope, x) is Some,
    ensures
        arms_links(arms, scope, cs).contains(DefEntry { usage_range: range_of(cs, s.span), def_range: range_of(cs, lookup(scope, x)->0) }),
    decreases arms, 1nat,
{
    let l = DefEntry { usage_range: range_of(cs, s.span), def_range: range_of(cs, lookup(scope, x)->0) };
    let inner = scope + pattern_binds(arms[0].pattern);
    if !binds_name(arms[0].pattern, x) && free_use(s, arms[0].body, x) {
        let bs = pattern_binds(arms[0].pattern);
        assert forall|k: int| 0 <= k < bs.len() implies (#[trigger] bs[k]).0 != x by {
            if bs[k].0 == x {
                assert(binds_name(arms[0].pattern, x));
            }
        }
        lemma_lookup_append_other(scope, bs, x);
        lemma_every_use_linked(arms[0].body, s, x, inner, cs);
    } else {
        lemma_use_linked_arms(arms.drop_first(), s, x, scope, cs);
    }
    lemma_contains_concat(expr_links(arms[0].body, inner, cs), arms_links(arms.drop_first(), scope, cs), l);
}

/// Every free use in a block element not after a `let` of the name is linked.
pub proof fn lemma_use_linked_block(es: Seq<Expr>, s: Expr, x: Seq<char>, scope: Seq<(Seq<char>, Span)>, cs: Seq<char>)
    requires
        free_use_block(s, es, x),
        lookup(scope, x) is Some,
    ensures
        block_links(es, scope, cs).contains(DefEntry { usage_range: range_of(cs, s.span), def_range: range_of(cs, lookup(scope, x)->0) }),
    decreases es, 1nat,
{
    let l = DefEntry { usage_range: range_of(cs, s.span), def_range: range_of(cs, lookup(scope, x)->0) };
    let next = scope_after(es[0], scope);
    if free_use(s, es[0], x) {
        lemma_every_use_linked(es[0], s, x, scope, cs);
    } else {
        if es[0].kind is LetExpr {
            lemma_lookup_push_other(scope, (es[0].kind->LetExpr_name@, es[0].span), x);
        }
        assert(lookup(next, x) == lookup(scope, x));
        lemma_use_linked_block(es.drop_first(), s, x, next, cs);
    }
    lemma_contains_concat(expr_links(es[0], scope, cs), block_links(es.drop_first(), next, cs), l);
}

/// A name bound by the later bindings `bs` is defined there, whatever
/// comes before.
pub proof fn lemma_lookup_append_found(scope: Seq<(Seq<char>, Span)>, bs: Seq<(Seq<char>, Span)>, x: Seq<char>)
    requires
        lookup(bs, x) is Some,
    ensures
        lookup(scope + bs, x) == lookup(bs, x),
    decreases bs.len(),
{
    assert((scope + bs).drop_last() =~= scope + bs.drop_last());
    if bs.last().0 != x {
        lemma_lookup_append_found(scope, bs.drop_last(), x);
    }
}

/// The links of the `i`-th declaration are among the program's, whatever
/// the scope the declarations start from.
proof fn lemma_parameter_use_in_program(ds: Seq<Decl>, scope: Seq<(Seq<char>, Span)>, cs: Seq<char>, i: int, s: Expr, x: Seq<char>)
    requires
        0 <= i < ds.len(),
        ds[i].kind is FnDef,
        free_use(s, ds[i].kind->FnDef_body, x),
        lookup(param_binds(ds[i].kind->FnDef_params@), x) is Some,
    ensures
        program_links(ds, scope, cs).contains(DefEntry { usage_range: range_of(cs, s.span),
            def_range: range_of(cs, lookup(param_binds(ds[i].kind->FnDef_params@), x)->0) }),
    decreases ds.len(),
{
    let pb = param_binds(ds[i].kind->FnDef_params@);
    let l = DefEntry { usage_range: range_of(cs, s.span), def_range: range_of(cs, lookup(pb, x)->0) };
    if i > 0 {
        lemma_parameter_use_in_program(ds.drop_first(), decl_scope(ds[0], scope), cs, i - 1, s, x);
    } else {
        lemma_lookup_append_found(decl_scope(ds[0], scope), pb, x);
        lemma_every_use_linked(ds[0].kind->FnDef_body, s, x, decl_scope(ds[0], scope) + pb, cs);
    }
    lemma_contains_concat(decl_links(ds[0], scope, cs), program_links(ds.drop_first(), decl_scope(ds[0], scope), cs), l);
}

/// Go-to-definition of a parameter: every use of a function's parameter
/// anywhere in its body (condition, either branch of an `if`, argument, arm
/// body, ...) that no inner binding captures links to that parameter, in
/// the links [`extract_navigation`] gives for the program.
pub proof fn lemma_parameter_uses_linked(ds: Seq<Decl>, cs: Seq<char>, i: int, s: Expr, x: Seq<char>)
    requires
        0 <= i < ds.len(),
        ds[i].kind is FnDef,
        free_use(s, ds[i].kind->FnDef_body, x),
        lookup(param_binds(ds[i].kind->FnDef_params@), x) is Some,
    ensures
        program_links(ds, seq![], cs).contains(DefEntry { usage_range: range_of(cs, s.span),
            def_range: range_of(cs, lookup(param_binds(ds[i].kind->FnDef_params@), x)->0) }),
{
    lemma_parameter_use_in_program(ds, seq![], cs, i, s, x);
}

/// The definition a scope gives a name is its last binding of that name:
/// the scope binds the name there, and no later binding has that name; a
/// name the scope never binds has none.
pub proof fn lemma_lookup_is_last_binding(scope: Seq<(Seq<char>, Span)>, x: Seq<char>)
    ensures
        lookup(scope, x) matches Some(sp) ==> exists|k: int| 0 <= k < scope.len() && #[trigger] scope[k] == (x, sp)
            && forall|j: int| k < j < scope.len() ==> (#[trigger] scope[j]).0 != x,
        lookup(scope, x) is None <==> forall|k: int| 0 <= k < scope.len() ==> (#[trigger] scope[k]).0 != x,
    decreases scope.len(),
{
    if scope.len() > 0 {
        lemma_lookup_is_last_binding(scope.drop_last(), x);
        let last = scope.len() - 1;
        if scope[last].0 == x {
            assert(scope[last] == (x, scope[last].1));
        } else {
            assert forall|j: int| 0 <= j < scope.drop_last().len() implies scope.drop_last()[j] == #[trigger] scope[j] by {}
            if lookup(scope, x) is Some {
                let sp = lookup(scope, x)->0;
                let k = choose|k: int| 0 <= k < scope.drop_last().len() && #[trigger] scope.drop_last()[k] == (x, sp)
                    && forall|j: int| k < j < scope.drop_last().len() ==> (#[trigger] scope.drop_last()[j]).0 != x;
                assert(scope[k] == (x, sp));
                assert forall|j: int| k < j < scope.len() implies (#[trigger] scope[j]).0 != x by {
                    if j < last { assert(scope.drop_last()[j] == scope[j]); }
                }
            } else {
                assert forall|k: int| 0 <= k < scope.len() implies (#[trigger] scope[k]).0 != x by {
                    if k < last { assert(scope.drop_last()[k] == scope[k]); }
                }
            }
        }
    }
}

} // verus!
